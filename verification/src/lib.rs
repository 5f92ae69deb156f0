//! Protocol-identifier extraction and diff engine.
//!
//! Given two arbitrarily nested documents that carry numeric protocol
//! identifiers under a reserved tag key, this library flattens each document
//! into a mapping from dotted path to identifier and computes an ordered,
//! classified list of differences between two such mappings, optionally
//! restricted by a set of case-insensitive substring filters.

pub mod diff;
pub mod document;
pub mod filter;
pub mod flatmap;
pub mod laws;
pub mod strutil;
