//! The differ: the ordered, classified differences between two flattened
//! mappings, optionally restricted by a filter set.

use crate::filter::{in_scope, opt_filter, path_in_scope, FilterSet};
use crate::flatmap::{
    ascending, lemma_ascending_lookup, lemma_map_of_contains, map_of, FlatMap, PathId,
};
use crate::strutil::{lemma_lex_asym, lemma_lex_total, lemma_lex_trans, lex_lt, str_eq, str_lt};
use vstd::prelude::*;

verus! {

/// One classified difference at a single path.
#[derive(Debug, PartialEq, Eq)]
pub enum DiffRecord {
    /// The path is present in both mappings with differing identifiers.
    Changed { path: String, old_id: u64, new_id: u64 },
    /// The path is present only in the new mapping.
    Added { path: String, new_id: u64 },
    /// The path is present only in the old mapping.
    Removed { path: String, old_id: u64 },
}

/// The mathematical content of one difference record.
#[verifier::ext_equal]
pub enum SpecRecord {
    Changed { path: Seq<char>, old_id: u64, new_id: u64 },
    Added { path: Seq<char>, new_id: u64 },
    Removed { path: Seq<char>, old_id: u64 },
}

impl SpecRecord {
    /// The path a record speaks of.
    pub open spec fn path(self) -> Seq<char> {
        match self {
            SpecRecord::Changed { path, .. } => path,
            SpecRecord::Added { path, .. } => path,
            SpecRecord::Removed { path, .. } => path,
        }
    }
}

impl View for DiffRecord {
    type V = SpecRecord;

    open spec fn view(&self) -> SpecRecord {
        match self {
            DiffRecord::Changed { path, old_id, new_id } => SpecRecord::Changed {
                path: path@,
                old_id: *old_id,
                new_id: *new_id,
            },
            DiffRecord::Added { path, new_id } => SpecRecord::Added {
                path: path@,
                new_id: *new_id,
            },
            DiffRecord::Removed { path, old_id } => SpecRecord::Removed {
                path: path@,
                old_id: *old_id,
            },
        }
    }
}

/// The mathematical content of a sequence of difference records.
pub open spec fn views_of(v: Seq<DiffRecord>) -> Seq<SpecRecord> {
    v.map_values(|r: DiffRecord| r@)
}

/// Whether one record is the right classification of its path between the
/// two mappings, with its path admitted by the filter.
pub open spec fn record_ok(
    a: Map<Seq<char>, u64>,
    b: Map<Seq<char>, u64>,
    filter: Option<FilterSet>,
    rec: SpecRecord,
) -> bool {
    &&& in_scope(rec.path(), filter)
    &&& match rec {
        SpecRecord::Changed { path, old_id, new_id } => {
            &&& a.contains_key(path)
            &&& b.contains_key(path)
            &&& a[path] == old_id
            &&& b[path] == new_id
            &&& old_id != new_id
        },
        SpecRecord::Added { path, new_id } => {
            &&& !a.contains_key(path)
            &&& b.contains_key(path)
            &&& b[path] == new_id
        },
        SpecRecord::Removed { path, old_id } => {
            &&& a.contains_key(path)
            &&& !b.contains_key(path)
            &&& a[path] == old_id
        },
    }
}

/// Whether the two mappings disagree at a path that the filter admits.
pub open spec fn needs_record(
    a: Map<Seq<char>, u64>,
    b: Map<Seq<char>, u64>,
    filter: Option<FilterSet>,
    p: Seq<char>,
) -> bool {
    &&& in_scope(p, filter)
    &&& ((a.contains_key(p) && b.contains_key(p) && a[p] != b[p]) || (a.contains_key(p)
        != b.contains_key(p)))
}

/// Records stand in strictly ascending lexicographic path order.
pub open spec fn recs_ascending(rs: Seq<SpecRecord>) -> bool {
    forall|i: int, j: int| 0 <= i < j < rs.len() ==> #[trigger] lex_lt(rs[i].path(), rs[j].path())
}

/// Some record speaks of the path.
pub open spec fn has_rec(rs: Seq<SpecRecord>, p: Seq<char>) -> bool {
    exists|k: int| 0 <= k < rs.len() && (#[trigger] rs[k]).path() == p
}

/// The full statement of what a difference listing is: in ascending path
/// order, every record the right classification of a disagreeing path the
/// filter admits, and one record for every such path.
pub open spec fn diff_post(
    a: Map<Seq<char>, u64>,
    b: Map<Seq<char>, u64>,
    filter: Option<FilterSet>,
    rs: Seq<SpecRecord>,
) -> bool {
    &&& recs_ascending(rs)
    &&& forall|k: int| 0 <= k < rs.len() ==> record_ok(a, b, filter, #[trigger] rs[k])
    &&& forall|p: Seq<char>| #[trigger] needs_record(a, b, filter, p) ==> has_rec(rs, p)
}

/// An entry of `s` before position `hi` carries the path.
pub open spec fn prefix_has_path(s: Seq<PathId>, hi: int, p: Seq<char>) -> bool {
    exists|x: int| 0 <= x < hi && (#[trigger] s[x]).path@ == p
}

/// A path carried by no entry of `s` is no key of `map_of(s)`.
proof fn lemma_not_in_map(s: Seq<PathId>, p: Seq<char>)
    requires
        forall|x: int| 0 <= x < s.len() ==> (#[trigger] s[x]).path@ != p,
    ensures
        !map_of(s).contains_key(p),
{
    lemma_map_of_contains(s, p);
}

/// One merge step keeps every loop invariant of `diff`: the records grown by
/// at most one entry for the current path `p`, all processed paths below all
/// unprocessed ones, and completeness over the processed prefixes.
proof fn lemma_diff_step(
    a: Seq<PathId>,
    b: Seq<PathId>,
    am: Map<Seq<char>, u64>,
    bm: Map<Seq<char>, u64>,
    fv: Option<FilterSet>,
    rs0: Seq<SpecRecord>,
    rs1: Seq<SpecRecord>,
    i0: int,
    j0: int,
    i1: int,
    j1: int,
    p: Seq<char>,
)
    requires
        ascending(a),
        ascending(b),
        0 <= i0 <= i1 <= a.len(),
        0 <= j0 <= j1 <= b.len(),
        i0 < i1 || j0 < j1,
        recs_ascending(rs0),
        forall|k: int| 0 <= k < rs0.len() ==> record_ok(am, bm, fv, #[trigger] rs0[k]),
        forall|k: int, m: int|
            0 <= k < rs0.len() && i0 <= m < a.len() ==> #[trigger] lex_lt(
                rs0[k].path(),
                a[m].path@,
            ),
        forall|k: int, m: int|
            0 <= k < rs0.len() && j0 <= m < b.len() ==> #[trigger] lex_lt(
                rs0[k].path(),
                b[m].path@,
            ),
        forall|x: int, m: int|
            0 <= x < i0 && j0 <= m < b.len() ==> #[trigger] lex_lt(a[x].path@, b[m].path@),
        forall|x: int, m: int|
            0 <= x < j0 && i0 <= m < a.len() ==> #[trigger] lex_lt(b[x].path@, a[m].path@),
        forall|p2: Seq<char>|
            #[trigger] needs_record(am, bm, fv, p2) && (prefix_has_path(a, i0, p2)
                || prefix_has_path(b, j0, p2)) ==> has_rec(rs0, p2),
        forall|m: int| i1 <= m < a.len() ==> lex_lt(p, #[trigger] a[m].path@),
        forall|m: int| j1 <= m < b.len() ==> lex_lt(p, #[trigger] b[m].path@),
        forall|x: int| i0 <= x < i1 ==> (#[trigger] a[x]).path@ == p,
        forall|x: int| j0 <= x < j1 ==> (#[trigger] b[x]).path@ == p,
        rs0.len() <= rs1.len() <= rs0.len() + 1,
        forall|k: int| 0 <= k < rs0.len() ==> rs1[k] == #[trigger] rs0[k],
        rs1.len() == rs0.len() + 1 ==> rs1.last().path() == p && record_ok(
            am,
            bm,
            fv,
            rs1.last(),
        ),
        needs_record(am, bm, fv, p) ==> has_rec(rs1, p),
    ensures
        recs_ascending(rs1),
        forall|k: int| 0 <= k < rs1.len() ==> record_ok(am, bm, fv, #[trigger] rs1[k]),
        forall|k: int, m: int|
            0 <= k < rs1.len() && i1 <= m < a.len() ==> #[trigger] lex_lt(
                rs1[k].path(),
                a[m].path@,
            ),
        forall|k: int, m: int|
            0 <= k < rs1.len() && j1 <= m < b.len() ==> #[trigger] lex_lt(
                rs1[k].path(),
                b[m].path@,
            ),
        forall|x: int, m: int|
            0 <= x < i1 && j1 <= m < b.len() ==> #[trigger] lex_lt(a[x].path@, b[m].path@),
        forall|x: int, m: int|
            0 <= x < j1 && i1 <= m < a.len() ==> #[trigger] lex_lt(b[x].path@, a[m].path@),
        forall|p2: Seq<char>|
            #[trigger] needs_record(am, bm, fv, p2) && (prefix_has_path(a, i1, p2)
                || prefix_has_path(b, j1, p2)) ==> has_rec(rs1, p2),
{
    // every already emitted path lies below p
    assert forall|k: int| 0 <= k < rs0.len() implies lex_lt(#[trigger] rs0[k].path(), p) by {
        if i0 < i1 {
            assert(a[i0].path@ == p);
            assert(lex_lt(rs0[k].path(), a[i0].path@));
        } else {
            assert(b[j0].path@ == p);
            assert(lex_lt(rs0[k].path(), b[j0].path@));
        }
    }
    assert forall|k1: int, k2: int| 0 <= k1 < k2 < rs1.len() implies #[trigger] lex_lt(
        rs1[k1].path(),
        rs1[k2].path(),
    ) by {
        assert(rs1[k1] == rs0[k1]);
        if k2 < rs0.len() {
            assert(rs1[k2] == rs0[k2]);
            assert(lex_lt(rs0[k1].path(), rs0[k2].path()));
        } else {
            assert(rs1[k2] == rs1.last());
            assert(lex_lt(rs0[k1].path(), p));
        }
    }
    assert forall|k: int| 0 <= k < rs1.len() implies record_ok(am, bm, fv, #[trigger] rs1[k]) by {
        if k < rs0.len() {
            assert(rs1[k] == rs0[k]);
            assert(record_ok(am, bm, fv, rs0[k]));
        } else {
            assert(rs1[k] == rs1.last());
        }
    }
    assert forall|k: int, m: int| 0 <= k < rs1.len() && i1 <= m < a.len() implies #[trigger] lex_lt(
        rs1[k].path(),
        a[m].path@,
    ) by {
        if k < rs0.len() {
            assert(rs1[k] == rs0[k]);
            assert(lex_lt(rs0[k].path(), a[m].path@));
        } else {
            assert(rs1[k].path() == p);
            assert(lex_lt(p, a[m].path@));
        }
    }
    assert forall|k: int, m: int| 0 <= k < rs1.len() && j1 <= m < b.len() implies #[trigger] lex_lt(
        rs1[k].path(),
        b[m].path@,
    ) by {
        if k < rs0.len() {
            assert(rs1[k] == rs0[k]);
            assert(lex_lt(rs0[k].path(), b[m].path@));
        } else {
            assert(rs1[k].path() == p);
            assert(lex_lt(p, b[m].path@));
        }
    }
    assert forall|x: int, m: int| 0 <= x < i1 && j1 <= m < b.len() implies #[trigger] lex_lt(
        a[x].path@,
        b[m].path@,
    ) by {
        if x < i0 {
            assert(lex_lt(a[x].path@, b[m].path@));
        } else {
            assert(a[x].path@ == p);
            assert(lex_lt(p, b[m].path@));
        }
    }
    assert forall|x: int, m: int| 0 <= x < j1 && i1 <= m < a.len() implies #[trigger] lex_lt(
        b[x].path@,
        a[m].path@,
    ) by {
        if x < j0 {
            assert(lex_lt(b[x].path@, a[m].path@));
        } else {
            assert(b[x].path@ == p);
            assert(lex_lt(p, a[m].path@));
        }
    }
    assert forall|p2: Seq<char>|
        #[trigger] needs_record(am, bm, fv, p2) && (prefix_has_path(a, i1, p2) || prefix_has_path(
            b,
            j1,
            p2,
        )) implies has_rec(rs1, p2) by {
        let in_old = prefix_has_path(a, i0, p2) || prefix_has_path(b, j0, p2);
        if in_old {
            let k = choose|k: int| 0 <= k < rs0.len() && (#[trigger] rs0[k]).path() == p2;
            assert(rs1[k] == rs0[k]);
            assert(has_rec(rs1, p2));
        } else {
            if prefix_has_path(a, i1, p2) {
                let x = choose|x: int| 0 <= x < i1 && (#[trigger] a[x]).path@ == p2;
                assert(x >= i0);
                assert(a[x].path@ == p);
            } else {
                let x = choose|x: int| 0 <= x < j1 && (#[trigger] b[x]).path@ == p2;
                assert(x >= j0);
                assert(b[x].path@ == p);
            }
            assert(p2 == p);
        }
    }
}

/// Computes the classified differences between two flattened mappings, in
/// ascending lexicographic path order, restricted to the paths the filter
/// admits.
pub fn diff(old_map: &FlatMap, new_map: &FlatMap, filter: Option<&FilterSet>) -> (r: Vec<
    DiffRecord,
>)
    requires
        old_map.wf(),
        new_map.wf(),
    ensures
        diff_post(old_map.as_map(), new_map.as_map(), opt_filter(filter), views_of(r@)),
{
    let a = &old_map.entries;
    let b = &new_map.entries;
    let an = a.len();
    let bn = b.len();
    let ghost am = old_map.as_map();
    let ghost bm = new_map.as_map();
    let ghost fv = opt_filter(filter);
    let mut i: usize = 0;
    let mut j: usize = 0;
    let mut out: Vec<DiffRecord> = Vec::new();
    while i < an || j < bn
        invariant
            an == a@.len(),
            bn == b@.len(),
            i <= an,
            j <= bn,
            ascending(a@),
            ascending(b@),
            am == map_of(a@),
            bm == map_of(b@),
            fv == opt_filter(filter),
            recs_ascending(views_of(out@)),
            forall|k: int|
                0 <= k < out@.len() ==> record_ok(am, bm, fv, #[trigger] views_of(out@)[k]),
            forall|k: int, m: int|
                0 <= k < out@.len() && i <= m < an ==> #[trigger] lex_lt(
                    views_of(out@)[k].path(),
                    a@[m].path@,
                ),
            forall|k: int, m: int|
                0 <= k < out@.len() && j <= m < bn ==> #[trigger] lex_lt(
                    views_of(out@)[k].path(),
                    b@[m].path@,
                ),
            forall|x: int, m: int|
                0 <= x < i && j <= m < bn ==> #[trigger] lex_lt(a@[x].path@, b@[m].path@),
            forall|x: int, m: int|
                0 <= x < j && i <= m < an ==> #[trigger] lex_lt(b@[x].path@, a@[m].path@),
            forall|p2: Seq<char>|
                #[trigger] needs_record(am, bm, fv, p2) && (prefix_has_path(a@, i as int, p2)
                    || prefix_has_path(b@, j as int, p2)) ==> has_rec(views_of(out@), p2),
        decreases (an - i) + (bn - j),
    {
        let ghost rs0 = views_of(out@);
        let ghost i0 = i as int;
        let ghost j0 = j as int;
        let mut is_eq: bool = false;
        let take_a: bool;
        if j >= bn {
            take_a = true;
        } else if i >= an {
            take_a = false;
        } else if str_eq(a[i].path.as_str(), b[j].path.as_str()) {
            is_eq = true;
            take_a = true;
        } else {
            take_a = str_lt(a[i].path.as_str(), b[j].path.as_str());
        }
        if is_eq {
            // the path is present in both: a record only when the
            // identifiers differ
            let ghost p = a@[i0].path@;
            proof {
                lemma_ascending_lookup(a@, i0);
                lemma_ascending_lookup(b@, j0);
                assert forall|m: int| i0 + 1 <= m < a@.len() implies lex_lt(
                    p,
                    #[trigger] a@[m].path@,
                ) by {
                    assert(lex_lt(a@[i0].path@, a@[m].path@));
                }
                assert forall|m: int| j0 + 1 <= m < b@.len() implies lex_lt(
                    p,
                    #[trigger] b@[m].path@,
                ) by {
                    assert(lex_lt(b@[j0].path@, b@[m].path@));
                }
            }
            let sc = path_in_scope(a[i].path.as_str(), filter);
            if a[i].id != b[j].id && sc {
                let rec = DiffRecord::Changed {
                    path: a[i].path.clone(),
                    old_id: a[i].id,
                    new_id: b[j].id,
                };
                out.push(rec);
                proof {
                    assert(views_of(out@).last() == rec@);
                    assert(views_of(out@).last().path() == p);
                    assert(has_rec(views_of(out@), p));
                }
            }
            i = i + 1;
            j = j + 1;
            proof {
                lemma_diff_step(
                    a@,
                    b@,
                    am,
                    bm,
                    fv,
                    rs0,
                    views_of(out@),
                    i0,
                    j0,
                    i0 + 1,
                    j0 + 1,
                    p,
                );
            }
        } else if take_a {
            // the path is present only in the old mapping
            let ghost p = a@[i0].path@;
            proof {
                lemma_ascending_lookup(a@, i0);
                assert forall|m: int| i0 + 1 <= m < a@.len() implies lex_lt(
                    p,
                    #[trigger] a@[m].path@,
                ) by {
                    assert(lex_lt(a@[i0].path@, a@[m].path@));
                }
                assert forall|m: int| j0 <= m < b@.len() implies lex_lt(
                    p,
                    #[trigger] b@[m].path@,
                ) by {
                    if m > j0 {
                        lemma_lex_trans(p, b@[j0].path@, b@[m].path@);
                    }
                }
                assert forall|x: int| 0 <= x < b@.len() implies (#[trigger] b@[x]).path@ != p by {
                    if x < j0 {
                        assert(lex_lt(b@[x].path@, a@[i0].path@));
                        lemma_lex_asym(b@[x].path@, p);
                    } else {
                        lemma_lex_asym(p, b@[x].path@);
                    }
                }
                lemma_not_in_map(b@, p);
            }
            let sc = path_in_scope(a[i].path.as_str(), filter);
            if sc {
                let rec = DiffRecord::Removed { path: a[i].path.clone(), old_id: a[i].id };
                out.push(rec);
                proof {
                    assert(views_of(out@).last() == rec@);
                    assert(views_of(out@).last().path() == p);
                    assert(has_rec(views_of(out@), p));
                }
            }
            i = i + 1;
            proof {
                lemma_diff_step(a@, b@, am, bm, fv, rs0, views_of(out@), i0, j0, i0 + 1, j0, p);
            }
        } else {
            // the path is present only in the new mapping
            let ghost p = b@[j0].path@;
            proof {
                lemma_ascending_lookup(b@, j0);
                if i < an {
                    lemma_lex_total(a@[i0].path@, b@[j0].path@);
                }
                assert forall|m: int| j0 + 1 <= m < b@.len() implies lex_lt(
                    p,
                    #[trigger] b@[m].path@,
                ) by {
                    assert(lex_lt(b@[j0].path@, b@[m].path@));
                }
                assert forall|m: int| i0 <= m < a@.len() implies lex_lt(
                    p,
                    #[trigger] a@[m].path@,
                ) by {
                    if m > i0 {
                        lemma_lex_trans(p, a@[i0].path@, a@[m].path@);
                    }
                }
                assert forall|x: int| 0 <= x < a@.len() implies (#[trigger] a@[x]).path@ != p by {
                    if x < i0 {
                        assert(lex_lt(a@[x].path@, b@[j0].path@));
                        lemma_lex_asym(a@[x].path@, p);
                    } else {
                        lemma_lex_asym(p, a@[x].path@);
                    }
                }
                lemma_not_in_map(a@, p);
            }
            let sc = path_in_scope(b[j].path.as_str(), filter);
            if sc {
                let rec = DiffRecord::Added { path: b[j].path.clone(), new_id: b[j].id };
                out.push(rec);
                proof {
                    assert(views_of(out@).last() == rec@);
                    assert(views_of(out@).last().path() == p);
                    assert(has_rec(views_of(out@), p));
                }
            }
            j = j + 1;
            proof {
                lemma_diff_step(a@, b@, am, bm, fv, rs0, views_of(out@), i0, j0, i0, j0 + 1, p);
            }
        }
    }
    proof {
        assert forall|p2: Seq<char>| #[trigger] needs_record(am, bm, fv, p2) implies has_rec(
            views_of(out@),
            p2,
        ) by {
            lemma_map_of_contains(a@, p2);
            lemma_map_of_contains(b@, p2);
        }
    }
    out
}

} // verus!
