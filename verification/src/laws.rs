//! The laws the differ obeys, stated over its full specification `diff_post`
//! and proved once for all mappings and filters.

use crate::diff::{diff_post, has_rec, needs_record, record_ok, recs_ascending, SpecRecord};
use crate::filter::{matches_filter, FilterSet};
use crate::strutil::{lemma_lex_asym, lex_lt};
use vstd::prelude::*;

verus! {

broadcast use vstd::seq_lib::group_filter_ensures;

/// A correct record's path is one the two mappings disagree on.
proof fn lemma_record_ok_needs(
    a: Map<Seq<char>, u64>,
    b: Map<Seq<char>, u64>,
    f: Option<FilterSet>,
    rec: SpecRecord,
)
    requires
        record_ok(a, b, f, rec),
    ensures
        needs_record(a, b, f, rec.path()),
{
}

/// At one path, the two mappings admit only one correct record.
proof fn lemma_records_agree(
    a: Map<Seq<char>, u64>,
    b: Map<Seq<char>, u64>,
    f: Option<FilterSet>,
    r1: SpecRecord,
    r2: SpecRecord,
)
    requires
        record_ok(a, b, f, r1),
        record_ok(a, b, f, r2),
        r1.path() == r2.path(),
    ensures
        r1 == r2,
{
}

/// Pointwise equality of two difference listings, from position `k` on.
proof fn lemma_unique_from(
    a: Map<Seq<char>, u64>,
    b: Map<Seq<char>, u64>,
    f: Option<FilterSet>,
    r1: Seq<SpecRecord>,
    r2: Seq<SpecRecord>,
    k: int,
)
    requires
        diff_post(a, b, f, r1),
        diff_post(a, b, f, r2),
        0 <= k <= r1.len(),
        k <= r2.len(),
        forall|k2: int| 0 <= k2 < k ==> r1[k2] == #[trigger] r2[k2],
    ensures
        r1.len() == r2.len(),
        forall|k2: int| 0 <= k2 < r1.len() ==> r1[k2] == #[trigger] r2[k2],
    decreases r1.len() + r2.len() - 2 * k,
{
    if k < r1.len() || k < r2.len() {
        if k < r1.len() {
            lemma_record_ok_needs(a, b, f, r1[k]);
            assert(has_rec(r2, r1[k].path()));
            let p = r1[k].path();
            let k2 = choose|k2: int| 0 <= k2 < r2.len() && (#[trigger] r2[k2]).path() == p;
            if k2 < k {
                assert(r1[k2] == r2[k2]);
                assert(lex_lt(r1[k2].path(), r1[k].path()));
                lemma_lex_asym(r1[k2].path(), r1[k].path());
            }
            assert(k < r2.len());
        }
        if k < r2.len() {
            lemma_record_ok_needs(a, b, f, r2[k]);
            assert(has_rec(r1, r2[k].path()));
            let p = r2[k].path();
            let k1 = choose|k1: int| 0 <= k1 < r1.len() && (#[trigger] r1[k1]).path() == p;
            if k1 < k {
                assert(r1[k1] == r2[k1]);
                assert(lex_lt(r2[k1].path(), r2[k].path()));
                lemma_lex_asym(r2[k1].path(), r2[k].path());
            }
            assert(k < r1.len());
        }
        let p1 = r1[k].path();
        let p2 = r2[k].path();
        let k2 = choose|k2: int| 0 <= k2 < r2.len() && (#[trigger] r2[k2]).path() == p1;
        let k1 = choose|k1: int| 0 <= k1 < r1.len() && (#[trigger] r1[k1]).path() == p2;
        if k2 > k {
            assert(lex_lt(r2[k].path(), r2[k2].path()));
        }
        if k1 > k {
            assert(lex_lt(r1[k].path(), r1[k1].path()));
        }
        if p1 != p2 {
            assert(lex_lt(p2, p1) && lex_lt(p1, p2));
            lemma_lex_asym(p1, p2);
        }
        lemma_records_agree(a, b, f, r1[k], r2[k]);
        lemma_unique_from(a, b, f, r1, r2, k + 1);
    }
}

/// The full specification admits exactly one difference listing.
pub proof fn lemma_diff_unique(
    a: Map<Seq<char>, u64>,
    b: Map<Seq<char>, u64>,
    f: Option<FilterSet>,
    r1: Seq<SpecRecord>,
    r2: Seq<SpecRecord>,
)
    requires
        diff_post(a, b, f, r1),
        diff_post(a, b, f, r2),
    ensures
        r1 == r2,
{
    lemma_unique_from(a, b, f, r1, r2, 0);
    assert(r1 =~= r2);
}

/// Comparing a mapping with itself yields no record at all, under any
/// filter.
pub proof fn lemma_diff_reflexive(
    m: Map<Seq<char>, u64>,
    f: Option<FilterSet>,
    rs: Seq<SpecRecord>,
)
    requires
        diff_post(m, m, f, rs),
    ensures
        rs.len() == 0,
{
    if rs.len() > 0 {
        assert(record_ok(m, m, f, rs[0]));
    }
}

/// The record a path gets when the two mappings change places.
pub open spec fn swapped(rec: SpecRecord) -> SpecRecord {
    match rec {
        SpecRecord::Changed { path, old_id, new_id } => SpecRecord::Changed {
            path,
            old_id: new_id,
            new_id: old_id,
        },
        SpecRecord::Added { path, new_id } => SpecRecord::Removed { path, old_id: new_id },
        SpecRecord::Removed { path, old_id } => SpecRecord::Added { path, new_id: old_id },
    }
}

/// Comparing in the other direction swaps each record in place: changed
/// identifiers trade sides, additions become removals and removals
/// additions, under the same paths in the same order.
pub proof fn lemma_diff_swap(
    a: Map<Seq<char>, u64>,
    b: Map<Seq<char>, u64>,
    f: Option<FilterSet>,
    r_ab: Seq<SpecRecord>,
    r_ba: Seq<SpecRecord>,
)
    requires
        diff_post(a, b, f, r_ab),
        diff_post(b, a, f, r_ba),
    ensures
        r_ba == r_ab.map_values(|rec: SpecRecord| swapped(rec)),
{
    let sw = r_ab.map_values(|rec: SpecRecord| swapped(rec));
    assert forall|k: int| 0 <= k < sw.len() implies record_ok(b, a, f, #[trigger] sw[k])
        && sw[k].path() == r_ab[k].path() by {
        assert(record_ok(a, b, f, r_ab[k]));
        assert(sw[k] == swapped(r_ab[k]));
    }
    assert forall|k1: int, k2: int| 0 <= k1 < k2 < sw.len() implies #[trigger] lex_lt(
        sw[k1].path(),
        sw[k2].path(),
    ) by {
        assert(lex_lt(r_ab[k1].path(), r_ab[k2].path()));
    }
    assert forall|p: Seq<char>| #[trigger] needs_record(b, a, f, p) implies has_rec(sw, p) by {
        assert(needs_record(a, b, f, p));
        assert(has_rec(r_ab, p));
        let k = choose|k: int| 0 <= k < r_ab.len() && (#[trigger] r_ab[k]).path() == p;
        assert(sw[k].path() == p);
        assert(has_rec(sw, p));
    }
    lemma_diff_unique(b, a, f, r_ba, sw);
}

/// A subsequence of ascending records is ascending, and made of records of
/// the original listing.
proof fn lemma_filter_ascending(rs: Seq<SpecRecord>, pred: spec_fn(SpecRecord) -> bool)
    requires
        recs_ascending(rs),
    ensures
        recs_ascending(rs.filter(pred)),
        forall|k: int| 0 <= k < rs.filter(pred).len() ==> rs.contains(#[trigger] rs.filter(pred)[k]),
    decreases rs.len(),
{
    reveal(Seq::filter);
    if rs.len() == 0 {
    } else {
        let front = rs.drop_last();
        assert forall|x: int, y: int| 0 <= x < y < front.len() implies #[trigger] lex_lt(
            front[x].path(),
            front[y].path(),
        ) by {
            assert(front[x] == rs[x]);
            assert(front[y] == rs[y]);
            assert(lex_lt(rs[x].path(), rs[y].path()));
        }
        lemma_filter_ascending(front, pred);
        let ff = front.filter(pred);
        assert forall|k: int| 0 <= k < ff.len() implies rs.contains(#[trigger] ff[k]) by {
            assert(front.contains(ff[k]));
            let x = choose|x: int| 0 <= x < front.len() && front[x] == ff[k];
            assert(rs[x] == ff[k]);
        }
        if pred(rs.last()) {
            assert(rs.filter(pred) == ff.push(rs.last()));
            assert forall|k1: int, k2: int| 0 <= k1 < k2 < rs.filter(pred).len() implies
                #[trigger] lex_lt(rs.filter(pred)[k1].path(), rs.filter(pred)[k2].path()) by {
                if k2 < ff.len() {
                    assert(lex_lt(ff[k1].path(), ff[k2].path()));
                } else {
                    assert(rs.filter(pred)[k2] == rs.last());
                    assert(front.contains(ff[k1]));
                    let x = choose|x: int| 0 <= x < front.len() && front[x] == ff[k1];
                    assert(rs[x] == ff[k1]);
                    assert(lex_lt(rs[x].path(), rs[rs.len() - 1].path()));
                }
            }
        } else {
            assert(rs.filter(pred) == ff);
        }
    }
}

/// Filtering restricts the unrestricted differences to exactly the records
/// whose path the filter admits; nothing else changes.
pub proof fn lemma_diff_filter(
    a: Map<Seq<char>, u64>,
    b: Map<Seq<char>, u64>,
    f: FilterSet,
    r_all: Seq<SpecRecord>,
    r_f: Seq<SpecRecord>,
)
    requires
        diff_post(a, b, Option::None, r_all),
        diff_post(a, b, Option::Some(f), r_f),
    ensures
        r_f == r_all.filter(|rec: SpecRecord| matches_filter(f, rec.path())),
{
    let pred = |rec: SpecRecord| matches_filter(f, rec.path());
    let cand = r_all.filter(pred);
    lemma_filter_ascending(r_all, pred);
    assert forall|k: int| 0 <= k < cand.len() implies record_ok(
        a,
        b,
        Option::Some(f),
        #[trigger] cand[k],
    ) by {
        assert(pred(cand[k]));
        assert(r_all.contains(cand[k]));
        let x = choose|x: int| 0 <= x < r_all.len() && r_all[x] == cand[k];
        assert(record_ok(a, b, Option::None, r_all[x]));
    }
    assert forall|p: Seq<char>| #[trigger] needs_record(a, b, Option::Some(f), p) implies has_rec(
        cand,
        p,
    ) by {
        assert(needs_record(a, b, Option::<FilterSet>::None, p));
        assert(has_rec(r_all, p));
        let k = choose|k: int| 0 <= k < r_all.len() && (#[trigger] r_all[k]).path() == p;
        assert(record_ok(a, b, Option::None, r_all[k]));
        assert(matches_filter(f, r_all[k].path()));
        assert(pred(r_all[k]));
        assert(cand.contains(r_all[k]));
        let k2 = choose|k2: int| 0 <= k2 < cand.len() && cand[k2] == r_all[k];
        assert(cand[k2].path() == p);
        assert(has_rec(cand, p));
    }
    lemma_diff_unique(a, b, Option::Some(f), r_f, cand);
}

/// An explicitly empty filter set admits no path, so the filtered
/// differences are empty whatever the mappings hold.
pub proof fn lemma_diff_empty_filter(
    a: Map<Seq<char>, u64>,
    b: Map<Seq<char>, u64>,
    f: FilterSet,
    rs: Seq<SpecRecord>,
)
    requires
        f.terms@.len() == 0,
        diff_post(a, b, Option::Some(f), rs),
    ensures
        rs.len() == 0,
{
    if rs.len() > 0 {
        assert(record_ok(a, b, Option::Some(f), rs[0]));
        assert(matches_filter(f, rs[0].path()));
    }
}

} // verus!
