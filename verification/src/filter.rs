//! Filter sets: optional, case-insensitive substring allow-lists over paths.

use crate::strutil::{contains_sub, is_space, is_unicode_space, lower_of, str_contains, str_eq, to_lower};
use vstd::prelude::*;
use vstd::string::*;

verus! {

/// A set of substring filters. A path is in scope when its lowercased form
/// contains at least one of the terms; an empty set admits no path at all,
/// so "no restriction" must be expressed by passing no filter, never by
/// passing an empty one.
#[derive(Debug)]
pub struct FilterSet {
    pub terms: Vec<String>,
}

/// The filter value an optional borrowed filter stands for.
pub open spec fn opt_filter(filter: Option<&FilterSet>) -> Option<FilterSet> {
    match filter {
        Option::None => Option::None,
        Option::Some(f) => Option::Some(*f),
    }
}

/// Whether the lowercased form of a path contains at least one of the terms.
pub open spec fn matches_filter(f: FilterSet, p: Seq<char>) -> bool {
    exists|i: int| 0 <= i < f.terms@.len() && contains_sub(lower_of(p), #[trigger] f.terms@[i]@)
}

/// Whether a path is compared: with no filter every path is; with a filter,
/// exactly the paths whose lowercased form contains at least one term.
pub open spec fn in_scope(p: Seq<char>, filter: Option<FilterSet>) -> bool {
    match filter {
        Option::None => true,
        Option::Some(f) => matches_filter(f, p),
    }
}

/// Decides whether a path is in scope for an optional filter.
pub fn path_in_scope(path: &str, filter: Option<&FilterSet>) -> (r: bool)
    ensures
        r == in_scope(path@, opt_filter(filter)),
{
    match filter {
        Option::None => true,
        Option::Some(f) => {
            let lowered = to_lower(path);
            let n = f.terms.len();
            let mut i: usize = 0;
            while i < n
                invariant
                    filter == Option::Some(f),
                    n == f.terms@.len(),
                    i <= n,
                    lowered@ == lower_of(path@),
                    forall|j: int|
                        0 <= j < i ==> !contains_sub(lower_of(path@), #[trigger] f.terms@[j]@),
                decreases n - i,
            {
                if str_contains(lowered.as_str(), f.terms[i].as_str()) {
                    proof {
                        assert(contains_sub(lower_of(path@), f.terms@[i as int]@));
                        assert(matches_filter(*f, path@));
                    }
                    return true;
                }
                i = i + 1;
            }
            false
        },
    }
}

/// The position of the first separating comma, or the length if none.
pub open spec fn first_sep(s: Seq<char>) -> int
    decreases s.len(),
{
    if s.len() == 0 {
        0
    } else if s[0] == ',' {
        0
    } else {
        1 + first_sep(s.skip(1))
    }
}

/// `first_sep` points at the first comma, within bounds.
pub proof fn lemma_first_sep(s: Seq<char>)
    ensures
        0 <= first_sep(s) <= s.len(),
        first_sep(s) < s.len() ==> s[first_sep(s)] == ',',
    decreases s.len(),
{
    if s.len() == 0 || s[0] == ',' {
    } else {
        lemma_first_sep(s.skip(1));
    }
}

/// The position with no comma before it and a comma or the end at it is
/// the first separator.
proof fn lemma_first_sep_at(s: Seq<char>, i: int)
    requires
        0 <= i <= s.len(),
        forall|x: int| 0 <= x < i ==> s[x] != ',',
        i < s.len() ==> s[i] == ',',
    ensures
        first_sep(s) == i,
    decreases i,
{
    if i == 0 {
    } else {
        assert(s[0] != ',');
        assert forall|x: int| 0 <= x < i - 1 implies s.skip(1)[x] != ',' by {
            assert(s.skip(1)[x] == s[x + 1]);
        }
        assert(i - 1 < s.skip(1).len() ==> s.skip(1)[i - 1] == ',');
        lemma_first_sep_at(s.skip(1), i - 1);
    }
}

/// The sequence without its leading whitespace.
pub open spec fn trim_start(s: Seq<char>) -> Seq<char>
    decreases s.len(),
{
    if s.len() > 0 && is_unicode_space(s[0]) {
        trim_start(s.skip(1))
    } else {
        s
    }
}

/// The sequence without its trailing whitespace.
pub open spec fn trim_end(s: Seq<char>) -> Seq<char>
    decreases s.len(),
{
    if s.len() > 0 && is_unicode_space(s.last()) {
        trim_end(s.drop_last())
    } else {
        s
    }
}

/// The sequence without leading and trailing whitespace.
pub open spec fn trim_of(s: Seq<char>) -> Seq<char> {
    trim_end(trim_start(s))
}

/// Dropping exactly the leading whitespace run is `trim_start`.
proof fn lemma_trim_start_at(s: Seq<char>, lo: int)
    requires
        0 <= lo <= s.len(),
        forall|x: int| 0 <= x < lo ==> is_unicode_space(s[x]),
        lo < s.len() ==> !is_unicode_space(s[lo]),
    ensures
        trim_start(s) == s.skip(lo),
    decreases lo,
{
    if lo == 0 {
        assert(s.skip(0) =~= s);
    } else {
        assert(is_unicode_space(s[0]));
        assert forall|x: int| 0 <= x < lo - 1 implies is_unicode_space(s.skip(1)[x]) by {
            assert(s.skip(1)[x] == s[x + 1]);
        }
        assert(lo - 1 < s.skip(1).len() ==> !is_unicode_space(s.skip(1)[lo - 1]));
        lemma_trim_start_at(s.skip(1), lo - 1);
        assert(s.skip(1).skip(lo - 1) =~= s.skip(lo));
    }
}

/// Cutting exactly the trailing whitespace run is `trim_end`.
proof fn lemma_trim_end_at(s: Seq<char>, hi: int)
    requires
        0 <= hi <= s.len(),
        forall|x: int| hi <= x < s.len() ==> is_unicode_space(s[x]),
        hi > 0 ==> !is_unicode_space(s[hi - 1]),
    ensures
        trim_end(s) == s.subrange(0, hi),
    decreases s.len() - hi,
{
    if hi == s.len() {
        assert(s.subrange(0, hi) =~= s);
    } else {
        assert(is_unicode_space(s.last()));
        let front = s.drop_last();
        assert forall|x: int| hi <= x < front.len() implies is_unicode_space(front[x]) by {
            assert(front[x] == s[x]);
        }
        assert(hi > 0 ==> !is_unicode_space(front[hi - 1]));
        lemma_trim_end_at(front, hi);
        assert(front.subrange(0, hi) =~= s.subrange(0, hi));
    }
}

/// The term one comma-separated segment contributes: its trimmed,
/// lowercased form, unless that is empty.
pub open spec fn seg_term(x: Seq<char>) -> Set<Seq<char>> {
    if lower_of(trim_of(x)).len() > 0 {
        Set::<Seq<char>>::empty().insert(lower_of(trim_of(x)))
    } else {
        Set::empty()
    }
}

#[via_fn]
proof fn terms_of_decreases(s: Seq<char>) {
    lemma_first_sep(s);
}

/// The set of terms a comma-separated text contributes: each segment
/// trimmed and lowercased, empty results discarded, duplicates merged.
pub open spec fn terms_of(s: Seq<char>) -> Set<Seq<char>>
    decreases s.len(),
        via terms_of_decreases
{
    let base = seg_term(s.subrange(0, first_sep(s)));
    if first_sep(s) < s.len() {
        base.union(terms_of(s.skip(first_sep(s) + 1)))
    } else {
        base
    }
}

/// The set of character sequences a list of terms holds.
pub open spec fn term_views(terms: Seq<String>) -> Set<Seq<char>> {
    Set::new(|t: Seq<char>| exists|i: int| 0 <= i < terms.len() && #[trigger] terms[i]@ == t)
}

/// The well-formedness of a parsed term list: no term empty, none repeated.
pub open spec fn terms_wf(terms: Seq<String>) -> bool {
    &&& forall|i: int| 0 <= i < terms.len() ==> (#[trigger] terms[i]@).len() > 0
    &&& forall|i: int, j: int| 0 <= i < j < terms.len() ==> terms[i]@ != terms[j]@
}

/// The position of the first comma of a string.
fn find_comma(s: &str) -> (i: usize)
    ensures
        i as int == first_sep(s@),
        i <= s@.len(),
{
    let n = s.unicode_len();
    let mut i: usize = 0;
    while i < n
        invariant
            n == s@.len(),
            i <= n,
            forall|x: int| 0 <= x < i ==> s@[x] != ',',
        decreases n - i,
    {
        if s.get_char(i) == ',' {
            proof {
                lemma_first_sep_at(s@, i as int);
            }
            return i;
        }
        i = i + 1;
    }
    proof {
        lemma_first_sep_at(s@, i as int);
    }
    i
}

/// The position after the leading whitespace run.
fn scan_start(s: &str) -> (lo: usize)
    ensures
        lo <= s@.len(),
        forall|x: int| 0 <= x < lo ==> is_unicode_space(s@[x]),
        lo < s@.len() ==> !is_unicode_space(s@[lo as int]),
{
    let n = s.unicode_len();
    let mut lo: usize = 0;
    while lo < n
        invariant
            n == s@.len(),
            lo <= n,
            forall|x: int| 0 <= x < lo ==> is_unicode_space(s@[x]),
        decreases n - lo,
    {
        if !is_space(s.get_char(lo)) {
            return lo;
        }
        lo = lo + 1;
    }
    lo
}

/// The position before the trailing whitespace run, not before `lo`.
fn scan_end(s: &str, lo: usize) -> (hi: usize)
    requires
        lo <= s@.len(),
    ensures
        lo <= hi <= s@.len(),
        forall|x: int| hi <= x < s@.len() ==> is_unicode_space(s@[x]),
        hi > lo ==> !is_unicode_space(s@[hi - 1]),
{
    let n = s.unicode_len();
    let mut hi: usize = n;
    while hi > lo
        invariant
            n == s@.len(),
            lo <= hi <= n,
            forall|x: int| hi <= x < n ==> is_unicode_space(s@[x]),
        decreases hi,
    {
        if !is_space(s.get_char(hi - 1)) {
            return hi;
        }
        hi = hi - 1;
    }
    hi
}

/// Trims one segment, lowercases it, and adds it to the terms unless it is
/// empty or already held.
fn take_segment(seg: &str, terms: &mut Vec<String>)
    requires
        terms_wf(old(terms)@),
    ensures
        terms_wf(final(terms)@),
        term_views(final(terms)@) =~= term_views(old(terms)@).union(seg_term(seg@)),
{
    let lo = scan_start(seg);
    let hi = scan_end(seg, lo);
    let trimmed = seg.substring_char(lo, hi);
    proof {
        lemma_trim_start_at(seg@, lo as int);
        let rest = seg@.skip(lo as int);
        assert forall|x: int| hi - lo <= x < rest.len() implies is_unicode_space(rest[x]) by {
            assert(rest[x] == seg@[x + lo]);
        }
        assert(hi - lo > 0 ==> !is_unicode_space(rest[hi - lo - 1]));
        lemma_trim_end_at(rest, hi - lo as int);
        assert(rest.subrange(0, hi - lo as int) =~= seg@.subrange(lo as int, hi as int));
        assert(trim_of(seg@) == trimmed@);
    }
    let term = to_lower(trimmed);
    if term.as_str().is_empty() {
        proof {
            assert(term_views(terms@) =~= term_views(terms@).union(seg_term(seg@)));
        }
        return ;
    }
    let m = terms.len();
    let mut t: usize = 0;
    while t < m
        invariant
            m == terms@.len(),
            t <= m,
            term@ == lower_of(trim_of(seg@)),
            term@.len() > 0,
            terms_wf(terms@),
            forall|x: int| 0 <= x < t ==> terms@[x]@ != term@,
        decreases m - t,
    {
        if str_eq(terms[t].as_str(), term.as_str()) {
            proof {
                assert(terms@[t as int]@ == term@);
                assert(term_views(terms@).contains(term@));
                assert(term_views(terms@) =~= term_views(terms@).union(seg_term(seg@)));
            }
            return ;
        }
        t = t + 1;
    }
    let ghost before = terms@;
    terms.push(term);
    proof {
        assert forall|q: Seq<char>| #[trigger] term_views(terms@).contains(q) implies term_views(
            before,
        ).union(seg_term(seg@)).contains(q) by {
            let x = choose|x: int| 0 <= x < terms@.len() && #[trigger] terms@[x]@ == q;
            if x < before.len() {
                assert(before[x]@ == q);
            }
        }
        assert forall|q: Seq<char>|
            #[trigger] term_views(before).union(seg_term(seg@)).contains(q) implies term_views(
            terms@,
        ).contains(q) by {
            if term_views(before).contains(q) {
                let x = choose|x: int| 0 <= x < before.len() && #[trigger] before[x]@ == q;
                assert(terms@[x]@ == q);
            } else {
                assert(terms@[before.len() as int]@ == q);
            }
        }
        assert(term_views(terms@) =~= term_views(before).union(seg_term(seg@)));
        assert forall|i: int, j: int| 0 <= i < j < terms@.len() implies terms@[i]@ != terms@[j]@ by {
            if j < before.len() {
                assert(before[i]@ != before[j]@);
            } else {
                assert(terms@[j]@ == term@);
            }
        }
    }
}

/// Splits the rest of the text at commas and folds every segment in.
fn parse_rec(s: &str, terms: &mut Vec<String>)
    requires
        terms_wf(old(terms)@),
    ensures
        terms_wf(final(terms)@),
        term_views(final(terms)@) =~= term_views(old(terms)@).union(terms_of(s@)),
    decreases s@.len(),
{
    let n = s.unicode_len();
    let fs = find_comma(s);
    let seg = s.substring_char(0, fs);
    proof {
        assert(seg@ =~= s@.subrange(0, first_sep(s@)));
    }
    take_segment(seg, terms);
    if fs < n {
        let rest = s.substring_char(fs + 1, n);
        proof {
            assert(rest@ =~= s@.skip(first_sep(s@) + 1));
        }
        parse_rec(rest, terms);
        proof {
            assert(term_views(terms@) =~= term_views(old(terms)@).union(terms_of(s@)));
        }
    }
}

/// Parses a comma-separated filter text: each entry trimmed of surrounding
/// whitespace and lowercased, empty entries discarded, duplicates merged.
/// The result is the filter set whose terms are exactly those entries.
pub fn parse_filters(text: &str) -> (r: FilterSet)
    ensures
        term_views(r.terms@) == terms_of(text@),
        terms_wf(r.terms@),
{
    let mut terms: Vec<String> = Vec::new();
    parse_rec(text, &mut terms);
    proof {
        assert(term_views(Seq::<String>::empty()) =~= Set::<Seq<char>>::empty());
        assert(term_views(terms@) =~= terms_of(text@));
    }
    FilterSet { terms }
}

} // verus!
