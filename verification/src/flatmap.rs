//! Flattened mappings from dotted paths to identifiers, held as a vector of
//! entries in strictly ascending lexicographic path order.

use crate::strutil::{lemma_lex_asym, lemma_lex_total, lemma_lex_trans, lex_lt, str_eq, str_lt};
use vstd::prelude::*;

verus! {

/// One path/identifier pair of a flattened mapping.
#[derive(Debug)]
pub struct PathId {
    pub path: String,
    pub id: u64,
}

/// Entries stand in strictly ascending lexicographic path order.
pub open spec fn ascending(s: Seq<PathId>) -> bool {
    forall|i: int, j: int|
        0 <= i < j < s.len() ==> #[trigger] lex_lt(s[i].path@, s[j].path@)
}

/// The mapping that a sequence of entries describes; a later entry with the
/// same path takes precedence, as a repeated store would.
pub open spec fn map_of(s: Seq<PathId>) -> Map<Seq<char>, u64>
    decreases s.len(),
{
    if s.len() == 0 {
        Map::empty()
    } else {
        map_of(s.drop_last()).insert(s.last().path@, s.last().id)
    }
}

/// A path is a key of `map_of(s)` exactly when some entry carries it.
pub proof fn lemma_map_of_contains(s: Seq<PathId>, p: Seq<char>)
    ensures
        map_of(s).contains_key(p) == (exists|i: int|
            0 <= i < s.len() && #[trigger] s[i].path@ == p),
    decreases s.len(),
{
    if s.len() == 0 {
    } else {
        lemma_map_of_contains(s.drop_last(), p);
        if s.last().path@ == p {
            assert(s[s.len() - 1].path@ == p);
        } else {
            if exists|i: int| 0 <= i < s.len() && #[trigger] s[i].path@ == p {
                let i = choose|i: int| 0 <= i < s.len() && #[trigger] s[i].path@ == p;
                assert(s.drop_last()[i].path@ == p);
            }
            if exists|i: int| 0 <= i < s.drop_last().len() && #[trigger] s.drop_last()[i].path@
                == p {
                let i = choose|i: int|
                    0 <= i < s.drop_last().len() && #[trigger] s.drop_last()[i].path@ == p;
                assert(s[i].path@ == p);
            }
        }
    }
}

/// The last entry carrying a path decides its identifier.
pub proof fn lemma_map_of_value(s: Seq<PathId>, i: int)
    requires
        0 <= i < s.len(),
        forall|j: int| i < j < s.len() ==> #[trigger] s[j].path@ != s[i].path@,
    ensures
        map_of(s).contains_key(s[i].path@),
        map_of(s)[s[i].path@] == s[i].id,
    decreases s.len(),
{
    if i == s.len() - 1 {
    } else {
        assert(s.drop_last()[i] == s[i]);
        assert forall|j: int| i < j < s.drop_last().len() implies #[trigger] s.drop_last()[j].path@
            != s.drop_last()[i].path@ by {
            assert(s.drop_last()[j] == s[j]);
        }
        lemma_map_of_value(s.drop_last(), i);
        assert(s.last().path@ != s[i].path@);
    }
}

/// In an ascending sequence every entry's identifier is the one looked up.
pub proof fn lemma_ascending_lookup(s: Seq<PathId>, i: int)
    requires
        ascending(s),
        0 <= i < s.len(),
    ensures
        map_of(s).contains_key(s[i].path@),
        map_of(s)[s[i].path@] == s[i].id,
{
    assert forall|j: int| i < j < s.len() implies #[trigger] s[j].path@ != s[i].path@ by {
        lemma_lex_asym(s[i].path@, s[j].path@);
    }
    lemma_map_of_value(s, i);
}

/// A flattened mapping from dotted paths to numeric identifiers.
#[derive(Debug)]
pub struct FlatMap {
    pub entries: Vec<PathId>,
}

impl FlatMap {
    /// The entries stand in strictly ascending path order, so each path
    /// occurs at most once.
    pub open spec fn wf(self) -> bool {
        ascending(self.entries@)
    }

    /// The mapping this value represents.
    pub open spec fn as_map(self) -> Map<Seq<char>, u64> {
        map_of(self.entries@)
    }

    /// Creates an empty mapping.
    pub fn new() -> (r: FlatMap)
        ensures
            r.wf(),
            r.as_map() == Map::<Seq<char>, u64>::empty(),
            r.entries@.len() == 0,
    {
        FlatMap { entries: Vec::new() }
    }

    /// The number of paths held.
    pub fn len(&self) -> (r: usize)
        ensures
            r == self.entries@.len(),
    {
        self.entries.len()
    }

    /// The index of the first entry whose path is not below `path`.
    fn find_pos(&self, path: &str) -> (i: usize)
        requires
            self.wf(),
        ensures
            i <= self.entries@.len(),
            forall|j: int| 0 <= j < i ==> lex_lt(#[trigger] self.entries@[j].path@, path@),
            i < self.entries@.len() ==> !lex_lt(self.entries@[i as int].path@, path@),
    {
        let n = self.entries.len();
        let mut i: usize = 0;
        while i < n
            invariant
                n == self.entries@.len(),
                i <= n,
                forall|j: int| 0 <= j < i ==> lex_lt(#[trigger] self.entries@[j].path@, path@),
            decreases n - i,
        {
            if !str_lt(self.entries[i].path.as_str(), path) {
                return i;
            }
            i = i + 1;
        }
        i
    }

    /// Stores `id` under `path`, replacing any identifier already there.
    pub fn insert(&mut self, path: String, id: u64)
        requires
            old(self).wf(),
        ensures
            final(self).wf(),
            final(self).as_map() == old(self).as_map().insert(path@, id),
    {
        let ghost s0 = self.entries@;
        let ghost p = path@;
        let n = self.entries.len();
        let i = self.find_pos(path.as_str());
        if i < n && str_eq(self.entries[i].path.as_str(), path.as_str()) {
            self.entries[i] = PathId { path, id };
            proof {
                let s1 = self.entries@;
                assert(s1 =~= s0.update(i as int, s1[i as int]));
                assert forall|x: int, y: int| 0 <= x < y < s1.len() implies #[trigger] lex_lt(
                    s1[x].path@,
                    s1[y].path@,
                ) by {
                    assert(s1[x].path@ == s0[x].path@);
                    assert(s1[y].path@ == s0[y].path@);
                }
                lemma_map_of_update(s0, i as int, s1[i as int]);
            }
        } else {
            proof {
                if i < n {
                    lemma_lex_total(self.entries@[i as int].path@, p);
                }
            }
            self.entries.insert(i, PathId { path, id });
            proof {
                let s1 = self.entries@;
                assert forall|x: int, y: int| 0 <= x < y < s1.len() implies #[trigger] lex_lt(
                    s1[x].path@,
                    s1[y].path@,
                ) by {
                    if y < i {
                        assert(s1[x] == s0[x] && s1[y] == s0[y]);
                    } else if x > i {
                        assert(s1[x] == s0[x - 1] && s1[y] == s0[y - 1]);
                    } else if x < i && y == i {
                        assert(s1[x] == s0[x]);
                    } else if x < i && y > i {
                        assert(s1[x] == s0[x] && s1[y] == s0[y - 1]);
                        if y - 1 > i {
                            lemma_lex_trans(s0[x].path@, p, s0[i as int].path@);
                            lemma_lex_trans(s0[x].path@, s0[i as int].path@, s0[y - 1].path@);
                        } else {
                            lemma_lex_trans(s0[x].path@, p, s0[y - 1].path@);
                        }
                        assert(lex_lt(s1[x].path@, s1[y].path@));
                    } else {
                        assert(x == i && y > i);
                        assert(s1[y] == s0[y - 1]);
                        if y - 1 > i {
                            lemma_lex_trans(p, s0[i as int].path@, s0[y - 1].path@);
                        }
                        assert(lex_lt(s1[x].path@, s1[y].path@));
                    }
                }
                assert forall|j: int| i as int <= j < s0.len() implies lex_lt(
                    p,
                    #[trigger] s0[j].path@,
                ) by {
                    if j > i as int {
                        lemma_lex_trans(p, s0[i as int].path@, s0[j].path@);
                    }
                }
                lemma_map_of_seq_insert(s0, i as int, s1[i as int]);
            }
        }
    }

    /// Looks a path up.
    pub fn get(&self, path: &str) -> (r: Option<u64>)
        requires
            self.wf(),
        ensures
            match r {
                Some(v) => self.as_map().contains_key(path@) && self.as_map()[path@] == v,
                None => !self.as_map().contains_key(path@),
            },
    {
        let n = self.entries.len();
        let mut i: usize = 0;
        while i < n
            invariant
                self.wf(),
                n == self.entries@.len(),
                i <= n,
                forall|j: int| 0 <= j < i ==> #[trigger] self.entries@[j].path@ != path@,
            decreases n - i,
        {
            if str_eq(self.entries[i].path.as_str(), path) {
                proof {
                    lemma_ascending_lookup(self.entries@, i as int);
                }
                return Some(self.entries[i].id);
            }
            i = i + 1;
        }
        proof {
            lemma_map_of_contains(self.entries@, path@);
        }
        None
    }
}

/// Two stores under the same path collapse to the last one.
proof fn lemma_insert_absorb(m: Map<Seq<char>, u64>, k: Seq<char>, v1: u64, v2: u64)
    ensures
        m.insert(k, v1).insert(k, v2) == m.insert(k, v2),
{
    assert(m.insert(k, v1).insert(k, v2) =~= m.insert(k, v2));
}

/// Stores under distinct paths commute.
proof fn lemma_insert_comm(m: Map<Seq<char>, u64>, k1: Seq<char>, v1: u64, k2: Seq<char>, v2: u64)
    requires
        k1 != k2,
    ensures
        m.insert(k1, v1).insert(k2, v2) == m.insert(k2, v2).insert(k1, v1),
{
    assert(m.insert(k1, v1).insert(k2, v2) =~= m.insert(k2, v2).insert(k1, v1));
}

/// Replacing the entry at `i` by one with the same path re-binds that path.
proof fn lemma_map_of_update(s0: Seq<PathId>, i: int, e: PathId)
    requires
        ascending(s0),
        0 <= i < s0.len(),
        e.path@ == s0[i].path@,
    ensures
        map_of(s0.update(i, e)) == map_of(s0).insert(e.path@, e.id),
    decreases s0.len(),
{
    let s1 = s0.update(i, e);
    if i == s0.len() - 1 {
        assert(s1.drop_last() =~= s0.drop_last());
        assert(s1.last() == e);
        lemma_insert_absorb(map_of(s0.drop_last()), e.path@, s0.last().id, e.id);
    } else {
        assert(s1.drop_last() =~= s0.drop_last().update(i, e));
        assert(s1.last() == s0.last());
        assert forall|x: int, y: int| 0 <= x < y < s0.drop_last().len() implies #[trigger] lex_lt(
            s0.drop_last()[x].path@,
            s0.drop_last()[y].path@,
        ) by {
            assert(s0.drop_last()[x] == s0[x]);
            assert(s0.drop_last()[y] == s0[y]);
        }
        assert(s0.drop_last()[i] == s0[i]);
        lemma_map_of_update(s0.drop_last(), i, e);
        assert(lex_lt(s0[i].path@, s0.last().path@));
        lemma_lex_asym(s0[i].path@, s0.last().path@);
        lemma_insert_comm(map_of(s0.drop_last()), e.path@, e.id, s0.last().path@, s0.last().id);
    }
}

/// Adding an entry whose path stands strictly between its neighbours binds
/// exactly that path on top of the rest.
proof fn lemma_map_of_seq_insert(s0: Seq<PathId>, i: int, e: PathId)
    requires
        0 <= i <= s0.len(),
        forall|j: int| 0 <= j < i ==> lex_lt(#[trigger] s0[j].path@, e.path@),
        forall|j: int| i <= j < s0.len() ==> lex_lt(e.path@, #[trigger] s0[j].path@),
    ensures
        map_of(s0.insert(i, e)) == map_of(s0).insert(e.path@, e.id),
    decreases s0.len(),
{
    let s1 = s0.insert(i, e);
    s0.insert_ensures(i, e);
    if i == s0.len() {
        assert(s1.drop_last() =~= s0);
        assert(s1.last() == e);
    } else {
        assert(s1.last() == s0.last());
        assert(s1.drop_last() =~= s0.drop_last().insert(i, e)) by {
            s0.drop_last().insert_ensures(i, e);
        }
        assert forall|j: int| 0 <= j < i implies lex_lt(
            #[trigger] s0.drop_last()[j].path@,
            e.path@,
        ) by {
            assert(s0.drop_last()[j] == s0[j]);
        }
        assert forall|j: int| i <= j < s0.drop_last().len() implies lex_lt(
            e.path@,
            #[trigger] s0.drop_last()[j].path@,
        ) by {
            assert(s0.drop_last()[j] == s0[j]);
        }
        lemma_map_of_seq_insert(s0.drop_last(), i, e);
        assert(lex_lt(e.path@, s0.last().path@));
        lemma_lex_asym(e.path@, s0.last().path@);
        lemma_insert_comm(map_of(s0.drop_last()), e.path@, e.id, s0.last().path@, s0.last().id);
    }
}

} // verus!
