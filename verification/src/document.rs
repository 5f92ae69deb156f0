//! Documents: arbitrarily nested trees of keyed object nodes, and the
//! extractor that flattens every tagged numeric identifier into a mapping
//! from dotted path to identifier.

use crate::flatmap::FlatMap;
use crate::strutil::str_eq;
use vstd::prelude::*;
use vstd::string::*;

verus! {

broadcast use vstd::std_specs::vec::axiom_vec_index_decreases;

/// A document node: an object of keyed children, a non-negative integer
/// leaf, or any other leaf. Anything that is not an object has no children
/// to recurse into.
#[derive(Debug)]
pub enum Node {
    Object(Vec<KeyChild>),
    Int(u64),
    Leaf,
}

/// One key/child pair of an object node.
#[derive(Debug)]
pub struct KeyChild {
    pub key: String,
    pub child: Node,
}

/// The reserved key that marks an object node as carrying an identifier.
pub open spec fn id_tag() -> Seq<char> {
    "protocol_id"@
}

/// The identifier an object node carries: the value under the tag key, if
/// that value is an integer leaf; a tag bound to anything else counts as
/// absent.
pub open spec fn find_id(entries: Seq<KeyChild>) -> Option<u64>
    decreases entries.len(),
{
    if entries.len() == 0 {
        Option::None
    } else if entries[0].key@ == id_tag() {
        match entries[0].child {
            Node::Int(v) => Option::Some(v),
            _ => Option::None,
        }
    } else {
        find_id(entries.skip(1))
    }
}

/// The rendered path of a child: the key itself under the root, else the
/// parent's path, a dot, and the key.
pub open spec fn child_path(prefix: Seq<char>, root: bool, key: Seq<char>) -> Seq<char> {
    if root {
        key
    } else {
        prefix + "."@ + key
    }
}

/// The flattened mapping of a node standing at the rendered path `prefix`.
/// `root` says whether the node is the document root, whose own path is
/// empty and whose children's paths carry no leading dot. A later entry
/// overrides an earlier one at a shared path, and a child its parent.
pub open spec fn spec_extract(n: Node, prefix: Seq<char>, root: bool) -> Map<Seq<char>, u64>
    decreases n,
{
    match n {
        Node::Object(entries) => {
            let own = match find_id(entries@) {
                Option::Some(id) => Map::<Seq<char>, u64>::empty().insert(prefix, id),
                Option::None => Map::<Seq<char>, u64>::empty(),
            };
            own.union_prefer_right(spec_extract_children(entries, prefix, root, 0))
        },
        _ => Map::empty(),
    }
}

/// The merged flattened mappings of the children from position `k` on.
pub open spec fn spec_extract_children(
    entries: Vec<KeyChild>,
    prefix: Seq<char>,
    root: bool,
    k: int,
) -> Map<Seq<char>, u64>
    decreases entries, entries.len() - k,
{
    if k < 0 || k >= entries.len() {
        Map::empty()
    } else {
        spec_extract(
            entries[k].child,
            child_path(prefix, root, entries[k].key@),
            false,
        ).union_prefer_right(spec_extract_children(entries, prefix, root, k + 1))
    }
}

/// Merging with the empty mapping changes nothing.
proof fn lemma_union_empty(m: Map<Seq<char>, u64>)
    ensures
        m.union_prefer_right(Map::empty()) == m,
        Map::<Seq<char>, u64>::empty().union_prefer_right(m) == m,
{
    assert(m.union_prefer_right(Map::<Seq<char>, u64>::empty()) =~= m);
    assert(Map::<Seq<char>, u64>::empty().union_prefer_right(m) =~= m);
}

/// Merging is associative.
proof fn lemma_union_assoc(m1: Map<Seq<char>, u64>, m2: Map<Seq<char>, u64>, m3: Map<Seq<char>, u64>)
    ensures
        m1.union_prefer_right(m2).union_prefer_right(m3) == m1.union_prefer_right(
            m2.union_prefer_right(m3),
        ),
{
    assert(m1.union_prefer_right(m2).union_prefer_right(m3) =~= m1.union_prefer_right(
        m2.union_prefer_right(m3),
    ));
}

/// One store is a merge with a one-path mapping.
proof fn lemma_insert_as_union(m: Map<Seq<char>, u64>, k: Seq<char>, v: u64)
    ensures
        m.insert(k, v) == m.union_prefer_right(Map::<Seq<char>, u64>::empty().insert(k, v)),
{
    assert(m.insert(k, v) =~= m.union_prefer_right(Map::<Seq<char>, u64>::empty().insert(k, v)));
}

/// Scans an object's entries for the identifier tag.
fn object_id(entries: &Vec<KeyChild>) -> (r: Option<u64>)
    ensures
        r == find_id(entries@),
{
    let n = entries.len();
    let mut i: usize = 0;
    proof {
        assert(entries@.skip(0) =~= entries@);
    }
    while i < n
        invariant
            n == entries@.len(),
            i <= n,
            find_id(entries@) == find_id(entries@.skip(i as int)),
        decreases n - i,
    {
        proof {
            assert(entries@.skip(i as int)[0] == entries@[i as int]);
        }
        if str_eq(entries[i].key.as_str(), "protocol_id") {
            match &entries[i].child {
                Node::Int(v) => {
                    return Option::Some(*v);
                },
                _ => {
                    return Option::None;
                },
            }
        }
        proof {
            assert(entries@.skip(i as int).skip(1) =~= entries@.skip(i as int + 1));
        }
        i = i + 1;
    }
    proof {
        assert(entries@.skip(i as int).len() == 0);
    }
    Option::None
}

/// Flattens `node`, standing at `prefix`, into `acc`: afterwards `acc` holds
/// what it held before, overridden by the node's own flattened mapping.
fn extract_into(node: &Node, prefix: &String, root: bool, acc: &mut FlatMap)
    requires
        old(acc).wf(),
    ensures
        final(acc).wf(),
        final(acc).as_map() == old(acc).as_map().union_prefer_right(
            spec_extract(*node, prefix@, root),
        ),
    decreases *node,
{
    match node {
        Node::Object(entries) => {
            if let Option::Some(id) = object_id(entries) {
                acc.insert(prefix.clone(), id);
                proof {
                    lemma_insert_as_union(old(acc).as_map(), prefix@, id);
                }
            } else {
                proof {
                    lemma_union_empty(old(acc).as_map());
                }
            }
            let n = entries.len();
            let mut k: usize = 0;
            proof {
                lemma_union_assoc(
                    old(acc).as_map(),
                    match find_id(entries@) {
                        Option::Some(id) => Map::<Seq<char>, u64>::empty().insert(prefix@, id),
                        Option::None => Map::<Seq<char>, u64>::empty(),
                    },
                    spec_extract_children(*entries, prefix@, root, 0),
                );
            }
            while k < n
                invariant
                    n == entries@.len(),
                    k <= n,
                    acc.wf(),
                    *node == Node::Object(*entries),
                    old(acc).as_map().union_prefer_right(spec_extract(*node, prefix@, root))
                        == acc.as_map().union_prefer_right(
                        spec_extract_children(*entries, prefix@, root, k as int),
                    ),
                decreases n - k,
            {
                let mut cp: String;
                if root {
                    cp = entries[k].key.clone();
                } else {
                    cp = prefix.clone();
                    cp.append(".");
                    cp.append(entries[k].key.as_str());
                }
                proof {
                    assert(cp@ == child_path(prefix@, root, entries@[k as int].key@));
                    assert(decreases_to!(*node => *entries));
                    assert(decreases_to!(*entries => (*entries)[k as int]));
                    assert(decreases_to!((*entries)[k as int] => (*entries)[k as int].child));
                }
                let ghost acc_before = acc.as_map();
                extract_into(&entries[k].child, &cp, false, acc);
                proof {
                    lemma_union_assoc(
                        acc_before,
                        spec_extract(
                            entries@[k as int].child,
                            child_path(prefix@, root, entries@[k as int].key@),
                            false,
                        ),
                        spec_extract_children(*entries, prefix@, root, k as int + 1),
                    );
                }
                k = k + 1;
            }
            proof {
                lemma_union_empty(acc.as_map());
            }
        },
        _ => {
            proof {
                lemma_union_empty(old(acc).as_map());
            }
        },
    }
}

/// Flattens a document into its mapping from dotted path to identifier:
/// one entry for every object node that carries a valid identifier tag,
/// keyed by the node's full dot-joined path from the root.
pub fn extract(doc: &Node) -> (r: FlatMap)
    ensures
        r.wf(),
        r.as_map() == spec_extract(*doc, Seq::empty(), true),
{
    let mut acc = FlatMap::new();
    let prefix = String::new();
    extract_into(doc, &prefix, true, &mut acc);
    proof {
        lemma_union_empty(spec_extract(*doc, prefix@, true));
        assert(prefix@ =~= Seq::<char>::empty());
    }
    acc
}

/// Whether no node of the tree carries a valid identifier tag.
pub open spec fn no_ids(n: Node) -> bool
    decreases n,
{
    match n {
        Node::Object(entries) => find_id(entries@) is None && no_ids_children(entries, 0),
        _ => true,
    }
}

/// Whether no child from position `k` on carries a valid identifier tag.
pub open spec fn no_ids_children(entries: Vec<KeyChild>, k: int) -> bool
    decreases entries, entries.len() - k,
{
    if k < 0 || k >= entries.len() {
        true
    } else {
        no_ids(entries[k].child) && no_ids_children(entries, k + 1)
    }
}

/// A document without a single valid identifier tag flattens to the empty
/// mapping, wherever it stands.
pub proof fn lemma_extract_no_ids(n: Node, prefix: Seq<char>, root: bool)
    requires
        no_ids(n),
    ensures
        spec_extract(n, prefix, root) == Map::<Seq<char>, u64>::empty(),
    decreases n,
{
    match n {
        Node::Object(entries) => {
            lemma_extract_no_ids_children(entries, prefix, root, 0);
            lemma_union_empty(Map::<Seq<char>, u64>::empty());
        },
        _ => {},
    }
}

/// The children's part of the previous law.
proof fn lemma_extract_no_ids_children(entries: Vec<KeyChild>, prefix: Seq<char>, root: bool, k: int)
    requires
        no_ids_children(entries, k),
    ensures
        spec_extract_children(entries, prefix, root, k) == Map::<Seq<char>, u64>::empty(),
    decreases entries, entries.len() - k,
{
    if k < 0 || k >= entries.len() {
    } else {
        lemma_extract_no_ids(entries[k].child, child_path(prefix, root, entries[k].key@), false);
        lemma_extract_no_ids_children(entries, prefix, root, k + 1);
        lemma_union_empty(Map::<Seq<char>, u64>::empty());
    }
}

} // verus!
