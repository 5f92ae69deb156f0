use protodiff::diff::{diff, DiffRecord};
use protodiff::document::{extract, KeyChild, Node};
use protodiff::filter::{parse_filters, FilterSet};
use protodiff::flatmap::FlatMap;

fn flat(pairs: &[(&str, u64)]) -> FlatMap {
    let mut m = FlatMap::new();
    for (p, id) in pairs {
        m.insert(p.to_string(), *id);
    }
    m
}

fn obj(entries: Vec<(&str, Node)>) -> Node {
    Node::Object(
        entries
            .into_iter()
            .map(|(k, child)| KeyChild { key: k.to_string(), child })
            .collect(),
    )
}

#[test]
fn diff_equal_maps_is_empty() {
    let a = flat(&[("a.b", 1)]);
    let b = flat(&[("a.b", 1)]);
    assert_eq!(diff(&a, &b, None), vec![]);
}

#[test]
fn diff_changed_value() {
    let a = flat(&[("a.b", 1)]);
    let b = flat(&[("a.b", 2)]);
    assert_eq!(
        diff(&a, &b, None),
        vec![DiffRecord::Changed { path: "a.b".to_string(), old_id: 1, new_id: 2 }]
    );
}

#[test]
fn diff_added_path() {
    let a = flat(&[]);
    let b = flat(&[("x.y", 5)]);
    assert_eq!(
        diff(&a, &b, None),
        vec![DiffRecord::Added { path: "x.y".to_string(), new_id: 5 }]
    );
}

#[test]
fn diff_removed_path() {
    let a = flat(&[("x.y", 5)]);
    let b = flat(&[]);
    assert_eq!(
        diff(&a, &b, None),
        vec![DiffRecord::Removed { path: "x.y".to_string(), old_id: 5 }]
    );
}

#[test]
fn diff_with_filter_restricts_output() {
    let a = flat(&[("login.id", 1), ("status.id", 2)]);
    let b = flat(&[("login.id", 1), ("status.id", 3)]);
    let f = FilterSet { terms: vec!["status".to_string()] };
    assert_eq!(
        diff(&a, &b, Some(&f)),
        vec![DiffRecord::Changed { path: "status.id".to_string(), old_id: 2, new_id: 3 }]
    );
}

#[test]
fn diff_filter_excludes_out_of_scope_changes() {
    let a = flat(&[("login.id", 1), ("status.id", 2)]);
    let b = flat(&[("login.id", 9), ("status.id", 3)]);
    let f = FilterSet { terms: vec!["status".to_string()] };
    assert_eq!(
        diff(&a, &b, Some(&f)),
        vec![DiffRecord::Changed { path: "status.id".to_string(), old_id: 2, new_id: 3 }]
    );
}

#[test]
fn diff_empty_filter_set_matches_nothing() {
    let a = flat(&[("a", 1)]);
    let b = flat(&[("a", 2), ("b", 3)]);
    let f = FilterSet { terms: vec![] };
    assert_eq!(diff(&a, &b, Some(&f)), vec![]);
}

#[test]
fn diff_filter_is_case_insensitive_and_spans_segments() {
    let a = flat(&[]);
    let b = flat(&[("Alert.Client", 1)]);
    let f = FilterSet { terms: vec!["ert.cli".to_string()] };
    assert_eq!(
        diff(&a, &b, Some(&f)),
        vec![DiffRecord::Added { path: "Alert.Client".to_string(), new_id: 1 }]
    );
}

#[test]
fn diff_output_is_sorted_by_path() {
    let mut b = FlatMap::new();
    b.insert("z".to_string(), 1);
    b.insert("a".to_string(), 2);
    b.insert("m".to_string(), 3);
    let a = FlatMap::new();
    assert_eq!(
        diff(&a, &b, None),
        vec![
            DiffRecord::Added { path: "a".to_string(), new_id: 2 },
            DiffRecord::Added { path: "m".to_string(), new_id: 3 },
            DiffRecord::Added { path: "z".to_string(), new_id: 1 },
        ]
    );
}

#[test]
fn diff_swapped_arguments_swap_records() {
    let a = flat(&[("a", 1), ("b", 2)]);
    let b = flat(&[("a", 1), ("c", 3)]);
    assert_eq!(
        diff(&a, &b, None),
        vec![
            DiffRecord::Removed { path: "b".to_string(), old_id: 2 },
            DiffRecord::Added { path: "c".to_string(), new_id: 3 },
        ]
    );
    assert_eq!(
        diff(&b, &a, None),
        vec![
            DiffRecord::Added { path: "b".to_string(), new_id: 2 },
            DiffRecord::Removed { path: "c".to_string(), old_id: 3 },
        ]
    );
}

#[test]
fn diff_mixed_records_in_order() {
    let a = flat(&[("d.removed", 4), ("b.changed", 1), ("a.same", 7)]);
    let b = flat(&[("c.added", 9), ("b.changed", 2), ("a.same", 7)]);
    assert_eq!(
        diff(&a, &b, None),
        vec![
            DiffRecord::Changed { path: "b.changed".to_string(), old_id: 1, new_id: 2 },
            DiffRecord::Added { path: "c.added".to_string(), new_id: 9 },
            DiffRecord::Removed { path: "d.removed".to_string(), old_id: 4 },
        ]
    );
    let f = FilterSet { terms: vec!["added".to_string()] };
    assert_eq!(
        diff(&a, &b, Some(&f)),
        vec![DiffRecord::Added { path: "c.added".to_string(), new_id: 9 }]
    );
}

#[test]
fn extract_deeply_nested_identifier() {
    let doc = obj(vec![(
        "x",
        obj(vec![("y", obj(vec![("z", obj(vec![("protocol_id", Node::Int(42))]))]))]),
    )]);
    let m = extract(&doc);
    assert_eq!(m.len(), 1);
    assert_eq!(m.get("x.y.z"), Some(42));
}

#[test]
fn extract_nested_identifiers() {
    let doc = obj(vec![(
        "play",
        obj(vec![("protocol_id", Node::Int(7)), ("sub", obj(vec![("protocol_id", Node::Int(9))]))]),
    )]);
    let m = extract(&doc);
    assert_eq!(m.len(), 2);
    assert_eq!(m.get("play"), Some(7));
    assert_eq!(m.get("play.sub"), Some(9));
}

#[test]
fn extract_without_tags_is_empty() {
    let doc = obj(vec![
        ("a", obj(vec![("b", Node::Leaf)])),
        ("c", Node::Int(4)),
        ("d", Node::Leaf),
    ]);
    let m = extract(&doc);
    assert_eq!(m.len(), 0);
}

#[test]
fn extract_root_identifier_has_empty_path() {
    let doc = obj(vec![("protocol_id", Node::Int(3))]);
    let m = extract(&doc);
    assert_eq!(m.len(), 1);
    assert_eq!(m.get(""), Some(3));
}

#[test]
fn extract_skips_non_integer_tag_values() {
    let doc = obj(vec![
        ("protocol_id", Node::Leaf),
        ("x", obj(vec![("protocol_id", Node::Int(3))])),
    ]);
    let m = extract(&doc);
    assert_eq!(m.len(), 1);
    assert_eq!(m.get("x"), Some(3));
    assert_eq!(m.get(""), None);
}

#[test]
fn extract_leaves_have_no_children() {
    let m = extract(&Node::Int(5));
    assert_eq!(m.len(), 0);
    let m = extract(&Node::Leaf);
    assert_eq!(m.len(), 0);
}

#[test]
fn flatmap_insert_overwrites_and_sorts() {
    let mut m = FlatMap::new();
    m.insert("b".to_string(), 1);
    m.insert("a".to_string(), 2);
    m.insert("b".to_string(), 7);
    assert_eq!(m.len(), 2);
    assert_eq!(m.get("a"), Some(2));
    assert_eq!(m.get("b"), Some(7));
    assert_eq!(m.get("c"), None);
    assert_eq!(m.entries[0].path, "a");
    assert_eq!(m.entries[1].path, "b");
}

#[test]
fn parse_filters_trims_lowercases_and_dedups() {
    let f = parse_filters("  Foo, BAR,, ,foo ,a b ");
    let terms = f.terms;
    assert_eq!(terms, vec!["foo".to_string(), "bar".to_string(), "a b".to_string()]);
}

#[test]
fn parse_filters_empty_text_gives_no_terms() {
    let f = parse_filters("");
    assert_eq!(f.terms, Vec::<String>::new());
    let f = parse_filters(" ,  , ");
    assert_eq!(f.terms, Vec::<String>::new());
}
