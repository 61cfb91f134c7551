use no_nonsense_flamegraphs::vec_trie::{Index, Measurement, VecTrie};

#[test]
fn new_trie_has_no_root() {
    let trie = VecTrie::new();
    assert!(trie.root().is_none());
    assert!(trie.is_empty());
    assert_eq!(trie.len(), 0);
}

#[test]
fn first_insert_creates_root() {
    let mut trie = VecTrie::new();
    let root = trie.insert_child(None, "main".to_string());
    assert_eq!(root, Index(0));
    let visitor = trie.root().unwrap();
    assert_eq!(visitor.key(), "main");
    assert_eq!(*visitor.value(), Measurement { duration: 0, num_invocations: 0 });
    assert!(visitor.children().next().is_none());
}

#[test]
fn insert_child_finds_existing_label() {
    let mut trie = VecTrie::new();
    let root = trie.insert_child(None, "main".to_string());
    let a = trie.insert_child(Some(root), "a".to_string());
    let b = trie.insert_child(Some(root), "b".to_string());
    let c = trie.insert_child(Some(root), "c".to_string());
    assert_eq!((a, b, c), (Index(1), Index(2), Index(3)));
    assert_eq!(trie.insert_child(Some(root), "a".to_string()), a);
    assert_eq!(trie.insert_child(Some(root), "b".to_string()), b);
    assert_eq!(trie.insert_child(Some(root), "c".to_string()), c);
    assert_eq!(trie.len(), 4);
}

#[test]
fn same_label_under_other_parent_is_another_node() {
    let mut trie = VecTrie::new();
    let root = trie.insert_child(None, "main".to_string());
    let a = trie.insert_child(Some(root), "a".to_string());
    let b = trie.insert_child(Some(root), "b".to_string());
    let a_under_b = trie.insert_child(Some(b), "a".to_string());
    let a_under_a = trie.insert_child(Some(a), "a".to_string());
    assert_eq!(a_under_b, Index(3));
    assert_eq!(a_under_a, Index(4));
    assert_eq!(trie.insert_child(Some(b), "a".to_string()), a_under_b);
    assert_eq!(trie.insert_child(Some(a), "a".to_string()), a_under_a);
}

#[test]
fn children_come_in_insertion_order() {
    let mut trie = VecTrie::new();
    let root = trie.insert_child(None, "main".to_string());
    trie.insert_child(Some(root), "zeta".to_string());
    let alpha = trie.insert_child(Some(root), "alpha".to_string());
    trie.insert_child(Some(alpha), "deep".to_string());
    trie.insert_child(Some(root), "mid".to_string());
    let visitor = trie.root().unwrap();
    let mut iter = visitor.children();
    let mut labels = Vec::new();
    let mut handles = Vec::new();
    while let Some(child) = iter.next() {
        labels.push(child.key().clone());
        handles.push(child.handle());
    }
    assert_eq!(labels, vec!["zeta".to_string(), "alpha".to_string(), "mid".to_string()]);
    assert_eq!(handles, vec![Index(1), Index(2), Index(4)]);
}

#[test]
fn value_mut_writes_through() {
    let mut trie = VecTrie::new();
    let root = trie.insert_child(None, "main".to_string());
    let a = trie.insert_child(Some(root), "a".to_string());
    trie.value_mut(a).duration += 1500;
    trie.value_mut(a).num_invocations += 2;
    let visitor = trie.root().unwrap();
    let child = visitor.children().next().unwrap();
    assert_eq!(*child.value(), Measurement { duration: 1500, num_invocations: 2 });
    assert_eq!(*visitor.value(), Measurement::default());
}

#[test]
fn clear_empties_the_trie() {
    let mut trie = VecTrie::new();
    let root = trie.insert_child(None, "main".to_string());
    trie.insert_child(Some(root), "a".to_string());
    trie.clear();
    assert!(trie.root().is_none());
    assert_eq!(trie.len(), 0);
    let again = trie.insert_child(None, "other".to_string());
    assert_eq!(again, Index(0));
    assert_eq!(trie.root().unwrap().key(), "other");
}

#[test]
fn root_names_resolve() {
    let mut trace = no_nonsense_flamegraphs::FlameGraph::new();
    let span = no_nonsense_flamegraphs::Span::new(&mut trace, "main");
    assert_eq!(span.index(), no_nonsense_flamegraphs::Index(0));
    let done: no_nonsense_flamegraphs::CompletedTrace = span.close(&mut trace).unwrap();
    assert_eq!(done.root, "main");
}
