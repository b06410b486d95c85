use slang::trie::HashTrie;

#[test]
fn insert_get() {
    let mut hash_trie = HashTrie::new();

    let keys_a_insert = vec!["A".to_string(), "A".to_string(), "A".to_string()];

    hash_trie.insert(&keys_a_insert, "A".to_string());

    assert_eq!(hash_trie.get(&keys_a_insert), Some(&"A".to_string()));
}

#[test]
fn insert_insert_get() {
    let mut hash_trie = HashTrie::new();

    let keys_a_insert = vec!["A".to_string(), "A".to_string(), "A".to_string()];

    hash_trie.insert(&keys_a_insert, "A".to_string());

    let keys_b_insert = vec!["B".to_string(), "B".to_string(), "B".to_string()];

    hash_trie.insert(&keys_b_insert, "B".to_string());

    assert_eq!(hash_trie.get(&keys_a_insert), Some(&"A".to_string()));

    assert_eq!(hash_trie.get(&keys_b_insert), Some(&"B".to_string()));
}

#[test]
fn rejects_extension_of_stored_path() {
    let mut trie: HashTrie<String, u64> = HashTrie::new();
    assert!(trie.insert(&vec!["A".to_string()], 1));
    assert!(!trie.insert(&vec!["A".to_string(), "B".to_string()], 2));
    assert_eq!(trie.get(&vec!["A".to_string()]), Some(&1));
    assert_eq!(trie.get(&vec!["A".to_string(), "B".to_string()]), None);
}

#[test]
fn rejects_prefix_of_stored_path() {
    let mut trie: HashTrie<String, u64> = HashTrie::new();
    assert!(trie.insert(&vec!["A".to_string(), "B".to_string()], 2));
    assert!(!trie.insert(&vec!["A".to_string()], 1));
    assert_eq!(trie.get(&vec!["A".to_string(), "B".to_string()]), Some(&2));
    assert_eq!(trie.get(&vec!["A".to_string()]), None);
}

#[test]
fn rejects_duplicate_path() {
    let mut trie: HashTrie<String, u64> = HashTrie::new();
    assert!(trie.insert(&vec!["A".to_string()], 1));
    assert!(!trie.insert(&vec!["A".to_string()], 9));
    assert_eq!(trie.get(&vec!["A".to_string()]), Some(&1));
}

#[test]
fn empty_path_on_empty_trie() {
    let mut trie: HashTrie<String, u64> = HashTrie::new();
    assert!(trie.insert(&Vec::new(), 7));
    assert_eq!(trie.get(&Vec::new()), Some(&7));
    assert!(!trie.insert(&vec!["A".to_string()], 1));
}

#[test]
fn sibling_paths_coexist() {
    let mut trie: HashTrie<String, u64> = HashTrie::new();
    assert!(trie.insert(&vec!["A".to_string(), "B".to_string()], 1));
    assert!(trie.insert(&vec!["A".to_string(), "C".to_string()], 2));
    assert_eq!(trie.get(&vec!["A".to_string(), "B".to_string()]), Some(&1));
    assert_eq!(trie.get(&vec!["A".to_string(), "C".to_string()]), Some(&2));
    assert_eq!(trie.get(&vec!["A".to_string()]), None);
}

#[test]
fn views_descend_to_values() {
    let mut trie: HashTrie<String, u64> = HashTrie::new();
    assert!(trie.insert(&vec!["A".to_string(), "B".to_string()], 5));
    let root = trie.as_view();
    assert!(root.value().is_none());
    let at_a = root.descend(&"A".to_string()).unwrap();
    assert!(at_a.value().is_none());
    let at_b = at_a.descend(&"B".to_string()).unwrap();
    assert_eq!(at_b.value(), Some(&5));
    assert!(at_b.descend(&"C".to_string()).is_none());
}

#[test]
fn get_view_walks_paths() {
    let mut trie: HashTrie<String, u64> = HashTrie::new();
    assert!(trie.insert(&vec!["A".to_string(), "B".to_string()], 5));
    let view = trie
        .get_view(&vec!["A".to_string(), "B".to_string()])
        .unwrap();
    assert_eq!(view.value(), Some(&5));
    assert!(trie.get_view(&Vec::new()).is_none());
    assert!(trie
        .get_view(&vec!["A".to_string(), "B".to_string(), "C".to_string()])
        .is_none());
}

#[test]
fn mutable_view_builds_paths() {
    let mut trie: HashTrie<String, u64> = HashTrie::new();
    let root = trie.as_view_mut();
    let at_a = root.descend_or_add(&mut trie, "A".to_string()).unwrap();
    let at_b = at_a.descend_or_add(&mut trie, "B".to_string()).unwrap();
    assert!(at_b.set_value(&mut trie, 3));
    assert_eq!(trie.get(&vec!["A".to_string(), "B".to_string()]), Some(&3));
}

#[test]
fn mutable_view_overwrites_leaf() {
    let mut trie: HashTrie<String, u64> = HashTrie::new();
    let first = trie
        .as_view_mut()
        .descend_or_add(&mut trie, "A".to_string())
        .unwrap();
    assert!(first.set_value(&mut trie, 1));
    let second = trie
        .as_view_mut()
        .descend_or_add(&mut trie, "A".to_string())
        .unwrap();
    assert!(second.set_value(&mut trie, 2));
    assert_eq!(trie.get(&vec!["A".to_string()]), Some(&2));
}

#[test]
fn mutable_view_refuses_crossing_a_leaf() {
    let mut trie: HashTrie<String, u64> = HashTrie::new();
    let at_a = trie
        .as_view_mut()
        .descend_or_add(&mut trie, "A".to_string())
        .unwrap();
    assert!(at_a.set_value(&mut trie, 1));
    let again = trie
        .as_view_mut()
        .descend_or_add(&mut trie, "A".to_string())
        .unwrap();
    assert!(again.descend_or_add(&mut trie, "B".to_string()).is_none());
}

#[test]
fn set_value_refuses_branch_position() {
    let mut trie: HashTrie<String, u64> = HashTrie::new();
    assert!(trie.insert(&vec!["A".to_string(), "B".to_string()], 1));
    let at_a = trie
        .as_view_mut()
        .descend_or_add(&mut trie, "A".to_string())
        .unwrap();
    assert!(!at_a.set_value(&mut trie, 9));
    assert_eq!(trie.get(&vec!["A".to_string(), "B".to_string()]), Some(&1));
}
