use ruzzle::trie::TrieNode;

#[test]
fn overlapping_words() {
    let mut root = TrieNode::new_root();
    root.add_word("hello");
    root.add_word("he");
    root.add_word("hell");

    assert!(root.contains_word("he"));
    assert!(root.contains_word("hell"));
    assert!(root.contains_word("hello"));

    assert!(!root.contains_word("helloo"));
    assert!(!root.contains_word("hel"));
    assert!(!root.contains_word("h"));
}

#[test]
fn handles_empty_string() {
    let mut root = TrieNode::new_root();
    assert!(!root.contains_word(""));

    root.add_word("");
    assert!(root.contains_word(""));
}

#[test]
fn trie_statistics() {
    let mut root = TrieNode::new_root();
    assert_eq!(root.node_count(), 1);
    assert_eq!(root.leaf_count(), 1);
    assert_eq!(root.max_depth(), 1);

    root.add_word("rust");
    root.add_word("rusty");
    root.add_word("trie");
    root.add_word("tree");
    assert_eq!(root.node_count(), 12);
    assert_eq!(root.leaf_count(), 3);
    assert_eq!(root.max_depth(), 6);
}

#[test]
fn adding_a_word_twice_changes_nothing() {
    let mut root = TrieNode::new_root();
    root.add_word("cat");
    root.add_word("cat");
    assert_eq!(root.node_count(), 4);
    assert_eq!(root.leaf_count(), 1);
    assert_eq!(root.max_depth(), 4);
    assert!(root.contains_word("cat"));
    assert!(!root.contains_word("ca"));
}

#[test]
fn find_in_children_looks_one_level_down() {
    let mut root = TrieNode::new_root();
    root.add_word("ab");
    root.add_word("c");
    let a = root.find_in_children('a').unwrap();
    assert!(!a.ends_word());
    assert!(a.contains_word("b"));
    assert!(a.find_in_children('b').unwrap().ends_word());
    assert!(root.find_in_children('c').unwrap().ends_word());
    assert!(root.find_in_children('b').is_none());
    assert!(a.find_in_children('c').is_none());
}

#[test]
fn empty_root_holds_nothing() {
    let root = TrieNode::new_root();
    assert!(root.find_in_children('a').is_none());
    assert!(!root.contains_word("a"));
    assert!(!root.ends_word());
}

#[test]
fn words_with_wide_characters() {
    let mut root = TrieNode::new_root();
    root.add_word("née");
    assert!(root.contains_word("née"));
    assert!(!root.contains_word("ne"));
    assert_eq!(root.node_count(), 4);
}
