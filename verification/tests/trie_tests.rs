use boggle::trie::{idx, idx_to_char, reverse_lookup, Trie};

#[test]
fn test_shallow_trie() {
    let mut t = Trie::new();
    t.add_word("a");
    t.add_word("b");

    assert!(t.starts_word(idx('a')));
    assert!(t.starts_word(idx('b')));
    assert!(!t.starts_word(idx('c')));
    assert_eq!(t.num_nodes(), 3);
    assert_eq!(t.size(), 2);
}

#[test]
fn test_add_words() {
    let mut t = Trie::new();
    t.add_word("agriculture");
    t.add_word("culture");
    t.add_word("boggle");
    t.add_word("tea");
    t.add_word("sea");
    t.add_word("teapot");

    assert_eq!(t.size(), 6);

    assert!(t.is_word("agriculture"));
    assert!(t.is_word("culture"));
    assert!(t.is_word("boggle"));
    assert!(t.is_word("tea"));
    assert!(t.is_word("teapot"));
    assert!(!t.is_word("teap"));
    assert!(!t.is_word("random"));
    assert!(!t.is_word("cultur"));
}

#[test]
fn test_marks() {
    let mut t = Trie::new();
    t.add_word("agriculture");
    t.add_word("culture");
    t.add_word("boggle");
    t.add_word("tea");
    t.add_word("sea");
    t.add_word("teapot");

    let mut wd = t.descend_mut(idx('t')).unwrap();
    wd = wd.descend_mut(idx('e')).unwrap();
    wd = wd.descend_mut(idx('a')).unwrap();
    assert_eq!(0, wd.mark);
    wd.mark = 12345;

    assert_eq!(t.find_word("tea").unwrap().mark, 12345);
}

#[test]
fn test_reverse_lookup() {
    let mut t = Trie::new();
    t.add_word("agriculture");
    t.add_word("culture");
    t.add_word("boggle");
    t.add_word("tea");
    t.add_word("sea");
    t.add_word("teapot");

    let mut wd = t.descend(idx('t')).unwrap();
    wd = wd.descend(idx('e')).unwrap();
    wd = wd.descend(idx('a')).unwrap();

    assert_eq!(reverse_lookup(&t, wd), Some(String::from("tea")));
}

#[test]
fn test_idx_round_trip() {
    assert_eq!(idx('a'), 0);
    assert_eq!(idx('q'), 16);
    assert_eq!(idx('z'), 25);
    assert_eq!(idx_to_char(0), 'a');
    assert_eq!(idx_to_char(16), 'q');
    assert_eq!(idx_to_char(25), 'z');
    for i in 0..26 {
        assert_eq!(idx(idx_to_char(i)), i);
    }
}

#[test]
fn test_descend_absent() {
    let mut t = Trie::new();
    t.add_word("tea");
    assert!(t.descend(idx('t')).is_some());
    assert!(t.descend(idx('x')).is_none());
    assert!(t.descend_mut(idx('x')).is_none());
    assert!(t.find_word("teak").is_none());
    assert!(t.find_word_chars(&vec!['t', 'e']).is_some());
}

#[test]
fn test_add_word_chars_and_idempotence() {
    let mut t = Trie::new();
    t.add_word_chars(&vec!['t', 'e', 'a']);
    assert!(t.is_word("tea"));
    assert_eq!(t.size(), 1);
    assert_eq!(t.num_nodes(), 4);

    t.add_word("tea");
    assert_eq!(t.size(), 1);
    assert_eq!(t.num_nodes(), 4);
}

#[test]
fn test_destroy_leaves_tree_usable() {
    let mut t = Trie::new();
    t.add_word("tea");
    t.destroy();
    assert!(t.is_word("tea"));
}

#[test]
fn test_from_file_lines() {
    let lines = vec![
        String::from("tea"),
        String::from(""),
        String::from("sea"),
    ];
    let t = Trie::from_file(&lines);
    assert!(t.is_word("tea"));
    assert!(t.is_word("sea"));
    assert!(!t.is_word("teas"));
    assert_eq!(t.size(), 2);
}

#[test]
fn test_reverse_lookup_missing_node() {
    let mut t = Trie::new();
    t.add_word("tea");
    let mut other = Trie::new();
    other.add_word("cup");
    let target = other.descend(idx('c')).unwrap();
    assert_eq!(reverse_lookup(&t, target), None);
}
