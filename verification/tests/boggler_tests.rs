use boggle::boggler::{
    bogglify_word, is_boggle_word, load_dictionary, neighbors, word_score, BoardError, Boggler,
};
use boggle::trie::Trie;

#[test]
fn test_is_boggle_word() {
    assert!(!is_boggle_word(""));
    assert!(!is_boggle_word("f"));
    assert!(!is_boggle_word("fo"));
    assert!(is_boggle_word("foo"));
    assert!(is_boggle_word("quick"));
    assert!(!is_boggle_word("qick"));
    assert!(!is_boggle_word("extremelylongwordmaybgerman"));
    assert!(!is_boggle_word("suq"));
    assert!(is_boggle_word("suqu"));
}

#[test]
fn test_bogglify_word() {
    assert_eq!(bogglify_word("food"), "food");
    assert_eq!(bogglify_word("quickly"), "qickly");
    assert_eq!(bogglify_word("suqu"), "suq");
}

#[test]
fn test_parse_and_display() {
    let mut b = Boggler::new();
    b.parse_board("abcdefghijklmnop").unwrap();
    assert_eq!("abcdefghijklmnop", b.serialize());

    assert!(b.parse_board("abcdefghijklmno").is_err());
    assert!(b.parse_board("abcdefghijklmnopq").is_err());
}

#[test]
fn test_set_cell() {
    let mut b = Boggler::new();
    b.parse_board("abcdefghijklmnop").unwrap();
    assert_eq!("abcdefghijklmnop", b.serialize());
    b.set_cell(1, 0, 0);
    b.set_cell(2, 0, 0);
    assert_eq!("aaadefghijklmnop", b.serialize());
}

#[test]
fn test_parse_board_errors() {
    let mut b = Boggler::new();
    assert_eq!(
        b.parse_board("abc"),
        Err(BoardError::InvalidBoardLength)
    );
    assert_eq!(
        b.parse_board("ABCDEFGHIJKLMNOP"),
        Err(BoardError::InvalidLetter)
    );
    assert_eq!(b.parse_board("abcdefghijklmnop"), Ok(()));
}

#[test]
fn test_parse_serialize_round_trip_with_q() {
    let mut b = Boggler::new();
    b.parse_board("qaqbqcqdqeqfqgqh").unwrap();
    assert_eq!("qaqbqcqdqeqfqgqh", b.serialize());
}

#[test]
fn test_neighbor_counts() {
    assert_eq!(neighbors(0, 0).len(), 3);
    assert_eq!(neighbors(0, 1).len(), 5);
    assert_eq!(neighbors(1, 1).len(), 8);
    assert_eq!(neighbors(3, 3).len(), 3);
    assert_eq!(neighbors(3, 1).len(), 5);
    assert_eq!(neighbors(2, 2).len(), 8);
}

#[test]
fn test_word_score_table() {
    assert_eq!(word_score(0), 0);
    assert_eq!(word_score(2), 0);
    assert_eq!(word_score(3), 1);
    assert_eq!(word_score(4), 1);
    assert_eq!(word_score(5), 2);
    assert_eq!(word_score(6), 3);
    assert_eq!(word_score(7), 5);
    assert_eq!(word_score(8), 11);
    assert_eq!(word_score(17), 11);
    assert_eq!(word_score(30), 11);
}

#[test]
fn test_score_empty_dictionary() {
    let mut b = Boggler::new();
    b.parse_board("abcdefghijklmnop").unwrap();
    let mut dict = Trie::new();
    assert_eq!(b.score(&mut dict), 0);
}

#[test]
fn test_score_single_three_letter_word() {
    let mut b = Boggler::new();
    b.parse_board("abcdefghijklmnop").unwrap();
    let mut dict = Trie::new();
    dict.add_word("abc");
    assert_eq!(b.score(&mut dict), 1);
}

#[test]
fn test_score_single_eight_letter_word() {
    // The word snakes along the first two rows: a b c d, then back h g f e.
    let mut b = Boggler::new();
    b.parse_board("abcdefghijklmnop").unwrap();
    let mut dict = Trie::new();
    dict.add_word("abcdhgfe");
    assert_eq!(b.score(&mut dict), 11);
}

#[test]
fn test_score_dog_paths() {
    let lines = vec![String::from("dog")];
    let mut dict = load_dictionary(&lines);
    let mut b = Boggler::new();

    b.parse_board("dogxxxxxxxxxxxxx").unwrap();
    assert_eq!(b.score(&mut dict), 1);

    b.parse_board("dxxoxxxxxxxxgxxx").unwrap();
    assert_eq!(b.score(&mut dict), 0);
}

#[test]
fn test_score_deduplicates_multiple_paths() {
    // Many distinct cell paths spell "aaa"; one score call counts it once,
    // and a later call counts it once again.
    let mut b = Boggler::new();
    b.parse_board("aaaaxxxxxxxxxxxx").unwrap();
    let mut dict = Trie::new();
    dict.add_word("aaa");
    assert_eq!(b.score(&mut dict), 1);
    assert_eq!(b.score(&mut dict), 1);
}

#[test]
fn test_score_qu_tile_counts_two_letters() {
    // "quick" is stored as the four tiles q i c k, but scores as a
    // five-letter word because the q tile stands for "qu".
    let lines = vec![String::from("quick")];
    let mut dict = load_dictionary(&lines);
    let mut b = Boggler::new();
    b.parse_board("qickxxxxxxxxxxxx").unwrap();
    assert_eq!(b.score(&mut dict), 2);
}

#[test]
fn test_load_dictionary_filters() {
    let lines = vec![
        String::from("dog"),
        String::from(""),
        String::from("x"),
        String::from("qick"),
        String::from("extremelylongwordmaybgerman"),
        String::from("quick"),
    ];
    let t = load_dictionary(&lines);
    assert!(t.is_word("dog"));
    assert!(t.is_word("qick"));
    assert!(!t.is_word("x"));
    assert_eq!(t.size(), 2);
}

#[test]
fn test_bogglify_identity_without_qu() {
    assert_eq!(bogglify_word("boggle"), "boggle");
    assert_eq!(bogglify_word("agriculture"), "agriculture");
}

#[test]
fn test_width_and_height() {
    let b = Boggler::new();
    assert_eq!(b.width(), 4);
    assert_eq!(b.height(), 4);
    assert_eq!(b.get_cell(2, 3), 0);
}

#[test]
fn test_is_boggle_word_length_edges() {
    // 17 characters is the longest playable word; 18 is too long.
    assert!(is_boggle_word("abcdefghijklmnopr"));
    assert!(!is_boggle_word("abcdefghijklmnoprs"));
}
