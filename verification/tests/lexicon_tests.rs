use scrabble_cfr::scrabble::bag::Bag;
use scrabble_cfr::scrabble::board::ScrabbleBoard;
use scrabble_cfr::scrabble::gaddag::{build_entries_sorted, demangle_item, Gaddag, PrefixMatcher};
use scrabble_cfr::scrabble::lexicon::{
    build_vocabulary, lexicon_from_sorted, LexiconError, LineMatcher,
};
use scrabble_cfr::scrabble::rack::Rack;

fn bytes(words: &[&str]) -> Vec<Vec<u8>> {
    words.iter().map(|w| w.as_bytes().to_vec()).collect()
}

fn keys(set: &fst::Set<Vec<u8>>) -> Vec<String> {
    set.stream().into_strs().unwrap()
}

#[test]
fn a_vocabulary_is_built_from_words_in_order() {
    let set = lexicon_from_sorted(&bytes(&["AB", "AB", "ABC", "B", "BA"])).unwrap();
    assert_eq!(keys(&set), vec!["AB", "ABC", "B", "BA"]);
    assert!(set.contains("ABC"));
    assert!(!set.contains("A"));
    let empty = lexicon_from_sorted(&vec![]).unwrap();
    assert!(empty.is_empty());
    let with_empty_word = lexicon_from_sorted(&bytes(&["", "A"])).unwrap();
    assert_eq!(with_empty_word.len(), 2);
}

#[test]
fn words_out_of_order_build_no_vocabulary() {
    assert_eq!(lexicon_from_sorted(&bytes(&["B", "A"])).err(), Some(LexiconError::OutOfOrder));
    assert_eq!(lexicon_from_sorted(&bytes(&["AB", "A"])).err(), Some(LexiconError::OutOfOrder));
    assert_eq!(
        lexicon_from_sorted(&bytes(&["A", "C", "B", "D"])).err(),
        Some(LexiconError::OutOfOrder)
    );
    assert!(lexicon_from_sorted(&bytes(&["A", "a"])).is_ok());
    assert!(lexicon_from_sorted(&bytes(&["a", "A"])).is_err());
}

#[test]
fn a_word_list_gives_its_words_in_upper_case() {
    let set = build_vocabulary(&bytes(&["dog", "cat", "a", "", "Cat", "be", "zoo!"]));
    assert_eq!(keys(&set), vec!["BE", "CAT", "DOG", "ZOO!"]);
    assert!(build_vocabulary(&vec![]).is_empty());
    // the vocabulary serves the move generator
    let board = ScrabbleBoard::empty();
    let bag = Bag::new_with_order(&vec![]);
    let moves = board.calculate_moves(&Rack::from_tiles(b"TAC"), &set, &bag);
    assert_eq!(moves.len(), 6);
    assert!(moves.iter().all(|m| m.word == b"CAT".to_vec() && m.score == 10));
}

#[test]
fn entries_hold_each_word_reversed_and_split() {
    let entries = build_entries_sorted(&bytes(&["CARES"]));
    let text: Vec<String> = entries.iter().map(|e| String::from_utf8(e.clone()).unwrap()).collect();
    assert_eq!(text, vec!["AC,RES", "C,ARES", "ERAC,S", "RAC,ES", "SERAC"]);
    let two = build_entries_sorted(&bytes(&["AB", "A", "AB", "BA"]));
    let text: Vec<String> = two.iter().map(|e| String::from_utf8(e.clone()).unwrap()).collect();
    assert_eq!(text, vec!["A", "A,B", "AB", "B,A", "BA"]);
    assert!(build_entries_sorted(&vec![]).is_empty());
}

#[test]
fn an_entry_is_turned_back_into_its_word() {
    assert_eq!(demangle_item(&b"GINT,BOA".to_vec()), b"TNIGBOA".to_vec());
    assert_eq!(demangle_item(&b"TAOB,ING".to_vec()), b"BOATING".to_vec());
    assert_eq!(demangle_item(&b"SERAC".to_vec()), b"CARES".to_vec());
    assert_eq!(demangle_item(&b",X".to_vec()), b"X".to_vec());
    assert_eq!(demangle_item(&b"AB,".to_vec()), b"BA".to_vec());
    assert_eq!(demangle_item(&b"A,B,C".to_vec()), b"AB,C".to_vec());
    assert_eq!(demangle_item(&vec![]), Vec::<u8>::new());
}

#[test]
fn words_are_found_by_their_beginning_and_by_their_end() {
    let gaddag = Gaddag::build(&bytes(&["BOAT", "BOATING", "COATING", "BOA", "TING"]));
    let found = |v: Vec<Vec<u8>>| -> Vec<String> {
        let mut words: Vec<String> = v.into_iter().map(|w| String::from_utf8(w).unwrap()).collect();
        words.sort();
        words
    };
    assert_eq!(found(gaddag.find_prefixes(&b"BOA".to_vec())), vec!["BOAT", "BOATING"]);
    assert_eq!(found(gaddag.find_prefixes(&b"BOATING".to_vec())), Vec::<String>::new());
    assert_eq!(found(gaddag.find_prefixes(&b"X".to_vec())), Vec::<String>::new());
    assert_eq!(found(gaddag.find_suffixes(&b"ING".to_vec())), vec!["BOATING", "COATING", "TING"]);
    assert_eq!(found(gaddag.find_suffixes(&b"TING".to_vec())), vec!["BOATING", "COATING", "TING"]);
    assert_eq!(found(gaddag.find_suffixes(&b"BOAT".to_vec())), vec!["BOAT"]);
    assert_eq!(
        found(gaddag.find_suffixes(&vec![])),
        vec!["BOA", "BOAT", "BOATING", "COATING", "TING"]
    );
    // every entry that starts with T, whatever it stands for
    let all = gaddag.search_fst(PrefixMatcher { prefix: b"T", allow_sep: true });
    assert_eq!(found(all), vec!["BOAT", "BOATING", "COATING", "TING"]);
}

#[test]
fn prefix_matcher_counts_the_bytes_that_agree() {
    let m = PrefixMatcher { prefix: b"AB", allow_sep: false };
    let s = m.start();
    assert_eq!(s, Some(0));
    assert!(!m.is_match(&s));
    let s = m.accept(&s, b'A');
    assert_eq!(s, Some(1));
    let s = m.accept(&s, b'B');
    assert_eq!(s, Some(2));
    assert!(m.is_match(&s));
    assert_eq!(m.accept(&s, b'Z'), Some(2));
    assert_eq!(m.accept(&s, b','), None);
    assert_eq!(m.accept(&Some(1), b'X'), None);
    assert!(!m.can_match(&None));
    let open = PrefixMatcher { prefix: b"AB", allow_sep: true };
    assert_eq!(open.accept(&Some(2), b','), Some(2));
}
