use std::collections::HashMap;

use scrabble_cfr::scrabble::dictionary::{sort_bytes, ScrabbleDictionary, TrieNode};

#[test]
fn test_dictionary_lookup() {
    let vocab = vec![
        b"cat".to_vec(),
        b"dog".to_vec(),
        b"mouse".to_vec(),
        b"moose".to_vec(),
        b"laptop".to_vec(),
    ];
    let dict = ScrabbleDictionary::new(vocab);

    let valid = dict.find_valid_words(b"mo_se");
    println!("{:?}", valid);
    assert_eq!(valid.len(), 2);
    assert_eq!(valid, vec![b"mouse".to_vec(), b"moose".to_vec()]);
}

#[test]
fn test_trie() {
    let vocab: Vec<Vec<u8>> = vec![
        b"cat".to_vec(),
        b"dog".to_vec(),
        b"mouse".to_vec(),
        b"moose".to_vec(),
        b"laptop".to_vec(),
    ];

    let mut root = TrieNode {
        letter: b' ',
        next: HashMap::new(),
        terminal: false,
    };

    for w in vocab.iter() {
        root.add_word(w);
    }

    assert_eq!(root.next.len(), 4);
    let m = root.next_node(b'm').unwrap();
    assert_eq!(m.letter, b'm');
    assert!(!m.terminal);
    let o = m.next_node(b'o').unwrap();
    assert_eq!(o.next.len(), 2);
    let e = o.next_node(b'u').unwrap().next_node(b's').unwrap().next_node(b'e').unwrap();
    assert!(e.terminal);
    assert!(e.next.is_empty());
    assert!(root.next_node(b'x').is_none());
    assert!(root.next_node(b'c').unwrap().next_node(b'a').unwrap().next_node(b't').unwrap().terminal);
}

#[test]
fn a_node_that_is_there_keeps_its_mark() {
    let mut root = TrieNode { letter: b' ', next: HashMap::new(), terminal: false };
    root.add_word(b"");
    assert!(root.next.is_empty());
    root.add_word(b"cats");
    root.add_word(b"cat");
    let t = root.next_node(b'c').unwrap().next_node(b'a').unwrap().next_node(b't').unwrap();
    // the node was made on the way to the longer word
    assert!(!t.terminal);
    assert!(t.next_node(b's').unwrap().terminal);
    root.add_word_internal(b"cut", 1);
    assert_eq!(root.next.len(), 2);
    assert!(root.next_node(b'u').unwrap().next_node(b't').unwrap().terminal);
}

#[test]
fn bytes_are_sorted_by_counting() {
    assert_eq!(sort_bytes(&b"mouse".to_vec()), b"emosu".to_vec());
    assert_eq!(sort_bytes(&b"banana".to_vec()), b"aaabnn".to_vec());
    assert_eq!(sort_bytes(&vec![255, 0, 7, 0]), vec![0, 0, 7, 255]);
    assert_eq!(sort_bytes(&vec![]), Vec::<u8>::new());
}

#[test]
fn the_longest_common_subsequence_counts_shared_letters() {
    let dict = ScrabbleDictionary::new(vec![]);
    assert_eq!(dict.longest_common_subsequence(b"emos", b"emosu"), 4);
    assert_eq!(dict.longest_common_subsequence(b"emos", b"emoos"), 4);
    assert_eq!(dict.longest_common_subsequence(b"act", b"dgo"), 0);
    assert_eq!(dict.longest_common_subsequence(b"", b"abc"), 0);
    assert_eq!(dict.longest_common_subsequence(b"abc", b""), 0);
    assert_eq!(dict.longest_common_subsequence(b"abcbdab", b"bdcaba"), 4);
    assert!(dict.find_valid_words(b"abc").is_empty());
}

#[test]
fn words_are_found_with_and_without_blanks() {
    let dict = ScrabbleDictionary::new(vec![
        b"cat".to_vec(),
        b"act".to_vec(),
        b"cart".to_vec(),
        b"dog".to_vec(),
        b"a".to_vec(),
    ]);
    assert_eq!(dict.find_valid_words(b"tca"), vec![b"cat".to_vec(), b"act".to_vec(), b"a".to_vec()]);
    assert_eq!(
        dict.find_valid_words(b"tca_"),
        vec![b"cat".to_vec(), b"act".to_vec(), b"cart".to_vec(), b"a".to_vec()]
    );
    assert_eq!(dict.find_valid_words(b""), Vec::<Vec<u8>>::new());
    assert_eq!(dict.find_valid_words(b"_"), vec![b"a".to_vec()]);
    assert_eq!(dict.find_valid_words(b"___").len(), 4);
    assert_eq!(dict.find_valid_words(b"____").len(), 5);
    assert_eq!(dict.find_valid_words(b"dg_"), vec![b"dog".to_vec(), b"a".to_vec()]);
}
