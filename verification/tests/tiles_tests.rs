use scrabble_cfr::scrabble::bag::Bag;
use scrabble_cfr::scrabble::constraint::letter_set::LetterSet;
use scrabble_cfr::scrabble::rack::Rack;
use scrabble_cfr::scrabble::util::Letter;

#[test]
fn letter_set_holds_what_was_inserted() {
    let mut set = LetterSet::empty();
    assert!(set.is_empty());
    assert!(!set.is_any());
    for b in 0..=255u8 {
        assert!(!set.contains(b));
    }
    set.insert(b'Q');
    set.insert(200);
    set.insert(b'Q');
    assert!(set.contains(b'Q'));
    assert!(set.contains(200));
    assert!(!set.contains(b'R'));
    assert!(!set.contains(72));
    assert!(!set.is_empty());
    assert_eq!(set, LetterSet::from_many(&[200, b'Q']));
    assert_ne!(set, LetterSet::from_many(&[b'Q']));
    assert_eq!(LetterSet::default(), LetterSet::empty());
}

#[test]
fn letter_set_any_holds_every_byte() {
    let any = LetterSet::any();
    assert!(any.is_any());
    assert!(!any.is_empty());
    for b in 0..=255u8 {
        assert!(any.contains(b));
    }
    let mut filled = LetterSet::empty();
    for b in 0..=254u8 {
        filled.insert(b);
    }
    assert!(!filled.is_any());
    filled.insert(255);
    assert!(filled.is_any());
    assert_eq!(filled, any);
}

#[test]
fn rack_counts_its_tiles() {
    let mut letters = [0u8; 256];
    letters[b'A' as usize] = 2;
    letters[b'Z' as usize] = 1;
    let rack = Rack::new(letters, 1);
    assert_eq!(rack.n_total, 4);
    assert_eq!(
        rack.get_letters(),
        vec![Letter::Blank, Letter::Letter(b'A'), Letter::Letter(b'A'), Letter::Letter(b'Z')]
    );
    let empty = Rack::empty();
    assert_eq!(empty.n_total, 0);
    assert_eq!(empty.get_letters(), Vec::<Letter>::new());
    assert!(empty.remove(b'A').is_none());
    assert!(empty.remove_wildcard().is_none());
}

#[test]
fn rack_remove_and_add_change_the_total_by_one() {
    let mut rack = Rack::from_tiles(b"CAB-A");
    assert_eq!(rack.n_total, 5);
    assert_eq!(rack.n_blanks, 1);
    assert_eq!(rack.letters[b'A' as usize], 2);
    rack.remove_inplace(Letter::Letter(b'A'));
    assert_eq!(rack.n_total, 4);
    assert_eq!(rack.letters[b'A' as usize], 1);
    rack.remove_inplace(Letter::Blank);
    assert_eq!(rack.n_total, 3);
    assert_eq!(rack.n_blanks, 0);
    rack.add_inplace(Letter::Letter(b'Q'));
    rack.add_inplace(Letter::Blank);
    assert_eq!(rack.n_total, 5);
    assert_eq!(rack.letters[b'Q' as usize], 1);
    assert_eq!(rack.n_blanks, 1);

    let smaller = rack.remove(b'C').unwrap();
    assert_eq!(smaller.n_total, 4);
    assert_eq!(smaller.letters[b'C' as usize], 0);
    // the rack itself is untouched
    assert_eq!(rack.letters[b'C' as usize], 1);
    assert!(smaller.remove(b'C').is_none());
    let no_blank = rack.remove_wildcard().unwrap();
    assert_eq!(no_blank.n_blanks, 0);
    assert_eq!(no_blank.n_total, 4);
    assert!(no_blank.remove_wildcard().is_none());
}

#[test]
fn bag_values_are_those_of_the_game() {
    let bag = Bag::new_with_order(&vec![]);
    assert!(bag.is_empty());
    let values = [1, 3, 3, 2, 1, 4, 2, 4, 1, 8, 5, 1, 3, 1, 1, 3, 10, 1, 1, 1, 1, 4, 4, 8, 4, 10];
    for (i, v) in values.iter().enumerate() {
        assert_eq!(bag.score(Letter::Letter(b'A' + i as u8)), *v);
    }
    assert_eq!(bag.score(Letter::Blank), 0);
    assert_eq!(bag.score(Letter::Letter(b'a')), 0);
    assert_eq!(bag.score(Letter::Letter(b'?')), 0);
}

#[test]
fn a_full_bag_has_the_hundred_tiles_of_the_game() {
    let bag = Bag::default();
    assert!(bag.random);
    assert_eq!(bag.distribution.len(), 100);
    let amounts = [9, 2, 2, 4, 12, 2, 3, 2, 9, 1, 1, 4, 2, 6, 8, 2, 1, 6, 4, 6, 4, 2, 2, 1, 2, 1];
    for (i, n) in amounts.iter().enumerate() {
        let l = Letter::Letter(b'A' + i as u8);
        assert_eq!(bag.distribution.iter().filter(|t| **t == l).count(), *n);
    }
    assert_eq!(bag.distribution.iter().filter(|t| **t == Letter::Blank).count(), 2);
    // the tiles do not come in the order of the alphabet
    let mut sorted = bag.distribution.clone();
    sorted.sort();
    let mut in_order = sorted[2..].to_vec();
    in_order.push(Letter::Blank);
    in_order.push(Letter::Blank);
    assert_ne!(bag.distribution, in_order);
}

#[test]
fn an_ordered_bag_hands_out_its_tiles_from_the_front() {
    let order = vec![
        Letter::Letter(b'C'),
        Letter::Letter(b'A'),
        Letter::Blank,
        Letter::Letter(b'A'),
        Letter::Letter(b'T'),
    ];
    let mut bag = Bag::new_with_order(&order);
    assert!(!bag.random);
    assert!(!bag.is_empty());
    assert_eq!(bag.draw_tiles(2), vec![Letter::Letter(b'C'), Letter::Letter(b'A')]);
    assert_eq!(bag.distribution, vec![Letter::Blank, Letter::Letter(b'A'), Letter::Letter(b'T')]);
    assert_eq!(bag.draw_tiles(0), vec![]);
    // the bag runs out
    assert_eq!(
        bag.draw_tiles(7),
        vec![Letter::Blank, Letter::Letter(b'A'), Letter::Letter(b'T')]
    );
    assert!(bag.is_empty());
    assert_eq!(bag.draw_tiles(3), vec![]);
    let copy = bag.duplicate();
    assert!(copy.is_empty());
}

#[test]
fn a_random_bag_hands_out_tiles_that_it_held() {
    let mut bag = Bag::default();
    let before = bag.distribution.clone();
    let drawn = bag.draw_tiles(7);
    assert_eq!(drawn.len(), 7);
    assert_eq!(bag.distribution.len(), 93);
    let mut together = bag.distribution.clone();
    together.extend(drawn.iter().cloned());
    together.sort();
    let mut sorted = before;
    sorted.sort();
    assert_eq!(together, sorted);
    let rest = bag.draw_tiles(200);
    assert_eq!(rest.len(), 93);
    assert!(bag.is_empty());
}
