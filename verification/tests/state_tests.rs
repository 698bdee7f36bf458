use std::rc::Rc;

use scrabble_cfr::cfr::state::{Game, GameState};
use scrabble_cfr::scrabble::bag::Bag;
use scrabble_cfr::scrabble::state::{ScrabbleGame, ScrabbleState, NUM_ACTIONS};
use scrabble_cfr::scrabble::util::{push_decimal, Direction, Letter, Position};

fn lexicon(words: &[&str]) -> Rc<fst::Set<Vec<u8>>> {
    let mut sorted: Vec<&str> = words.to_vec();
    sorted.sort_unstable();
    Rc::new(fst::Set::from_iter(sorted).unwrap())
}

fn tiles(s: &str) -> Vec<Letter> {
    s.bytes().map(Letter::from).collect()
}

fn rack_string(state: &ScrabbleState, player: usize) -> String {
    state
        .rack(player)
        .get_letters()
        .iter()
        .map(|l| match l {
            Letter::Blank => '?',
            Letter::Letter(b) => *b as char,
        })
        .collect()
}

#[test]
fn decimal_digits_are_appended() {
    let mut key = b"k".to_vec();
    push_decimal(&mut key, 0);
    push_decimal(&mut key, 7);
    push_decimal(&mut key, 10);
    push_decimal(&mut key, 1234567890);
    assert_eq!(key, b"k07101234567890".to_vec());
}

#[test]
fn a_game_deals_seven_tiles_to_each_player() {
    let game = ScrabbleGame::new(3, lexicon(&["CAGE"]));
    assert_eq!(game.num_players(), 3);
    assert_eq!(game.num_actions(), 15 * 15 * 7 + 1);
    assert_eq!(NUM_ACTIONS, 1576);
    let state = game.start();
    assert_eq!(state.player_count(), 3);
    assert_eq!(state.active_player(), 0);
    assert_eq!(state.bag().distribution.len(), 100 - 21);
    for p in 0..3 {
        assert_eq!(state.rack(p).n_total, 7);
        assert_eq!(state.get_reward(p), 0);
        assert!(state.player_is_active(p));
    }
    assert!(!state.is_terminal());
    assert!(state.board().placements().is_empty());
    let valid = state.valid_actions();
    assert_eq!(*valid.last().unwrap(), 0);
    for a in valid {
        assert!(state.allows_action(a));
    }
}

#[test]
fn the_key_of_the_first_state_spells_the_empty_board() {
    let game = ScrabbleGame::new(2, lexicon(&["CAGE"]));
    let state = game.start_with_bag(Bag::new_with_order(&tiles("CAGEXXXBEATXXX"))).unwrap();
    let key = state.state_key();
    let rows = [
        "TW  DL   TW   DL  TW",
        " DW   TL   TL   DW ",
        "  DW   DL DL   DW  ",
        "DL  DW   DL   DW  DL",
        "    DW     DW    ",
        " TL   TL   TL   TL ",
        "  DL   DL DL   DL  ",
        "TW  DL   C   DL  TW",
    ];
    let mut expected = String::from("0");
    for r in rows.iter() {
        expected.push_str(r);
    }
    for r in rows.iter().rev().skip(1) {
        expected.push_str(r);
    }
    assert_eq!(String::from_utf8(key).unwrap(), expected);
    assert_eq!(rack_string(&state, 0), "ACEGXXX");
    assert_eq!(rack_string(&state, 1), "ABETXXX");
    assert!(state.bag().is_empty());
}

#[test]
fn a_turn_lays_the_best_move_and_refills_the_rack() {
    let game = ScrabbleGame::new(2, lexicon(&["CAGE", "BEAT", "TAXI"]));
    let bag = Bag::new_with_order(&tiles("CAGEXXXBEATXXXI?QQQ"));
    let state = game.start_with_bag(bag).unwrap();
    assert_eq!(state.move_grid().moves().len(), 8);
    let best = state.move_grid().get_move(0).clone();
    assert_eq!(best.word, b"CAGE".to_vec());
    assert_eq!((best.pos, best.dir, best.score), (Position { row: 4, col: 7 }, Direction::Down, 14));

    let next = state.next_state(0).unwrap();
    // the state that was left is as it was
    assert_eq!(state.get_reward(0), 0);
    assert!(state.board().placements().is_empty());
    assert_eq!(next.get_reward(0), 14);
    assert_eq!(next.get_reward(1), 0);
    assert_eq!(next.active_player(), 1);
    assert!(next.player_is_active(1));
    assert_eq!(next.board().placements().len(), 1);
    assert_eq!(next.board().placements()[0].word, b"CAGE".to_vec());
    assert!(next.board().is_letter(Position { row: 7, col: 7 }));
    // four tiles left the rack, four came from the front of the bag
    assert_eq!(rack_string(&next, 0), "?IQQXXX");
    assert_eq!(rack_string(&next, 1), "ABETXXX");
    assert_eq!(next.bag().distribution, tiles("Q"));
    assert_ne!(state.state_key(), next.state_key());
    assert_eq!(next.state_key()[0], b'1');
    assert!(next.state_key().contains(&b'G'));
    // the second player can cross the word
    let words: Vec<Vec<u8>> = next.move_grid().moves().iter().map(|m| m.word.clone()).collect();
    assert!(words.contains(&b"BEAT".to_vec()));
    assert!(!words.contains(&b"CAGE".to_vec()));
    for a in next.valid_actions() {
        let after = next.next_state(a).unwrap();
        assert!(after.get_reward(1) > 0);
        assert_eq!(after.get_reward(0), 14);
        // three tiles left the rack, and the last tile of the bag came in
        assert_eq!(after.rack(1).n_total, 5);
        assert!(after.bag().is_empty());
    }
}

#[test]
fn an_action_of_a_bucket_lays_the_move_of_that_bucket() {
    let game = ScrabbleGame::new(2, lexicon(&["CAGE", "CAGES"]));
    let bag = Bag::new_with_order(&tiles("CAGESXXCAGESXX"));
    let state = game.start_with_bag(bag).unwrap();
    let action = 1 + (7 * 15 + 5) * 7 + 3;
    assert!(state.valid_actions().contains(&action));
    assert!(state.allows_action(action));
    assert!(!state.allows_action(1 + (7 * 15 + 8) * 7 + 3));
    let next = state.next_state(action).unwrap();
    let laid = &next.board().placements()[0];
    assert_eq!(laid.word, b"CAGES".to_vec());
    assert_eq!(laid.pos.row * 15 + laid.pos.col, 7 * 15 + 5);
    assert_eq!(next.get_reward(0), 2 * 8);
    assert_eq!(next.rack(0).n_total, 2);
    assert_eq!(next.active_player(), 1);
}

#[test]
fn players_without_a_move_are_passed_over_until_nobody_is_left() {
    let game = ScrabbleGame::new(3, lexicon(&["ZZ"]));
    let bag = Bag::new_with_order(&tiles("AAAAAAABBBBBBBCCCCCCC"));
    let state = game.start_with_bag(bag).unwrap();
    assert!(state.move_grid().is_empty());
    assert_eq!(state.valid_actions(), vec![0]);
    assert!(!state.is_terminal());
    let next = state.next_state(0).unwrap();
    // everybody was asked once and nobody can move
    assert!(next.is_terminal());
    for p in 0..3 {
        assert!(!next.player_is_active(p));
        assert_eq!(next.get_reward(p), 0);
        assert_eq!(next.rack(p).n_total, 7);
    }
    assert_eq!(next.active_player(), 0);
    assert!(next.move_grid().is_empty());
}

#[test]
fn the_turn_goes_to_the_next_player_who_can_move() {
    let game = ScrabbleGame::new(3, lexicon(&["AA", "CC"]));
    let bag = Bag::new_with_order(&tiles("AAAAAAABBBBBBBCCCCCCCDDDD"));
    let state = game.start_with_bag(bag).unwrap();
    let next = state.next_state(0).unwrap();
    assert_eq!(next.get_reward(0), 4);
    // the second player holds nothing that fits and is passed over
    assert_eq!(next.active_player(), 2);
    assert!(!next.player_is_active(1));
    assert!(next.player_is_active(2));
    assert!(next.player_is_active(0));
    assert!(!next.is_terminal());
    assert_eq!(rack_string(&next, 0), "AAAAADD");
    assert_eq!(next.bag().distribution, tiles("DD"));
}

#[test]
fn a_bag_that_is_too_large_starts_no_game() {
    let game = ScrabbleGame::new(1, lexicon(&["AA"]));
    let huge = Bag::new_with_order(&vec![Letter::Letter(b'A'); 100_001]);
    assert!(game.start_with_bag(huge).is_none());
    let mut game = game;
    game.reset();
    let state = game.start_with_bag(Bag::new_with_order(&tiles("A?"))).unwrap();
    assert_eq!(state.player_count(), 1);
    assert_eq!(rack_string(&state, 0), "?A");
    // a single player moves again and again
    let next = state.next_state(0).unwrap();
    assert_eq!(next.active_player(), 0);
    assert_eq!(next.get_reward(0), 2);
    assert!(next.state_key().contains(&b'-'));
}
