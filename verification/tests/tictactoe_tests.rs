use scrabble_cfr::cfr::state::{Game, GameState};
use scrabble_cfr::tictactoe::{TicTacToe, TicTacToeState};

#[test]
fn test_not_terminal() {
    let board = vec![vec![1, 1, 0], vec![2, 0, 0], vec![2, 0, 0]];
    let state = TicTacToeState {
        curr_player: 0,
        board: board,
    };

    assert!(!state.is_terminal());
}

#[test]
fn test_terminal() {
    let board = vec![vec![1, 1, 1], vec![2, 0, 0], vec![2, 0, 0]];
    let state = TicTacToeState {
        curr_player: 1,
        board: board,
    };

    assert!(state.is_terminal());
    assert!(!state.is_full());
}

#[test]
fn test_is_full() {
    let board = vec![vec![2, 2, 1], vec![1, 1, 2], vec![2, 1, 1]];
    let state = TicTacToeState {
        curr_player: 1,
        board: board,
    };

    assert!(state.is_full());
}

#[test]
fn test_reward() {
    let board = vec![vec![1, 1, 1], vec![2, 0, 0], vec![2, 0, 0]];
    let state = TicTacToeState {
        curr_player: 0,
        board: board.clone(),
    };
    assert_eq!(state.get_reward(0) as f32, 1.0);
    assert_eq!(state.get_reward(1) as f32, -1.0);
}

#[test]
fn test_tie_reward() {
    let board = vec![vec![2, 2, 1], vec![1, 1, 2], vec![2, 1, 1]];
    let state = TicTacToeState {
        curr_player: 0,
        board: board.clone(),
    };
    assert_eq!(state.get_reward(0) as f32, 0.0);
    assert_eq!(state.get_reward(1) as f32, 0.0);
}

#[test]
fn test_transition_midgame() {
    let board = vec![vec![1, 1, 0], vec![2, 0, 0], vec![2, 0, 0]];
    let state = TicTacToeState {
        curr_player: 0,
        board: board.clone(),
    };
    let valid_actions = state.valid_actions();
    let next_state = state.next_state(valid_actions[0]).unwrap();
    let next_valid_actions = next_state.valid_actions();

    assert_eq!(next_state.active_player(), 1);
    assert_ne!(valid_actions.len(), next_valid_actions.len());
    assert_ne!(state.state_key(), next_state.state_key());
}

#[test]
fn winner_is_found_in_rows_columns_and_both_diagonals() {
    let state = |board: Vec<Vec<usize>>| TicTacToeState { board, curr_player: 0 };
    assert_eq!(state(vec![vec![0, 0, 0], vec![0, 0, 0], vec![0, 0, 0]]).get_winner(), None);
    assert_eq!(state(vec![vec![1, 2, 0], vec![2, 2, 2], vec![1, 1, 0]]).get_winner(), Some(1));
    assert_eq!(state(vec![vec![1, 2, 0], vec![1, 2, 2], vec![1, 0, 0]]).get_winner(), Some(0));
    assert_eq!(state(vec![vec![2, 1, 0], vec![1, 2, 1], vec![1, 0, 2]]).get_winner(), Some(1));
    assert_eq!(state(vec![vec![2, 2, 1], vec![2, 1, 0], vec![1, 0, 0]]).get_winner(), Some(0));
    assert_eq!(state(vec![vec![1, 2, 1], vec![2, 1, 2], vec![2, 1, 2]]).get_winner(), None);
    // a row is found before a column
    assert_eq!(state(vec![vec![2, 1, 1], vec![2, 0, 0], vec![2, 2, 2]]).get_winner(), Some(1));
}

#[test]
fn all_same_walks_until_the_edge() {
    let s = TicTacToeState { board: vec![vec![1, 1, 2], vec![0, 1, 2], vec![0, 0, 1]], curr_player: 1 };
    assert!(s.all_same((0, 0), (1, 1)));
    assert!(!s.all_same((0, 0), (0, 1)));
    assert!(s.all_same((0, 2), (1, 0)) == false);
    assert!(s.all_same((1, 2), (-1, 0)));
    assert!(s.all_same((2, 2), (0, 1)));
}

#[test]
fn a_game_starts_empty_and_players_alternate() {
    let game = TicTacToe::new(3);
    assert_eq!(game.num_players(), 2);
    assert_eq!(game.num_actions(), 9);
    let start = game.start();
    assert_eq!(start.board, vec![vec![0, 0, 0], vec![0, 0, 0], vec![0, 0, 0]]);
    assert_eq!(start.valid_actions(), vec![0, 1, 2, 3, 4, 5, 6, 7, 8]);
    assert_eq!(start.state_key(), b"0---------".to_vec());
    let second = start.next_state(4).unwrap();
    assert_eq!(second.active_player(), 1);
    assert_eq!(second.board[1][1], 1);
    assert_eq!(second.valid_actions(), vec![0, 1, 2, 3, 5, 6, 7, 8]);
    assert_eq!(second.state_key(), b"1----X----".to_vec());
    let third = second.next_state(0).unwrap();
    assert_eq!(third.active_player(), 0);
    assert_eq!(third.state_key(), b"0O---X----".to_vec());
    assert_eq!(third.get_reward(0), 0);
    assert!(!third.is_terminal());
    assert!(third.is_valid());
    assert!(third.allows_action(8));
    assert!(!third.allows_action(4));
    assert!(!third.allows_action(9));
    let bent = TicTacToeState { board: vec![vec![0, 0], vec![0]], curr_player: 0 };
    assert!(!bent.is_valid());
    assert!(!TicTacToeState { board: vec![], curr_player: 0 }.is_valid());
    assert!(!TicTacToeState { board: vec![vec![0]], curr_player: 2 }.is_valid());
    assert!(game.is_valid());
    assert!(!TicTacToe::new(0).is_valid());
}

#[test]
fn a_larger_board_has_more_actions() {
    let game = TicTacToe::new(4);
    assert_eq!(game.num_actions(), 16);
    let s = game.start().next_state(15).unwrap();
    assert_eq!(s.board[3][3], 1);
    assert_eq!(s.valid_actions().len(), 15);
}
