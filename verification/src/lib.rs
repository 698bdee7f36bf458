//! Move generation and game rules for a crossword tile game on a 15x15
//! board, together with a small n x n tic-tac-toe, both offered through the
//! same state interface so that a self-play trainer can drive either one.

pub mod cfr;
pub mod scrabble;
pub mod tictactoe;
