//! The crossword tile game: board, tiles, racks and move generation.

use vstd::prelude::*;

pub mod bag;
pub mod board;
pub mod constraint;
pub mod dictionary;
pub mod gaddag;
pub mod lexicon;
pub mod movegen;
pub mod rack;
pub mod scoring;
pub mod state;
pub mod ui;
pub mod util;
pub mod word_search;

verus! {

/// Side length of the square board.
pub const BOARD_SIZE: usize = 15;

} // verus!
