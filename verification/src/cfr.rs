//! What a trainer needs of a game.

pub mod state;
