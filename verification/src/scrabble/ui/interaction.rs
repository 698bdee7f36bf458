//! The word that a user is typing onto the board.

use vstd::prelude::*;
use crate::scrabble::util::{Direction, Position};

verus! {

/// A word being typed: where it starts, the direction it runs in, the
/// cell of the cursor and the letters typed so far.
pub struct ClickData {
    pub start_pos: Position,
    pub direction: Direction,
    pub curr_pos: Position,
    pub word: Vec<char>,
    pub _is_typing: bool,
}

impl ClickData {
    /// Nothing is being typed; the cursor is in the top left corner.
    pub fn new() -> (r: ClickData)
        ensures
            r.start_pos == (Position { row: 0, col: 0 }),
            r.curr_pos == (Position { row: 0, col: 0 }),
            r.direction == Direction::Across,
            r.word@ == Seq::<char>::empty(),
            !r._is_typing,
    {
        ClickData {
            start_pos: Position { row: 0, col: 0 },
            direction: Direction::Across,
            curr_pos: Position { row: 0, col: 0 },
            word: Vec::new(),
            _is_typing: false,
        }
    }

    /// A word is being typed.
    pub fn is_typing(&self) -> (r: bool)
        ensures
            r == self._is_typing,
    {
        self._is_typing
    }

    /// Starts a new word at `at`, running across.
    pub fn start(&mut self, at: Position)
        ensures
            final(self).start_pos == at,
            final(self).curr_pos == at,
            final(self).direction == Direction::Across,
            final(self).word@ == Seq::<char>::empty(),
            final(self)._is_typing,
    {
        self.start_pos = at;
        self.direction = Direction::Across;
        self.curr_pos = at;
        self.word = Vec::new();
        self._is_typing = true;
    }

    /// The name of the direction: `Across` or `Down`.
    pub fn dir_str(&self) -> (r: String)
        ensures
            r@ == (match self.direction {
                Direction::Across => "Across"@,
                Direction::Down => "Down"@,
            }),
    {
        match self.direction {
            Direction::Across => "Across".to_owned(),
            Direction::Down => "Down".to_owned(),
        }
    }

    /// The cursor is at `at`.
    pub fn is_at(&self, at: Position) -> (r: bool)
        ensures
            r == (at == self.curr_pos),
    {
        at == self.curr_pos
    }

    /// Turns the word into the other direction.
    pub fn flip(&mut self)
        ensures
            final(self).direction == old(self).direction.flip_spec(),
            final(self).start_pos == old(self).start_pos,
            final(self).curr_pos == old(self).curr_pos,
            final(self).word == old(self).word,
            final(self)._is_typing == old(self)._is_typing,
    {
        self.direction = self.direction.flip()
    }

    /// Moves the cursor one cell on in the direction of the word. Returns
    /// false, and leaves the cursor where it is, at the edge of the
    /// board.
    pub fn tick(&mut self) -> (r: bool)
        ensures
            r == (old(self).curr_pos.next_spec(old(self).direction) is Some),
            final(self).curr_pos == (match old(self).curr_pos.next_spec(old(self).direction) {
                Some(next) => next,
                None => old(self).curr_pos,
            }),
            final(self).direction == old(self).direction,
            final(self).start_pos == old(self).start_pos,
            final(self).word == old(self).word,
            final(self)._is_typing == old(self)._is_typing,
    {
        if let Some(next) = self.curr_pos.next(self.direction) {
            self.curr_pos = next;
            return true;
        }
        false
    }

    /// Appends a letter to the word.
    pub fn push(&mut self, c: char)
        ensures
            final(self).word@ == old(self).word@.push(c),
            final(self).direction == old(self).direction,
            final(self).start_pos == old(self).start_pos,
            final(self).curr_pos == old(self).curr_pos,
            final(self)._is_typing == old(self)._is_typing,
    {
        self.word.push(c);
    }
}

} // verus!
