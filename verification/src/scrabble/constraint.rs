//! What a placement along one axis must respect in each cell.

use vstd::prelude::*;
use self::letter_set::LetterSet;
use super::util::{Direction, Letter, Position};

pub mod letter_set;
pub mod grid;
pub mod searcher;

verus! {

/// What one cell asks of a word laid over it.
#[derive(Debug, Clone, Copy, PartialEq, Eq)]
pub enum Constraint {
    /// The cell holds this letter; a blank stands for any letter.
    Filled(Letter),
    /// The cell is free and takes the letters of the set.
    Empty(LetterSet),
}

/// A constraint as plain values.
pub enum ConstraintView {
    Filled(Letter),
    Empty(Set<u8>),
}

impl View for Constraint {
    type V = ConstraintView;

    open spec fn view(&self) -> ConstraintView {
        match *self {
            Constraint::Filled(l) => ConstraintView::Filled(l),
            Constraint::Empty(set) => ConstraintView::Empty(set@),
        }
    }
}

impl ConstraintView {
    /// The cell is free and takes every letter.
    pub open spec fn unrestricted(self) -> bool {
        self == ConstraintView::Empty(Set::<u8>::full())
    }
}

/// The views of a run of constraints.
pub open spec fn constraints_view(line: Seq<Constraint>) -> Seq<ConstraintView> {
    Seq::new(line.len(), |i: int| line[i]@)
}

/// A stretch of one line of the board on which words are searched: the
/// constraints from `pos` to the end of the line, the direction the line
/// runs in, and the least length of a word that may be laid there.
#[derive(Debug)]
pub struct ConstraintQuery<'a> {
    pub constraints: &'a [Constraint],
    pub dir: Direction,
    pub pos: Position,
    pub min_length: usize,
}

} // verus!
