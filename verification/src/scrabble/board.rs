//! The 15x15 board: its premium squares, the letters laid on it, and how
//! a word is placed.

use vstd::prelude::*;
use super::util::{option_seq, Direction, Letter, Position, SquareEffect};
use super::BOARD_SIZE;

verus! {

/// Number of cells of the board.
pub const BOARD_CELLS: usize = 225;

/// What a cell of the board holds.
#[derive(Debug, Clone, Copy, PartialEq, Eq, Hash, Structural)]
pub enum Tile {
    /// A plain square without a letter.
    Empty,
    /// A premium square not yet covered.
    Special(SquareEffect),
    /// A letter that has been laid.
    Letter(Letter),
}

/// A word that was laid on the board.
#[derive(Debug, Clone, PartialEq, Eq)]
pub struct Placement {
    pub word: Vec<u8>,
    pub pos: Position,
    pub dir: Direction,
}

/// The upper-case form of an ASCII letter byte; every other byte is left
/// as it is.
pub open spec fn upper(c: u8) -> u8 {
    if 97 <= c <= 122 {
        (c - 32) as u8
    } else {
        c
    }
}

/// The byte is a lower-case ASCII letter.
pub open spec fn is_lower(c: u8) -> bool {
    97 <= c <= 122
}

/// The upper-case form of an ASCII letter.
pub fn to_upper(c: u8) -> (r: u8)
    ensures
        r == upper(c),
{
    if 97 <= c && c <= 122 {
        c - 32
    } else {
        c
    }
}

/// The byte is a lower-case ASCII letter.
pub fn is_lower_case(c: u8) -> (r: bool)
    ensures
        r == is_lower(c),
{
    97 <= c && c <= 122
}

/// The rack tile that a byte of a word costs: a blank for a lower-case
/// byte, else the letter itself.
pub open spec fn rack_tile(c: u8) -> Letter {
    if is_lower(c) {
        Letter::Blank
    } else {
        Letter::Letter(upper(c))
    }
}

/// The standard layout has a triple-word square at row `r`, column `c`.
pub open spec fn is_triple_word(r: int, c: int) -> bool {
    (r == 0 || r == 7 || r == 14) && (c == 0 || c == 7 || c == 14) && !(r == 7 && c == 7)
}

/// The standard layout has a double-word square there, the centre left
/// aside.
pub open spec fn is_double_word(r: int, c: int) -> bool {
    (r == c || r + c == 14) && (1 <= r <= 4 || 10 <= r <= 13)
}

/// The standard layout has a triple-letter square there.
pub open spec fn is_triple_letter(r: int, c: int) -> bool {
    (r == 1 || r == 5 || r == 9 || r == 13) && (c == 1 || c == 5 || c == 9 || c == 13) && !((r == 1
        || r == 13) && (c == 1 || c == 13))
}

/// The standard layout has a double-letter square there.
pub open spec fn is_double_letter(r: int, c: int) -> bool {
    ||| (r == 0 || r == 14) && (c == 3 || c == 11)
    ||| (r == 2 || r == 12) && (c == 6 || c == 8)
    ||| (r == 3 || r == 11) && (c == 0 || c == 7 || c == 14)
    ||| (r == 6 || r == 8) && (c == 2 || c == 6 || c == 8 || c == 12)
    ||| r == 7 && (c == 3 || c == 11)
}

/// The square at row `r`, column `c` of a board without letters.
pub open spec fn standard_tile(r: int, c: int) -> Tile {
    if r == 7 && c == 7 {
        Tile::Special(SquareEffect::Center)
    } else if is_triple_word(r, c) {
        Tile::Special(SquareEffect::TripleWord)
    } else if is_double_word(r, c) {
        Tile::Special(SquareEffect::DoubleWord)
    } else if is_triple_letter(r, c) {
        Tile::Special(SquareEffect::TripleLetter)
    } else if is_double_letter(r, c) {
        Tile::Special(SquareEffect::DoubleLetter)
    } else {
        Tile::Empty
    }
}

/// The square at a cell of a board without letters.
pub fn premium_layout(row: usize, col: usize) -> (t: Tile)
    requires
        row < BOARD_SIZE,
        col < BOARD_SIZE,
    ensures
        t == standard_tile(row as int, col as int),
{
    let edge_r = row == 0 || row == 7 || row == 14;
    let edge_c = col == 0 || col == 7 || col == 14;
    let quarter_r = row == 1 || row == 5 || row == 9 || row == 13;
    let quarter_c = col == 1 || col == 5 || col == 9 || col == 13;
    if row == 7 && col == 7 {
        Tile::Special(SquareEffect::Center)
    } else if edge_r && edge_c {
        Tile::Special(SquareEffect::TripleWord)
    } else if (row == col || row + col == 14) && ((1 <= row && row <= 4) || (10 <= row && row
        <= 13)) {
        Tile::Special(SquareEffect::DoubleWord)
    } else if quarter_r && quarter_c {
        Tile::Special(SquareEffect::TripleLetter)
    } else if ((row == 0 || row == 14) && (col == 3 || col == 11)) || ((row == 2 || row == 12) && (
    col == 6 || col == 8)) || ((row == 3 || row == 11) && (col == 0 || col == 7 || col == 14)) || ((
    row == 6 || row == 8) && (col == 2 || col == 6 || col == 8 || col == 12)) || (row == 7 && (col
        == 3 || col == 11)) {
        Tile::Special(SquareEffect::DoubleLetter)
    } else {
        Tile::Empty
    }
}

/// Row-major index of a position.
pub open spec fn cell_index(p: Position) -> int {
    p.row * 15 + p.col
}

/// The position at a row-major index.
pub open spec fn cell_position(idx: int) -> Position {
    Position { row: (idx / 15) as usize, col: (idx % 15) as usize }
}

/// The `i`-th cell of a line that starts at `pos` and runs in `dir`.
pub open spec fn line_cell(pos: Position, dir: Direction, i: int) -> Position {
    pos.with_coord(dir, (pos.coord(dir) + i) as usize)
}

/// The place that the cell with index `idx` has on the line that starts at
/// `pos` and runs in `dir`: negative before the start, and -1 for a cell
/// that is not on the line at all.
pub open spec fn line_offset(pos: Position, dir: Direction, idx: int) -> int {
    match dir {
        Direction::Across => if idx / 15 == pos.row && idx % 15 >= pos.col {
            idx % 15 - pos.col
        } else {
            -1
        },
        Direction::Down => if idx % 15 == pos.col && idx / 15 >= pos.row {
            idx / 15 - pos.row
        } else {
            -1
        },
    }
}

/// The grid of a board as plain values: for each cell, by row-major index,
/// what it holds, and whether the letter on it is a blank tile.
pub struct BoardView {
    pub tiles: Seq<Tile>,
    pub blanks: Seq<bool>,
}

impl BoardView {
    /// The grid has 225 cells, every cell without a letter is the square
    /// of the standard layout, and only letters are marked as blanks.
    pub open spec fn wf(self) -> bool {
        &&& self.tiles.len() == BOARD_CELLS
        &&& self.blanks.len() == BOARD_CELLS
        &&& forall|i: int|
            0 <= i < BOARD_CELLS ==> ((#[trigger] self.tiles[i]) is Letter || self.tiles[i]
                == standard_tile(i / 15, i % 15))
        &&& forall|i: int| 0 <= i < BOARD_CELLS ==> (#[trigger] self.blanks[i] ==> self.tiles[i] is Letter)
    }

    /// What the cell at `p` holds.
    pub open spec fn tile(self, p: Position) -> Tile {
        self.tiles[cell_index(p)]
    }

    /// The cell at `p` holds a letter.
    pub open spec fn is_letter(self, p: Position) -> bool {
        self.tile(p) is Letter
    }

    /// The letter at `p` is a blank tile.
    pub open spec fn is_blank(self, p: Position) -> bool {
        self.blanks[cell_index(p)]
    }

    /// Some neighbour of `p` holds a letter.
    pub open spec fn touches_letter(self, p: Position) -> bool {
        exists|i: int|
            0 <= i < p.adjacent_spec().len() && self.is_letter(#[trigger] p.adjacent_spec()[i])
    }

    /// A word can start here next to what is on the board: the cell is
    /// free and a neighbour holds a letter.
    pub open spec fn is_anchor(self, p: Position) -> bool {
        !self.is_letter(p) && self.touches_letter(p)
    }

    /// The word stays on the board and agrees with every letter that it
    /// crosses.
    pub open spec fn playable(self, word: Seq<u8>, pos: Position, dir: Direction) -> bool {
        &&& pos.valid()
        &&& pos.coord(dir) + word.len() <= BOARD_SIZE
        &&& forall|i: int|
            0 <= i < word.len() ==> (#[trigger] self.tile(line_cell(pos, dir, i)) matches Tile::Letter(
                Letter::Letter(l),
            ) ==> l == upper(word[i]))
    }

    /// The grid after the word has been laid: each free cell under the
    /// word gets its letter in upper case, and is marked as a blank where
    /// the word's byte is lower case. Cells that hold a letter stay.
    pub open spec fn place(self, word: Seq<u8>, pos: Position, dir: Direction) -> BoardView {
        BoardView {
            tiles: Seq::new(
                self.tiles.len(),
                |idx: int|
                    {
                        let i = line_offset(pos, dir, idx);
                        if 0 <= i < word.len() && !(self.tiles[idx] is Letter) {
                            Tile::Letter(Letter::Letter(upper(word[i])))
                        } else {
                            self.tiles[idx]
                        }
                    },
            ),
            blanks: Seq::new(
                self.blanks.len(),
                |idx: int|
                    {
                        let i = line_offset(pos, dir, idx);
                        self.blanks[idx] || (0 <= i < word.len() && !(self.tiles[idx] is Letter)
                            && is_lower(word[i]))
                    },
            ),
        }
    }

    /// The rack tiles that laying the first `upto` bytes of the word
    /// costs, in the order of the word: one for each cell that holds no
    /// letter yet.
    pub open spec fn used_tiles(
        self,
        word: Seq<u8>,
        pos: Position,
        dir: Direction,
        upto: int,
    ) -> Seq<Letter>
        decreases upto,
    {
        if upto <= 0 {
            Seq::empty()
        } else {
            let before = self.used_tiles(word, pos, dir, upto - 1);
            if self.is_letter(line_cell(pos, dir, upto - 1)) {
                before
            } else {
                before.push(rack_tile(word[upto - 1]))
            }
        }
    }

    /// How many tiles of one kind laying the first `upto` bytes of the
    /// word costs.
    pub open spec fn tiles_needed(
        self,
        word: Seq<u8>,
        pos: Position,
        dir: Direction,
        tile: Letter,
        upto: int,
    ) -> int
        decreases upto,
    {
        if upto <= 0 {
            0
        } else {
            self.tiles_needed(word, pos, dir, tile, upto - 1) + if !self.is_letter(
                line_cell(pos, dir, upto - 1),
            ) && rack_tile(word[upto - 1]) == tile {
                1int
            } else {
                0int
            }
        }
    }

    /// The number of cells under the first `upto` bytes of the word that
    /// hold a letter already.
    pub open spec fn pre_existing(
        self,
        word: Seq<u8>,
        pos: Position,
        dir: Direction,
        upto: int,
    ) -> int
        decreases upto,
    {
        if upto <= 0 {
            0
        } else {
            self.pre_existing(word, pos, dir, upto - 1) + if self.is_letter(
                line_cell(pos, dir, upto - 1),
            ) {
                1int
            } else {
                0int
            }
        }
    }
}

/// The cells of a line that starts on the board and is short enough lie on
/// the board, each at its own index.
pub proof fn lemma_line_cells(pos: Position, dir: Direction, len: int, i: int)
    requires
        pos.valid(),
        pos.coord(dir) + len <= BOARD_SIZE,
        0 <= i < len,
    ensures
        line_cell(pos, dir, i).valid(),
        0 <= cell_index(line_cell(pos, dir, i)) < BOARD_CELLS,
        line_offset(pos, dir, cell_index(line_cell(pos, dir, i))) == i,
        pos.step_n_spec(i as nat, dir) == Some(line_cell(pos, dir, i)),
{
}

/// A cell whose place on a line is `i` is the line's `i`-th cell.
pub proof fn lemma_line_offset(pos: Position, dir: Direction, idx: int)
    requires
        pos.valid(),
        0 <= idx < BOARD_CELLS,
        line_offset(pos, dir, idx) >= 0,
    ensures
        cell_index(line_cell(pos, dir, line_offset(pos, dir, idx))) == idx,
{
}

/// A letter directly before or after a cell, in either direction, is one
/// of the letters that the cell touches.
pub proof fn lemma_neighbour_touches(b: BoardView, p: Position, d: Direction)
    ensures
        (p.next_spec(d) matches Some(q) && b.is_letter(q)) ==> b.touches_letter(p),
        (p.prev_spec(d) matches Some(q) && b.is_letter(q)) ==> b.touches_letter(p),
{
    let s0 = option_seq(p.next_spec(Direction::Across));
    let s1 = option_seq(p.prev_spec(Direction::Across));
    let s2 = option_seq(p.next_spec(Direction::Down));
    let s3 = option_seq(p.prev_spec(Direction::Down));
    let all = p.adjacent_spec();
    assert(all == s0 + s1 + s2 + s3);
    if p.next_spec(d) matches Some(q) && b.is_letter(q) {
        let i = match d {
            Direction::Across => 0,
            Direction::Down => s0.len() + s1.len(),
        };
        assert(Some(all[i as int]) == p.next_spec(d));
        assert(b.is_letter(p.adjacent_spec()[i as int]));
    }
    if p.prev_spec(d) matches Some(q) && b.is_letter(q) {
        let i = match d {
            Direction::Across => s0.len(),
            Direction::Down => s0.len() + s1.len() + s2.len(),
        };
        assert(Some(all[i as int]) == p.prev_spec(d));
        assert(b.is_letter(p.adjacent_spec()[i as int]));
    }
}

/// Every tile laid costs one rack tile or was there before: the two
/// counts add up to the length of the word.
pub proof fn lemma_used_plus_pre_existing(
    b: BoardView,
    word: Seq<u8>,
    pos: Position,
    dir: Direction,
    upto: int,
)
    requires
        0 <= upto,
    ensures
        b.used_tiles(word, pos, dir, upto).len() + b.pre_existing(word, pos, dir, upto) == upto,
        0 <= b.pre_existing(word, pos, dir, upto) <= upto,
    decreases upto,
{
    if upto > 0 {
        lemma_used_plus_pre_existing(b, word, pos, dir, upto - 1);
    }
}

/// Laying a word keeps a well-formed grid well-formed.
pub proof fn lemma_place_wf(b: BoardView, word: Seq<u8>, pos: Position, dir: Direction)
    requires
        b.wf(),
    ensures
        b.place(word, pos, dir).wf(),
{
}

/// Laying the same word a second time costs no tile and changes nothing
/// on the grid: after the first placement every cell under the word holds
/// its letter.
pub proof fn lemma_place_word_twice(b: BoardView, word: Seq<u8>, pos: Position, dir: Direction)
    requires
        b.wf(),
        b.playable(word, pos, dir),
    ensures
        b.place(word, pos, dir).playable(word, pos, dir),
        b.place(word, pos, dir).place(word, pos, dir) == b.place(word, pos, dir),
        b.place(word, pos, dir).used_tiles(word, pos, dir, word.len() as int) == Seq::<
            Letter,
        >::empty(),
        b.place(word, pos, dir).pre_existing(word, pos, dir, word.len() as int) == word.len(),
{
    let b1 = b.place(word, pos, dir);
    assert(b1.place(word, pos, dir).tiles =~= b1.tiles);
    assert(b1.place(word, pos, dir).blanks =~= b1.blanks);
    lemma_all_cells_letters(b, word, pos, dir, word.len() as int);
    assert forall|i: int| 0 <= i < word.len() implies (#[trigger] b1.tile(
        line_cell(pos, dir, i),
    ) matches Tile::Letter(Letter::Letter(l)) ==> l == upper(word[i])) by {
        lemma_line_cells(pos, dir, word.len() as int, i);
        assert(b.tile(line_cell(pos, dir, i)) is Letter ==> b1.tile(line_cell(pos, dir, i))
            == b.tile(line_cell(pos, dir, i)));
    }
}

proof fn lemma_all_cells_letters(
    b: BoardView,
    word: Seq<u8>,
    pos: Position,
    dir: Direction,
    upto: int,
)
    requires
        b.wf(),
        pos.valid(),
        pos.coord(dir) + word.len() <= BOARD_SIZE,
        0 <= upto <= word.len(),
    ensures
        b.place(word, pos, dir).used_tiles(word, pos, dir, upto) == Seq::<Letter>::empty(),
        b.place(word, pos, dir).pre_existing(word, pos, dir, upto) == upto,
    decreases upto,
{
    if upto > 0 {
        lemma_all_cells_letters(b, word, pos, dir, upto - 1);
        lemma_line_cells(pos, dir, word.len() as int, upto - 1);
    }
}

/// The tile may lie at row `r`, column `c` of a board: it is a letter, or
/// the square of the standard layout there.
pub open spec fn fits_layout(t: Tile, r: int, c: int) -> bool {
    t is Letter || t == standard_tile(r, c)
}

/// The cells are 15 rows of 15, each with a tile that may lie there.
pub open spec fn is_board_layout(cells: Seq<Vec<Tile>>) -> bool {
    &&& cells.len() == BOARD_SIZE
    &&& forall|r: int| 0 <= r < BOARD_SIZE ==> (#[trigger] cells[r])@.len() == BOARD_SIZE
    &&& forall|r: int, c: int|
        0 <= r < BOARD_SIZE && 0 <= c < BOARD_SIZE ==> fits_layout(#[trigger] cells[r]@[c], r, c)
}

/// The tile that a label of a board file stands for: nothing for a plain
/// square, `?` for a blank tile, `TL`, `TW`, `DL`, `DW` and `CN` for the
/// premium squares, and else the first byte as a letter.
pub open spec fn tile_of_label(label: Seq<u8>) -> Tile {
    if label.len() == 0 {
        Tile::Empty
    } else if label =~= seq![63u8] {
        Tile::Letter(Letter::Blank)
    } else if label =~= seq![84u8, 76u8] {
        Tile::Special(SquareEffect::TripleLetter)
    } else if label =~= seq![84u8, 87u8] {
        Tile::Special(SquareEffect::TripleWord)
    } else if label =~= seq![68u8, 76u8] {
        Tile::Special(SquareEffect::DoubleLetter)
    } else if label =~= seq![68u8, 87u8] {
        Tile::Special(SquareEffect::DoubleWord)
    } else if label =~= seq![67u8, 78u8] {
        Tile::Special(SquareEffect::Center)
    } else {
        Tile::Letter(Letter::Letter(label[0]))
    }
}

/// Reads the label of a cell in a board file.
pub fn tile_from_label(label: &[u8]) -> (t: Tile)
    ensures
        t == tile_of_label(label@),
{
    let n = label.len();
    if n == 0 {
        Tile::Empty
    } else if n == 1 && label[0] == 63 {
        Tile::Letter(Letter::Blank)
    } else if n == 2 && label[0] == 84 && label[1] == 76 {
        Tile::Special(SquareEffect::TripleLetter)
    } else if n == 2 && label[0] == 84 && label[1] == 87 {
        Tile::Special(SquareEffect::TripleWord)
    } else if n == 2 && label[0] == 68 && label[1] == 76 {
        Tile::Special(SquareEffect::DoubleLetter)
    } else if n == 2 && label[0] == 68 && label[1] == 87 {
        Tile::Special(SquareEffect::DoubleWord)
    } else if n == 2 && label[0] == 67 && label[1] == 78 {
        Tile::Special(SquareEffect::Center)
    } else {
        Tile::Letter(Letter::Letter(label[0]))
    }
}

/// One entry of the log of placements, as plain values: the word, where
/// it starts and the direction it runs in.
pub type PlacementView = (Seq<u8>, Position, Direction);

/// The board of a game: the grid, which letters on it are blank tiles,
/// and the words laid so far.
pub struct ScrabbleBoard {
    /// What each cell holds, by row-major index.
    state: Vec<Tile>,
    /// Whether the letter on a cell is a blank tile.
    blanks: Vec<bool>,
    /// The words laid on the board, oldest first.
    placements: Vec<Placement>,
}

impl View for ScrabbleBoard {
    type V = BoardView;

    closed spec fn view(&self) -> BoardView {
        BoardView { tiles: self.state@, blanks: self.blanks@ }
    }
}

impl ScrabbleBoard {
    /// Every board is well-formed.
    #[verifier::type_invariant]
    pub open spec fn inv(self) -> bool {
        self@.wf()
    }

    /// The words laid so far, oldest first.
    pub closed spec fn log(&self) -> Seq<PlacementView> {
        Seq::new(
            self.placements@.len(),
            |i: int| (self.placements@[i].word@, self.placements@[i].pos, self.placements@[i].dir),
        )
    }

    /// The board before the first move: the premium squares of the
    /// standard layout, no letter, nothing in the log.
    pub fn empty() -> (board: Self)
        ensures
            board@.wf(),
            forall|i: int|
                0 <= i < BOARD_CELLS ==> #[trigger] board@.tiles[i] == standard_tile(i / 15, i % 15)
                    && !board@.blanks[i],
            board.log() == Seq::<PlacementView>::empty(),
    {
        let mut state: Vec<Tile> = Vec::new();
        let mut blanks: Vec<bool> = Vec::new();
        let mut row: usize = 0;
        while row < BOARD_SIZE
            invariant
                row <= BOARD_SIZE,
                state@.len() == row * 15,
                blanks@.len() == row * 15,
                forall|i: int|
                    0 <= i < row * 15 ==> #[trigger] state@[i] == standard_tile(i / 15, i % 15)
                        && !blanks@[i],
            decreases BOARD_SIZE - row,
        {
            let mut col: usize = 0;
            while col < BOARD_SIZE
                invariant
                    row < BOARD_SIZE,
                    col <= BOARD_SIZE,
                    state@.len() == row * 15 + col,
                    blanks@.len() == row * 15 + col,
                    forall|i: int|
                        0 <= i < row * 15 + col ==> #[trigger] state@[i] == standard_tile(
                            i / 15,
                            i % 15,
                        ) && !blanks@[i],
                decreases BOARD_SIZE - col,
            {
                state.push(premium_layout(row, col));
                blanks.push(false);
                col += 1;
            }
            row += 1;
        }
        let board = ScrabbleBoard { state, blanks, placements: Vec::new() };
        assert(board.log() =~= Seq::<PlacementView>::empty());
        board
    }

    /// The board with the given cells, row by row, and nothing in the
    /// log. The cells must be 15 rows of 15, and every cell without a
    /// letter must be the square of the standard layout at its place.
    pub fn from_tiles(cells: &Vec<Vec<Tile>>) -> (board: Option<Self>)
        ensures
            board is Some <==> is_board_layout(cells@),
            board matches Some(b) ==> b.log() == Seq::<PlacementView>::empty() && forall|i: int|
                0 <= i < BOARD_CELLS ==> #[trigger] b@.tiles[i] == cells@[i / 15]@[i % 15]
                    && !b@.blanks[i],
    {
        if cells.len() != BOARD_SIZE {
            return None;
        }
        let mut state: Vec<Tile> = Vec::new();
        let mut blanks: Vec<bool> = Vec::new();
        let mut row: usize = 0;
        while row < BOARD_SIZE
            invariant
                row <= BOARD_SIZE,
                cells@.len() == BOARD_SIZE,
                state@.len() == row * 15,
                blanks@.len() == row * 15,
                forall|r: int| 0 <= r < row ==> (#[trigger] cells@[r])@.len() == BOARD_SIZE,
                forall|i: int|
                    0 <= i < row * 15 ==> #[trigger] state@[i] == cells@[i / 15]@[i % 15]
                        && !blanks@[i] && fits_layout(state@[i], i / 15, i % 15),
            decreases BOARD_SIZE - row,
        {
            if cells[row].len() != BOARD_SIZE {
                return None;
            }
            let mut col: usize = 0;
            while col < BOARD_SIZE
                invariant
                    row < BOARD_SIZE,
                    col <= BOARD_SIZE,
                    cells@.len() == BOARD_SIZE,
                    cells@[row as int]@.len() == BOARD_SIZE,
                    state@.len() == row * 15 + col,
                    blanks@.len() == row * 15 + col,
                    forall|r: int| 0 <= r < row ==> (#[trigger] cells@[r])@.len() == BOARD_SIZE,
                    forall|i: int|
                        0 <= i < row * 15 + col ==> #[trigger] state@[i] == cells@[i / 15]@[i % 15]
                            && !blanks@[i] && fits_layout(state@[i], i / 15, i % 15),
                decreases BOARD_SIZE - col,
            {
                let t = cells[row][col];
                let fits = match t {
                    Tile::Letter(_) => true,
                    _ => t == premium_layout(row, col),
                };
                if !fits {
                    assert(!fits_layout(cells@[row as int]@[col as int], row as int, col as int));
                    return None;
                }
                assert((row * 15 + col) / 15 == row && (row * 15 + col) % 15 == col);
                state.push(t);
                blanks.push(false);
                col += 1;
            }
            row += 1;
        }
        proof {
            assert forall|r: int, c: int| 0 <= r < BOARD_SIZE && 0 <= c < BOARD_SIZE implies fits_layout(
                #[trigger] cells@[r]@[c],
                r,
                c,
            ) by {
                let i = r * 15 + c;
                assert(i / 15 == r && i % 15 == c);
                assert(state@[i] == cells@[r]@[c]);
            }
        }
        let board = ScrabbleBoard { state, blanks, placements: Vec::new() };
        assert(board.log() =~= Seq::<PlacementView>::empty());
        Some(board)
    }

    /// What the cell at `pos` holds.
    pub fn tile(&self, pos: Position) -> (t: Tile)
        requires
            pos.valid(),
        ensures
            t == self@.tile(pos),
            self@.wf(),
    {
        proof {
            use_type_invariant(self);
        }
        self.state[pos.as_index()]
    }

    /// The letter at `pos`, if there is one, was laid as a blank tile.
    pub fn is_blank(&self, pos: Position) -> (r: bool)
        requires
            pos.valid(),
        ensures
            r == self@.is_blank(pos),
    {
        proof {
            use_type_invariant(self);
        }
        self.blanks[pos.as_index()]
    }

    /// The words laid on the board, oldest first.
    pub fn placements(&self) -> (r: &Vec<Placement>)
        ensures
            r@.len() == self.log().len(),
            forall|i: int|
                0 <= i < r@.len() ==> (#[trigger] r@[i].word@, r@[i].pos, r@[i].dir) == self.log()[i],
    {
        &self.placements
    }

    /// A copy of the board.
    pub fn duplicate(&self) -> (board: Self)
        ensures
            board@ == self@,
            board.log() == self.log(),
    {
        proof {
            use_type_invariant(self);
        }
        let state = self.state.clone();
        let blanks = self.blanks.clone();
        let mut placements: Vec<Placement> = Vec::new();
        let mut i: usize = 0;
        while i < self.placements.len()
            invariant
                i <= self.placements@.len(),
                placements@.len() == i,
                forall|k: int|
                    0 <= k < i ==> (#[trigger] placements@[k]).word@ == self.placements@[k].word@
                        && placements@[k].pos == self.placements@[k].pos && placements@[k].dir
                        == self.placements@[k].dir,
            decreases self.placements@.len() - i,
        {
            let p = &self.placements[i];
            let word = p.word.clone();
            assert(word@ =~= p.word@);
            placements.push(Placement { word, pos: p.pos, dir: p.dir });
            i += 1;
        }
        assert(state@ =~= self.state@);
        assert(blanks@ =~= self.blanks@);
        let board = ScrabbleBoard { state, blanks, placements };
        assert(board.log() =~= self.log());
        board
    }

    /// Checks if the tile at the given position holds a letter.
    pub fn is_letter(&self, pos: Position) -> (r: bool)
        requires
            pos.valid(),
        ensures
            r == self@.is_letter(pos),
    {
        match self.tile(pos) {
            Tile::Letter(_) => true,
            _ => false,
        }
    }

    /// Checks if a position can be used as an anchor: it is free and next
    /// to a letter.
    pub fn is_anchor(&self, pos: Position) -> (r: bool)
        requires
            pos.valid(),
        ensures
            r == self@.is_anchor(pos),
    {
        if self.is_letter(pos) {
            return false;
        }
        let around = pos.adjacent();
        let mut i: usize = 0;
        while i < around.len()
            invariant
                i <= around@.len(),
                around@ == pos.adjacent_spec(),
                !self@.is_letter(pos),
                forall|k: int| 0 <= k < around@.len() ==> (#[trigger] around@[k]).valid(),
                forall|k: int| 0 <= k < i ==> !self@.is_letter(#[trigger] around@[k]),
            decreases around@.len() - i,
        {
            if self.is_letter(around[i]) {
                assert(self@.is_letter(pos.adjacent_spec()[i as int]));
                return true;
            }
            i += 1;
        }
        false
    }

    /// Places the word on the board and returns, in the order of the
    /// word, the rack tiles that this costs: a blank for each lower-case
    /// byte, the letter for every other byte, and nothing for a cell that
    /// held a letter already.
    pub fn place_word(&mut self, word: &[u8], pos: Position, dir: Direction) -> (placed: Vec<
        Letter,
    >)
        requires
            old(self)@.playable(word@, pos, dir),
        ensures
            final(self)@ == old(self)@.place(word@, pos, dir),
            placed@ == old(self)@.used_tiles(word@, pos, dir, word@.len() as int),
            placed@.len() + old(self)@.pre_existing(word@, pos, dir, word@.len() as int)
                == word@.len(),
            final(self).log() == old(self).log().push((word@, pos, dir)),
    {
        proof {
            use_type_invariant(&*self);
        }
        let mut state = self.state.clone();
        let mut blanks = self.blanks.clone();
        let mut curr_pos = pos;
        let mut placed_letters: Vec<Letter> = Vec::new();
        let mut k: usize = 0;
        assert(state@ =~= old(self)@.place(word@.take(0), pos, dir).tiles);
        assert(blanks@ =~= old(self)@.place(word@.take(0), pos, dir).blanks);
        while k < word.len()
            invariant
                k <= word@.len(),
                old(self)@.wf(),
                old(self)@.playable(word@, pos, dir),
                state@ == old(self)@.place(word@.take(k as int), pos, dir).tiles,
                blanks@ == old(self)@.place(word@.take(k as int), pos, dir).blanks,
                curr_pos == line_cell(pos, dir, k as int),
                placed_letters@ == old(self)@.used_tiles(word@, pos, dir, k as int),
            decreases word@.len() - k,
        {
            let c = word[k];
            let uc = to_upper(c);
            proof {
                lemma_line_cells(pos, dir, word@.len() as int, k as int);
            }
            let idx = curr_pos.as_index();
            match state[idx] {
                Tile::Letter(_) => {},
                _ => {
                    if is_lower_case(c) {
                        placed_letters.push(Letter::Blank);
                    } else {
                        placed_letters.push(Letter::Letter(uc));
                    }
                    state[idx] = Tile::Letter(Letter::Letter(uc));
                    if is_lower_case(c) {
                        blanks[idx] = true;
                    }
                },
            }
            curr_pos.set(dir, curr_pos.get(dir) + 1);
            k += 1;
            proof {
                let target = old(self)@.place(word@.take(k as int), pos, dir);
                assert forall|j: int| 0 <= j < BOARD_CELLS implies state@[j]
                    == #[trigger] target.tiles[j] && blanks@[j] == target.blanks[j] by {
                    let off = line_offset(pos, dir, j);
                    if off == k - 1 {
                        lemma_line_offset(pos, dir, j);
                    }
                }
                assert(state@ =~= target.tiles);
                assert(blanks@ =~= target.blanks);
            }
        }
        assert(word@.take(word@.len() as int) =~= word@);
        proof {
            lemma_used_plus_pre_existing(old(self)@, word@, pos, dir, word@.len() as int);
        }
        proof {
            lemma_place_wf(old(self)@, word@, pos, dir);
        }
        self.state = state;
        self.blanks = blanks;
        let ghost log_before = self.log();
        let copy = vstd::slice::slice_to_vec(word);
        let mut log: Vec<Placement> = Vec::new();
        core::mem::swap(&mut self.placements, &mut log);
        log.push(Placement { dir, pos, word: copy });
        core::mem::swap(&mut self.placements, &mut log);
        assert(self.log() =~= log_before.push((word@, pos, dir)));
        placed_letters
    }
}

} // verus!
