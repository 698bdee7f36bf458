//! Coordinates, directions, letters and index arithmetic shared by the
//! board, the constraint grid and the move generator.

use vstd::prelude::*;
use std::rc::Rc;
use super::BOARD_SIZE;

verus! {

/// One of the two axes of the board.
#[derive(Clone, Copy, Debug, PartialEq, Eq, Structural)]
pub enum Direction {
    Across,
    Down,
}

impl Direction {
    /// Both directions, `Across` first.
    pub fn iter() -> (r: [Direction; 2])
        ensures
            r@ == seq![Direction::Across, Direction::Down],
    {
        let r = [Direction::Across, Direction::Down];
        assert(r@ =~= seq![Direction::Across, Direction::Down]);
        r
    }

    /// The other axis.
    pub open spec fn flip_spec(self) -> Direction {
        match self {
            Direction::Across => Direction::Down,
            Direction::Down => Direction::Across,
        }
    }

    /// The other axis.
    pub fn flip(&self) -> (r: Direction)
        ensures
            r == self.flip_spec(),
            r != *self,
    {
        match self {
            Direction::Across => Direction::Down,
            Direction::Down => Direction::Across,
        }
    }

    /// Index of the direction in `Direction::iter()`.
    pub open spec fn ordinal(self) -> int {
        match self {
            Direction::Across => 0,
            Direction::Down => 1,
        }
    }
}

/// Flipping a direction twice gives the direction back.
pub proof fn lemma_flip_involutive(d: Direction)
    ensures
        d.flip_spec().flip_spec() == d,
        d.flip_spec() != d,
{
}

/// A cell of the board.
#[derive(Debug, Clone, Copy, PartialEq, Eq, Hash, Structural)]
pub struct Position {
    pub row: usize,
    pub col: usize,
}

/// The one-element or empty sequence that an optional value stands for.
pub open spec fn option_seq<T>(o: Option<T>) -> Seq<T> {
    match o {
        Some(t) => seq![t],
        None => Seq::empty(),
    }
}

impl Position {
    /// The position lies on the board.
    pub open spec fn valid(self) -> bool {
        self.row < BOARD_SIZE && self.col < BOARD_SIZE
    }

    /// The coordinate that changes when stepping in `dir`.
    pub open spec fn coord(self, dir: Direction) -> usize {
        match dir {
            Direction::Across => self.col,
            Direction::Down => self.row,
        }
    }

    /// The position with the coordinate along `dir` replaced by `v`.
    pub open spec fn with_coord(self, dir: Direction, v: usize) -> Position {
        match dir {
            Direction::Across => Position { row: self.row, col: v },
            Direction::Down => Position { row: v, col: self.col },
        }
    }

    /// Reads the coordinate along `dir`: the column for `Across`, the row
    /// for `Down`.
    pub fn get(&self, dir: Direction) -> (r: usize)
        ensures
            r == self.coord(dir),
    {
        match dir {
            Direction::Across => self.col,
            Direction::Down => self.row,
        }
    }

    /// Overwrites the coordinate along `dir`.
    pub fn set(&mut self, dir: Direction, v: usize)
        ensures
            *final(self) == old(self).with_coord(dir, v),
    {
        match dir {
            Direction::Across => {
                self.col = v;
            },
            Direction::Down => {
                self.row = v;
            },
        }
    }

    /// The position one step on in `dir`, if there is one.
    pub open spec fn next_spec(self, dir: Direction) -> Option<Position> {
        if self.coord(dir) < BOARD_SIZE - 1 {
            Some(self.with_coord(dir, (self.coord(dir) + 1) as usize))
        } else {
            None
        }
    }

    /// The position one step back in `dir`, if there is one.
    pub open spec fn prev_spec(self, dir: Direction) -> Option<Position> {
        if self.coord(dir) != 0 {
            Some(self.with_coord(dir, (self.coord(dir) - 1) as usize))
        } else {
            None
        }
    }

    /// The next position in the given direction, or `None` at the last
    /// row or column.
    pub fn next(&self, dir: Direction) -> (r: Option<Position>)
        ensures
            r == self.next_spec(dir),
            self.valid() && r is Some ==> r->0.valid(),
            self.valid() ==> (r is None <==> self.coord(dir) == BOARD_SIZE - 1),
    {
        match dir {
            Direction::Across => {
                if self.col < BOARD_SIZE - 1 {
                    Some(Position { row: self.row, col: self.col + 1 })
                } else {
                    None
                }
            },
            Direction::Down => {
                if self.row < BOARD_SIZE - 1 {
                    Some(Position { row: self.row + 1, col: self.col })
                } else {
                    None
                }
            },
        }
    }

    /// The previous position in the given direction, or `None` at the
    /// first row or column.
    pub fn prev(&self, dir: Direction) -> (r: Option<Position>)
        ensures
            r == self.prev_spec(dir),
            self.valid() && r is Some ==> r->0.valid(),
            r is None <==> self.coord(dir) == 0,
    {
        match dir {
            Direction::Across => {
                if self.col != 0 {
                    Some(Position { row: self.row, col: self.col - 1 })
                } else {
                    None
                }
            },
            Direction::Down => {
                if self.row != 0 {
                    Some(Position { row: self.row - 1, col: self.col })
                } else {
                    None
                }
            },
        }
    }

    /// The neighbours in the order right, left, below, above, leaving out
    /// those that would fall off the board.
    pub open spec fn adjacent_spec(self) -> Seq<Position> {
        option_seq(self.next_spec(Direction::Across)) + option_seq(
            self.prev_spec(Direction::Across),
        ) + option_seq(self.next_spec(Direction::Down)) + option_seq(
            self.prev_spec(Direction::Down),
        )
    }

    /// All neighbouring positions that exist.
    pub fn adjacent(&self) -> (r: Vec<Position>)
        ensures
            r@ == self.adjacent_spec(),
            self.valid() ==> forall|i: int| 0 <= i < r@.len() ==> (#[trigger] r@[i]).valid(),
    {
        let mut result: Vec<Position> = Vec::new();
        let dirs = Direction::iter();
        let mut i: usize = 0;
        while i < 2
            invariant
                i <= 2,
                dirs@ == seq![Direction::Across, Direction::Down],
                i == 0 ==> result@ == Seq::<Position>::empty(),
                i == 1 ==> result@ == option_seq(self.next_spec(Direction::Across)) + option_seq(
                    self.prev_spec(Direction::Across),
                ),
                i == 2 ==> result@ == self.adjacent_spec(),
                self.valid() ==> forall|k: int|
                    0 <= k < result@.len() ==> (#[trigger] result@[k]).valid(),
            decreases 2 - i,
        {
            let d = dirs[i];
            let ghost before = result@;
            if let Some(pos) = self.next(d) {
                result.push(pos);
            }
            if let Some(pos) = self.prev(d) {
                result.push(pos);
            }
            assert(result@ =~= before + option_seq(self.next_spec(d)) + option_seq(
                self.prev_spec(d),
            ));
            i += 1;
        }
        result
    }

    /// Row-major index of the position on the board.
    pub fn as_index(&self) -> (r: usize)
        requires
            self.valid(),
        ensures
            r == self.row * BOARD_SIZE + self.col,
            r < BOARD_SIZE * BOARD_SIZE,
    {
        self.row * BOARD_SIZE + self.col
    }

    /// Where `n` steps in `dir` lead: off the board as soon as one step
    /// would leave the last row or column.
    pub open spec fn step_n_spec(self, n: nat, dir: Direction) -> Option<Position> {
        if n == 0 || self.coord(dir) + n <= BOARD_SIZE - 1 {
            Some(self.with_coord(dir, (self.coord(dir) + n) as usize))
        } else {
            None
        }
    }

    /// Moves the position forward a fixed number of steps.
    pub fn step_n(&self, n: usize, dir: Direction) -> (r: Option<Position>)
        ensures
            r == self.step_n_spec(n as nat, dir),
            self.valid() && r is Some ==> r->0.valid(),
    {
        let mut p = *self;
        let mut i: usize = 0;
        while i < n
            invariant
                i <= n,
                Some(p) == self.step_n_spec(i as nat, dir),
                self.valid() ==> p.valid(),
            decreases n - i,
        {
            match p.next(dir) {
                Some(next) => {
                    p = next;
                },
                None => {
                    return None;
                },
            }
            i += 1;
        }
        Some(p)
    }

    /// Forward walk starting at the current position.
    pub fn iter_next(&self, dir: Direction) -> (r: NextPositionIter)
        ensures
            r.curr == *self,
            r.dir == dir,
    {
        NextPositionIter::new(*self, dir)
    }

    /// Backward walk starting at the current position.
    pub fn iter_prev(&self, dir: Direction) -> (r: PrevPositionIter)
        ensures
            r.curr == *self,
            r.dir == dir,
    {
        PrevPositionIter::new(*self, dir)
    }
}

/// Walks from a position towards the end of its row or column. The start
/// itself is not produced.
pub struct NextPositionIter {
    pub curr: Position,
    pub dir: Direction,
}

impl NextPositionIter {
    /// A walk that starts at `start` and goes in direction `dir`.
    pub fn new(start: Position, dir: Direction) -> (r: Self)
        ensures
            r.curr == start,
            r.dir == dir,
    {
        Self { curr: start, dir }
    }

    /// Steps once and returns the position reached; `None`, with nothing
    /// changed, at the edge of the board.
    pub fn next(&mut self) -> (r: Option<Position>)
        ensures
            r == old(self).curr.next_spec(old(self).dir),
            final(self).dir == old(self).dir,
            final(self).curr == (match r {
                Some(p) => p,
                None => old(self).curr,
            }),
    {
        if let Some(next) = self.curr.next(self.dir) {
            self.curr = next;
            return Some(next);
        }
        None
    }
}

/// Walks from a position towards the start of its row or column. The start
/// itself is not produced.
pub struct PrevPositionIter {
    pub curr: Position,
    pub dir: Direction,
}

impl PrevPositionIter {
    /// A walk that starts at `start` and goes against direction `dir`.
    pub fn new(start: Position, dir: Direction) -> (r: Self)
        ensures
            r.curr == start,
            r.dir == dir,
    {
        Self { curr: start, dir }
    }

    /// Steps once and returns the position reached; `None`, with nothing
    /// changed, at the edge of the board.
    pub fn next(&mut self) -> (r: Option<Position>)
        ensures
            r == old(self).curr.prev_spec(old(self).dir),
            final(self).dir == old(self).dir,
            final(self).curr == (match r {
                Some(p) => p,
                None => old(self).curr,
            }),
    {
        if let Some(next) = self.curr.prev(self.dir) {
            self.curr = next;
            return Some(next);
        }
        None
    }
}

/// Stepping from a position on the board never leaves the board: at the
/// last row or column there is no next position, at the first no previous
/// one, and every position that is produced is on the board.
pub proof fn lemma_stepping_stays_on_board(p: Position, dir: Direction)
    requires
        p.valid(),
    ensures
        p.coord(dir) == BOARD_SIZE - 1 <==> p.next_spec(dir) is None,
        p.coord(dir) == 0 <==> p.prev_spec(dir) is None,
        p.next_spec(dir) matches Some(q) ==> q.valid() && q.prev_spec(dir) == Some(p),
        p.prev_spec(dir) matches Some(q) ==> q.valid() && q.next_spec(dir) == Some(p),
{
}

/// A word laid on the board from `pos` in direction `dir`, with its score.
/// A lower-case byte in `word` marks a blank tile played as that letter.
#[derive(Debug, Clone, PartialEq, Eq)]
pub struct Move {
    pub word: Vec<u8>,
    pub pos: Position,
    pub dir: Direction,
    pub score: i32,
}

impl Move {
    /// The cell that the `i`-th byte of the word falls on, if the word
    /// has an `i`-th byte and the cell is on the board.
    pub open spec fn cell(&self, i: nat) -> Option<(Position, u8)> {
        match self.pos.step_n_spec(i, self.dir) {
            Some(p) => if i < self.word@.len() {
                Some((p, self.word@[i as int]))
            } else {
                None
            },
            None => None,
        }
    }

    /// Walks over the cells of the move together with the byte laid on
    /// each.
    pub fn iter(&self) -> (r: IterMove<'_>)
        ensures
            r.m == self,
            r.curr == 0,
    {
        IterMove { m: self, curr: 0 }
    }
}

/// Cursor over the cells of a move.
pub struct IterMove<'a> {
    pub m: &'a Move,
    pub curr: usize,
}

impl<'a> IterMove<'a> {
    /// The next cell and its byte; `None`, with the cursor unchanged, once
    /// the word is used up or runs off the board.
    pub fn next(&mut self) -> (r: Option<(Position, u8)>)
        ensures
            r == old(self).m.cell(old(self).curr as nat),
            final(self).m == old(self).m,
            final(self).curr == (if r is Some {
                old(self).curr + 1
            } else {
                old(self).curr as int
            }),
    {
        match self.m.pos.step_n(self.curr, self.m.dir) {
            Some(p) => {
                if self.curr < self.m.word.len() {
                    let c = self.m.word[self.curr];
                    self.curr += 1;
                    Some((p, c))
                } else {
                    None
                }
            },
            None => None,
        }
    }
}

/// A tile: the blank, or a letter given by its byte.
#[derive(Debug, Clone, Copy, PartialEq, Eq, Hash, PartialOrd, Ord, Structural)]
pub enum Letter {
    Blank,
    Letter(u8),
}

impl Letter {
    /// Index of the letter in an alphabet table: `b - b'A'` for a letter,
    /// 27 for the blank.
    pub fn as_index(&self) -> (r: usize)
        requires
            *self matches Letter::Letter(l) ==> l >= 65,
        ensures
            *self matches Letter::Letter(l) ==> r == l - 65,
            *self is Blank ==> r == 27,
    {
        match self {
            Letter::Blank => 27,
            Letter::Letter(l) => (*l - 65u8) as usize,
        }
    }

    /// The tile that a byte of a rack or bag listing stands for: `?` is
    /// the blank, every other byte the letter itself.
    pub open spec fn of_byte(c: u8) -> Letter {
        if c == 63 {
            Letter::Blank
        } else {
            Letter::Letter(c)
        }
    }
}

impl From<u8> for Letter {
    fn from(c: u8) -> (r: Letter) {
        if c == 63u8 {
            Letter::Blank
        } else {
            Letter::Letter(c)
        }
    }
}

impl vstd::std_specs::convert::FromSpecImpl<u8> for Letter {
    open spec fn obeys_from_spec() -> bool {
        true
    }

    open spec fn from_spec(c: u8) -> Letter {
        Letter::of_byte(c)
    }
}

/// What a premium square does to the tile first laid on it.
#[derive(Debug, Clone, Copy, PartialEq, Eq, Hash, Structural)]
pub enum SquareEffect {
    DoubleWord,
    DoubleLetter,
    TripleWord,
    TripleLetter,
    Center,
}

/// Product of the dimensions from index `from` on; 1 past the end.
pub open spec fn dims_product(dim: Seq<usize>, from: int) -> int
    decreases dim.len() - from,
{
    if from < 0 || from >= dim.len() {
        1
    } else {
        dim[from] * dims_product(dim, from + 1)
    }
}

/// Row-major stride of dimension `i`: the product of the dimensions
/// after it.
pub open spec fn stride_spec(dim: Seq<usize>, i: int) -> int {
    dims_product(dim, i + 1)
}

/// Every product of trailing dimensions fits in `usize`.
pub open spec fn dims_fit(dim: Seq<usize>) -> bool {
    forall|i: int| 0 <= i <= dim.len() ==> #[trigger] dims_product(dim, i) <= usize::MAX
}

/// Sum of `coord[i] * stride(i)` over the first `upto` coordinates.
pub open spec fn linear_index(coord: Seq<usize>, dim: Seq<usize>, upto: int) -> int
    decreases upto,
{
    if upto <= 0 {
        0
    } else {
        linear_index(coord, dim, upto - 1) + coord[upto - 1] * stride_spec(dim, upto - 1)
    }
}

/// A product of dimensions is not negative, and positive where no
/// dimension is zero.
pub proof fn lemma_dims_product_nonneg(dim: Seq<usize>, from: int)
    ensures
        dims_product(dim, from) >= 0,
        (forall|i: int| 0 <= i < dim.len() ==> dim[i] > 0) ==> dims_product(dim, from) > 0,
    decreases dim.len() - from,
{
    if from < 0 || from >= dim.len() {
    } else {
        lemma_dims_product_nonneg(dim, from + 1);
        let rest = dims_product(dim, from + 1);
        let d = dim[from] as int;
        assert(d * rest >= 0) by (nonlinear_arith)
            requires
                d >= 0,
                rest >= 0,
        ;
        if forall|i: int| 0 <= i < dim.len() ==> dim[i] > 0 {
            assert(d * rest > 0) by (nonlinear_arith)
                requires
                    d > 0,
                    rest > 0,
            ;
        }
    }
}

/// More coordinates make an index that is at least as large.
pub proof fn lemma_linear_index_monotone(coord: Seq<usize>, dim: Seq<usize>, a: int, b: int)
    requires
        0 <= a <= b,
    ensures
        0 <= linear_index(coord, dim, a) <= linear_index(coord, dim, b),
    decreases b,
{
    if b > 0 {
        let c = coord[b - 1] as int;
        let s = stride_spec(dim, b - 1);
        lemma_dims_product_nonneg(dim, b);
        assert(c * s >= 0) by (nonlinear_arith)
            requires
                c >= 0,
                s >= 0,
        ;
        if a < b {
            lemma_linear_index_monotone(coord, dim, a, b - 1);
        } else {
            lemma_linear_index_monotone(coord, dim, 0, b - 1);
        }
    }
}

/// The index of the first `upto` coordinates, counted in units of the
/// stride before place `upto`.
pub open spec fn index_quotient(coord: Seq<usize>, dim: Seq<usize>, upto: int) -> int
    decreases upto,
{
    if upto <= 0 {
        0
    } else {
        index_quotient(coord, dim, upto - 1) * dim[upto - 1] + coord[upto - 1]
    }
}

proof fn lemma_index_quotient(coord: Seq<usize>, dim: Seq<usize>, upto: int)
    requires
        0 <= upto <= dim.len(),
        coord.len() == dim.len(),
    ensures
        linear_index(coord, dim, upto) == index_quotient(coord, dim, upto) * dims_product(dim, upto),
        index_quotient(coord, dim, upto) >= 0,
    decreases upto,
{
    if upto > 0 {
        lemma_index_quotient(coord, dim, upto - 1);
        let q = index_quotient(coord, dim, upto - 1);
        let d = dim[upto - 1] as int;
        let c = coord[upto - 1] as int;
        let s = dims_product(dim, upto);
        assert(dims_product(dim, upto - 1) == d * s);
        assert(q * (d * s) + c * s == (q * d + c) * s) by (nonlinear_arith);
        assert(q * d + c >= 0) by (nonlinear_arith)
            requires
                q >= 0,
                d >= 0,
                c >= 0,
        ;
    }
}

/// What the coordinates from place `from` on add to an index is less
/// than the stride before them.
proof fn lemma_index_tail(coord: Seq<usize>, dim: Seq<usize>, from: int)
    requires
        0 <= from <= dim.len(),
        coord.len() == dim.len(),
        forall|k: int| 0 <= k < dim.len() ==> coord[k] < dim[k],
    ensures
        0 <= linear_index(coord, dim, dim.len() as int) - linear_index(coord, dim, from)
            < dims_product(dim, from),
    decreases dim.len() - from,
{
    lemma_linear_index_monotone(coord, dim, from, dim.len() as int);
    if from < dim.len() {
        lemma_index_tail(coord, dim, from + 1);
        let s = dims_product(dim, from + 1);
        let d = dim[from] as int;
        let c = coord[from] as int;
        let tail = linear_index(coord, dim, dim.len() as int) - linear_index(coord, dim, from + 1);
        assert(linear_index(coord, dim, from + 1) == linear_index(coord, dim, from) + c
            * stride_spec(dim, from));
        assert(dims_product(dim, from) == d * s);
        assert(c * s + tail < d * s) by (nonlinear_arith)
            requires
                0 <= c < d,
                0 <= tail < s,
        ;
    }
}

/// An index leads back to the coordinate that it was made from: in a
/// grid with the given dimensions, every coordinate within them is found
/// again by dividing its index by the stride and taking the remainder.
pub proof fn lemma_index_round_trip(coord: Seq<usize>, dim: Seq<usize>, i: int)
    requires
        coord.len() == dim.len(),
        forall|k: int| 0 <= k < dim.len() ==> coord[k] < dim[k],
        0 <= i < dim.len(),
    ensures
        (linear_index(coord, dim, dim.len() as int) / stride_spec(dim, i)) % (dim[i] as int)
            == coord[i],
{
    let n = dim.len() as int;
    let index = linear_index(coord, dim, n);
    let s = stride_spec(dim, i);
    let d = dim[i] as int;
    let c = coord[i] as int;
    let q = index_quotient(coord, dim, i);
    let tail = index - linear_index(coord, dim, i + 1);
    lemma_index_quotient(coord, dim, i + 1);
    lemma_index_quotient(coord, dim, i);
    lemma_index_tail(coord, dim, i + 1);
    assert(index == index_quotient(coord, dim, i + 1) * s + tail);
    assert(s > 0);
    vstd::arithmetic::div_mod::lemma_fundamental_div_mod_converse(
        index,
        s,
        index_quotient(coord, dim, i + 1),
        tail,
    );
    assert(index / s == q * d + c);
    vstd::arithmetic::div_mod::lemma_fundamental_div_mod_converse(q * d + c, d, q, c);
}

/// The row-major strides of a grid with the given dimensions.
pub fn dim_to_stride(dim: &[usize]) -> (r: Vec<usize>)
    requires
        dims_fit(dim@),
    ensures
        r@.len() == dim@.len(),
        forall|i: int| 0 <= i < dim@.len() ==> #[trigger] r@[i] == stride_spec(dim@, i),
{
    let n = dim.len();
    let mut strides: Vec<usize> = Vec::with_capacity(n);
    let mut current_stride: usize = 1;
    let mut i: usize = n;
    while i > 0
        invariant
            i <= n,
            n == dim@.len(),
            dims_fit(dim@),
            current_stride == dims_product(dim@, i as int),
            strides@.len() == n - i,
            forall|k: int| 0 <= k < n - i ==> #[trigger] strides@[k] == stride_spec(dim@, i + k),
        decreases i,
    {
        i -= 1;
        let ghost before = strides@;
        strides.insert(0, current_stride);
        proof {
            assert(dims_product(dim@, i as int) == dim@[i as int] * dims_product(
                dim@,
                i as int + 1,
            ));
            assert(dims_product(dim@, i as int) <= usize::MAX);
            assert(current_stride * dim@[i as int] == dim@[i as int] * current_stride)
                by (nonlinear_arith);
            assert forall|k: int| 0 <= k < n - i implies #[trigger] strides@[k] == stride_spec(
                dim@,
                i + k,
            ) by {
                if k > 0 {
                    assert(strides@[k] == before[k - 1]);
                }
            }
        }
        current_stride = current_stride * dim[i];
    }
    strides
}

/// Converts an n-dimensional coordinate into its row-major index in a grid
/// with the given dimensions.
pub fn coord_to_index(coord: &[usize], dim: &[usize]) -> (index: usize)
    requires
        coord@.len() <= dim@.len(),
        dims_fit(dim@),
        linear_index(coord@, dim@, coord@.len() as int) <= usize::MAX,
    ensures
        index == linear_index(coord@, dim@, coord@.len() as int),
{
    let mut index: usize = 0;
    let stride = dim_to_stride(dim);
    let mut i: usize = 0;
    while i < coord.len()
        invariant
            i <= coord@.len(),
            coord@.len() <= dim@.len(),
            stride@.len() == dim@.len(),
            forall|k: int| 0 <= k < dim@.len() ==> #[trigger] stride@[k] == stride_spec(dim@, k),
            index == linear_index(coord@, dim@, i as int),
            linear_index(coord@, dim@, coord@.len() as int) <= usize::MAX,
        decreases coord@.len() - i,
    {
        proof {
            lemma_linear_index_monotone(coord@, dim@, i as int + 1, coord@.len() as int);
            lemma_linear_index_monotone(coord@, dim@, 0, i as int);
            assert(linear_index(coord@, dim@, i as int + 1) == linear_index(coord@, dim@, i as int)
                + coord@[i as int] * stride_spec(dim@, i as int));
            assert(stride@[i as int] == stride_spec(dim@, i as int));
        }
        index += coord[i] * stride[i];
        i += 1;
    }
    index
}

/// Converts a row-major index back into an n-dimensional coordinate.
pub fn index_to_coord(idx: usize, dim: &[usize]) -> (coord: Vec<usize>)
    requires
        dims_fit(dim@),
        forall|i: int| 0 <= i < dim@.len() ==> dim@[i] > 0,
    ensures
        coord@.len() == dim@.len(),
        forall|i: int|
            0 <= i < dim@.len() ==> #[trigger] coord@[i] == (idx as int / stride_spec(dim@, i))
                % (dim@[i] as int),
{
    let mut coord: Vec<usize> = Vec::new();
    let stride = dim_to_stride(dim);
    let mut i: usize = 0;
    while i < dim.len()
        invariant
            i <= dim@.len(),
            coord@.len() == i,
            stride@.len() == dim@.len(),
            forall|k: int| 0 <= k < dim@.len() ==> #[trigger] stride@[k] == stride_spec(dim@, k),
            forall|k: int| 0 <= k < dim@.len() ==> dim@[k] > 0,
            forall|k: int|
                0 <= k < i ==> #[trigger] coord@[k] == (idx as int / stride_spec(dim@, k)) % (
                dim@[k] as int),
        decreases dim@.len() - i,
    {
        proof {
            lemma_dims_product_nonneg(dim@, i as int + 1);
            assert(stride@[i as int] == stride_spec(dim@, i as int));
        }
        let partial_idx = (idx / stride[i]) % dim[i];
        coord.push(partial_idx);
        i += 1;
    }
    coord
}

/// The decimal digits of a number, as ASCII bytes.
pub open spec fn decimal(n: nat) -> Seq<u8>
    decreases n,
{
    if n < 10 {
        seq![(48 + n) as u8]
    } else {
        decimal(n / 10).push((48 + n % 10) as u8)
    }
}

/// Appends the decimal digits of a number.
pub fn push_decimal(key: &mut Vec<u8>, n: usize)
    ensures
        final(key)@ == old(key)@ + decimal(n as nat),
    decreases n,
{
    if n >= 10 {
        push_decimal(key, n / 10);
    }
    let digit = (n % 10) as u8;
    key.push(48 + digit);
    proof {
        if n < 10 {
            assert(key@ =~= old(key)@ + decimal(n as nat));
        } else {
            assert(key@ =~= old(key)@ + decimal((n / 10) as nat).push((48 + n % 10) as u8));
        }
    }
}

/// Another handle on a shared value: `Rc::clone`, which gives a pointer
/// to the same value and leaves the value alone.
#[verifier::external_body]
pub(crate) fn share<T>(shared: &Rc<T>) -> (r: Rc<T>)
    ensures
        r == *shared,
{
    Rc::clone(shared)
}

} // verus!
