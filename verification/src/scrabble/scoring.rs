//! Points: the sums of the letters next to each cell, and the score of a
//! placement.

use vstd::prelude::*;
use super::bag::{letter_value, Bag};
use super::board::{
    cell_index, cell_position, is_double_word, is_lower, is_lower_case, is_triple_word, line_cell,
    standard_tile, BoardView, ScrabbleBoard, Tile, BOARD_CELLS,
};
use super::util::{Direction, Letter, Move, Position, SquareEffect};
use super::BOARD_SIZE;

verus! {

/// Largest sum that the letters of one line can add to a cell: fourteen
/// letters of ten points.
pub const CROSS_SUM_MAX: i32 = 140;

/// No move scores more: 27 times 450 points for the letters, 15 times
/// 510 for the crossing words, and the bonus.
pub const MOVE_SCORE_MAX: i32 = 19850;

/// Points for laying all seven tiles of a rack at once.
pub const FULL_RACK_BONUS: i32 = 50;

/// By how much a square multiplies the word first laid over it.
pub open spec fn word_factor(t: Tile) -> int {
    match t {
        Tile::Special(SquareEffect::DoubleWord) => 2,
        Tile::Special(SquareEffect::Center) => 2,
        Tile::Special(SquareEffect::TripleWord) => 3,
        _ => 1,
    }
}

/// By how much a square multiplies the tile first laid on it.
pub open spec fn letter_factor(t: Tile) -> int {
    match t {
        Tile::Special(SquareEffect::TripleLetter) => 3,
        Tile::Special(SquareEffect::DoubleLetter) => 2,
        _ => 1,
    }
}

/// By how much a square multiplies the word that crosses the placement
/// there: nothing is scored across a letter that lay there before.
pub open spec fn cross_factor(t: Tile) -> int {
    match t {
        Tile::Letter(_) => 0,
        _ => word_factor(t),
    }
}

fn word_factor_of(t: Tile) -> (r: i32)
    ensures
        r == word_factor(t),
        1 <= r <= 3,
{
    match t {
        Tile::Special(SquareEffect::DoubleWord) => 2,
        Tile::Special(SquareEffect::Center) => 2,
        Tile::Special(SquareEffect::TripleWord) => 3,
        _ => 1,
    }
}

fn letter_factor_of(t: Tile) -> (r: i32)
    ensures
        r == letter_factor(t),
        1 <= r <= 3,
{
    match t {
        Tile::Special(SquareEffect::TripleLetter) => 3,
        Tile::Special(SquareEffect::DoubleLetter) => 2,
        _ => 1,
    }
}

fn cross_factor_of(t: Tile) -> (r: i32)
    ensures
        r == cross_factor(t),
        0 <= r <= 3,
{
    match t {
        Tile::Letter(_) => 0,
        _ => word_factor_of(t),
    }
}

/// The square at row `r`, column `c` multiplies words.
pub open spec fn is_word_premium(r: int, c: int) -> bool {
    (r == 7 && c == 7) || is_triple_word(r, c) || is_double_word(r, c)
}

/// Number of word-multiplying squares among the first `upto` cells of a
/// row or, the layout being symmetric, of a column.
pub open spec fn premium_count(line: int, upto: int) -> int
    decreases upto,
{
    if upto <= 0 {
        0
    } else {
        premium_count(line, upto - 1) + if is_word_premium(line, upto - 1) {
            1int
        } else {
            0int
        }
    }
}

proof fn lemma_premium_count_monotone(line: int, a: int, b: int)
    requires
        0 <= a <= b,
    ensures
        0 <= premium_count(line, a) <= premium_count(line, b),
    decreases b,
{
    if b > 0 {
        if a < b {
            lemma_premium_count_monotone(line, a, b - 1);
        } else {
            lemma_premium_count_monotone(line, 0, b - 1);
        }
    }
}

/// No row and no column of the standard layout has more than three
/// squares that multiply words.
proof fn lemma_premium_count_total(line: int)
    requires
        0 <= line < BOARD_SIZE,
    ensures
        premium_count(line, 15) <= 3,
{
    reveal_with_fuel(premium_count, 16);
}

impl BoardView {
    /// Points that the letter on a cell adds to the sum of a neighbour:
    /// nothing for a blank tile.
    pub open spec fn cell_points(self, p: Position) -> int {
        match self.tile(p) {
            Tile::Letter(l) => if self.is_blank(p) {
                0
            } else {
                letter_value(l)
            },
            _ => 0,
        }
    }

    /// Points of the unbroken run of letters that follows `p` in
    /// direction `d`.
    pub open spec fn run_after(self, p: Position, d: Direction) -> int
        decreases BOARD_SIZE - p.coord(d),
    {
        match p.next_spec(d) {
            Some(q) => if self.is_letter(q) {
                self.cell_points(q) + self.run_after(q, d)
            } else {
                0
            },
            None => 0,
        }
    }

    /// Points of the unbroken run of letters that precedes `p` in
    /// direction `d`.
    pub open spec fn run_before(self, p: Position, d: Direction) -> int
        decreases p.coord(d),
    {
        match p.prev_spec(d) {
            Some(q) => if self.is_letter(q) {
                self.cell_points(q) + self.run_before(q, d)
            } else {
                0
            },
            None => 0,
        }
    }

    /// A letter lies directly before or after `p` in direction `d`.
    pub open spec fn has_neighbour(self, p: Position, d: Direction) -> bool {
        ||| (p.next_spec(d) matches Some(q) && self.is_letter(q))
        ||| (p.prev_spec(d) matches Some(q) && self.is_letter(q))
    }

    /// The sum for a cell and a direction: the points of the letters that
    /// touch the cell along that direction, on both sides, or -1 where no
    /// letter touches it.
    pub open spec fn cross_sum(self, p: Position, d: Direction) -> int {
        if self.has_neighbour(p, d) {
            self.run_after(p, d) + self.run_before(p, d)
        } else {
            -1
        }
    }

    /// Number of cells that a move covers: the length of its word, cut
    /// off at the edge of the board.
    pub open spec fn move_cells(m: Move) -> int {
        if m.word@.len() <= BOARD_SIZE - m.pos.coord(m.dir) {
            m.word@.len() as int
        } else {
            BOARD_SIZE - m.pos.coord(m.dir)
        }
    }

    /// Points of the `i`-th tile of a move: the value of its letter times
    /// the letter factor of the square, and nothing for a blank.
    pub open spec fn letter_points(self, m: Move, i: int) -> int {
        let p = line_cell(m.pos, m.dir, i);
        if is_lower(m.word@[i]) || self.is_blank(p) {
            0
        } else {
            letter_value(Letter::Letter(m.word@[i])) * letter_factor(self.tile(p))
        }
    }

    /// Points of the word that crosses the move at its `i`-th tile.
    pub open spec fn cross_points(self, m: Move, sums: Seq<i32>, i: int) -> int {
        let p = line_cell(m.pos, m.dir, i);
        if sums[cell_index(p)] >= 0 {
            cross_factor(self.tile(p)) * (self.letter_points(m, i) + sums[cell_index(p)])
        } else {
            0
        }
    }

    /// Sum of the points of the first `upto` tiles of a move.
    pub open spec fn letters_total(self, m: Move, upto: int) -> int
        decreases upto,
    {
        if upto <= 0 {
            0
        } else {
            self.letters_total(m, upto - 1) + self.letter_points(m, upto - 1)
        }
    }

    /// Sum of the points of the crossing words at the first `upto` tiles.
    pub open spec fn cross_total(self, m: Move, sums: Seq<i32>, upto: int) -> int
        decreases upto,
    {
        if upto <= 0 {
            0
        } else {
            self.cross_total(m, sums, upto - 1) + self.cross_points(m, sums, upto - 1)
        }
    }

    /// Product of the word factors of the squares under the first `upto`
    /// tiles.
    pub open spec fn word_multiplier(self, m: Move, upto: int) -> int
        decreases upto,
    {
        if upto <= 0 {
            1
        } else {
            self.word_multiplier(m, upto - 1) * word_factor(
                self.tile(line_cell(m.pos, m.dir, upto - 1)),
            )
        }
    }

    /// Number of cells among the first `upto` of a move that held a
    /// letter before.
    pub open spec fn old_letters(self, m: Move, upto: int) -> int
        decreases upto,
    {
        if upto <= 0 {
            0
        } else {
            self.old_letters(m, upto - 1) + if self.is_letter(line_cell(m.pos, m.dir, upto - 1)) {
                1int
            } else {
                0int
            }
        }
    }

    /// The score of a move on this board, given the sums of the
    /// neighbouring letters for each cell: the letters' points times the
    /// word factors, plus the crossing words, plus the bonus where seven
    /// tiles come from the rack.
    pub open spec fn score(self, m: Move, sums: Seq<i32>) -> int {
        let n = Self::move_cells(m);
        self.word_multiplier(m, n) * self.letters_total(m, n) + self.cross_total(m, sums, n) + if m.word@.len()
            - self.old_letters(m, n) == 7 {
            50int
        } else {
            0int
        }
    }

    /// Number of squares under the first `upto` tiles that still multiply
    /// the word.
    pub open spec fn premium_hits(self, m: Move, upto: int) -> int
        decreases upto,
    {
        if upto <= 0 {
            0
        } else {
            self.premium_hits(m, upto - 1) + if word_factor(
                self.tile(line_cell(m.pos, m.dir, upto - 1)),
            ) > 1 {
                1int
            } else {
                0int
            }
        }
    }
}

/// Two moves with the same word at the same place score the same,
/// whatever score they carry.
pub proof fn lemma_score_of_placement(b: BoardView, m1: Move, m2: Move, sums: Seq<i32>)
    requires
        m1.word@ == m2.word@,
        m1.pos == m2.pos,
        m1.dir == m2.dir,
    ensures
        b.score(m1, sums) == b.score(m2, sums),
{
    lemma_totals_of_placement(b, m1, m2, sums, BoardView::move_cells(m1));
}

proof fn lemma_totals_of_placement(b: BoardView, m1: Move, m2: Move, sums: Seq<i32>, upto: int)
    requires
        m1.word@ == m2.word@,
        m1.pos == m2.pos,
        m1.dir == m2.dir,
    ensures
        b.letters_total(m1, upto) == b.letters_total(m2, upto),
        b.cross_total(m1, sums, upto) == b.cross_total(m2, sums, upto),
        b.word_multiplier(m1, upto) == b.word_multiplier(m2, upto),
        b.old_letters(m1, upto) == b.old_letters(m2, upto),
    decreases upto,
{
    if upto > 0 {
        lemma_totals_of_placement(b, m1, m2, sums, upto - 1);
    }
}

/// The score of a move on the board lies between 0 and the largest
/// score.
pub proof fn lemma_score_range(b: BoardView, m: Move, sums: Seq<i32>)
    requires
        b.wf(),
        m.pos.valid(),
        sums.len() == BOARD_CELLS,
        forall|i: int| 0 <= i < BOARD_CELLS ==> sums[i] <= CROSS_SUM_MAX,
    ensures
        0 <= b.score(m, sums) <= MOVE_SCORE_MAX,
{
    let n = BoardView::move_cells(m);
    lemma_score_bounds(b, m, sums, n);
    lemma_multiplier_bound(b, m, n);
    let wm = b.word_multiplier(m, n);
    let lt = b.letters_total(m, n);
    assert(0 <= wm * lt <= 27 * 450) by (nonlinear_arith)
        requires
            1 <= wm <= 27,
            0 <= lt <= 450,
    ;
}

/// The sums of a board stay within the range that a score can take.
pub proof fn lemma_table_bounds(b: BoardView, d: Direction)
    requires
        b.wf(),
    ensures
        forall|i: int|
            0 <= i < BOARD_CELLS ==> -1 <= #[trigger] cross_sum_table(b, d)[i] <= CROSS_SUM_MAX,
{
    assert forall|i: int| 0 <= i < BOARD_CELLS implies -1 <= #[trigger] cross_sum_table(b, d)[i]
        <= CROSS_SUM_MAX by {
        lemma_run_bounds(b, cell_position(i), d);
    }
}

/// The sums of a board for one direction, one entry per cell.
pub open spec fn cross_sum_table(b: BoardView, d: Direction) -> Seq<i32> {
    Seq::new(BOARD_CELLS as nat, |i: int| b.cross_sum(cell_position(i), d) as i32)
}

/// The largest product that `h` word factors can reach, for up to three.
pub open spec fn factor_bound(h: int) -> int {
    if h <= 0 {
        1
    } else if h == 1 {
        3
    } else if h == 2 {
        9
    } else {
        27
    }
}

/// A square that still multiplies the word under a move is one of the
/// word-multiplying squares of the move's row or column.
proof fn lemma_hit_is_premium(b: BoardView, m: Move, i: int)
    requires
        b.wf(),
        m.pos.valid(),
        0 <= i < BoardView::move_cells(m),
        word_factor(b.tile(line_cell(m.pos, m.dir, i))) > 1,
    ensures
        is_word_premium(m.pos.coord(m.dir.flip_spec()) as int, m.pos.coord(m.dir) + i),
{
    let p = line_cell(m.pos, m.dir, i);
    let idx = cell_index(p);
    assert(0 <= idx < BOARD_CELLS);
    assert(idx / 15 == p.row && idx % 15 == p.col);
    assert(b.tiles[idx] is Letter || b.tiles[idx] == standard_tile(idx / 15, idx % 15));
    assert(is_word_premium(p.row as int, p.col as int));
    assert(is_word_premium(p.row as int, p.col as int) == is_word_premium(
        p.col as int,
        p.row as int,
    ));
}

/// At most three squares under a move multiply its word, so the product
/// of their factors is at most 27.
proof fn lemma_multiplier_bound(b: BoardView, m: Move, upto: int)
    requires
        b.wf(),
        m.pos.valid(),
        0 <= upto <= BoardView::move_cells(m),
    ensures
        0 <= b.premium_hits(m, upto) <= premium_count(
            m.pos.coord(m.dir.flip_spec()) as int,
            m.pos.coord(m.dir) + upto,
        ) - premium_count(m.pos.coord(m.dir.flip_spec()) as int, m.pos.coord(m.dir) as int),
        b.premium_hits(m, upto) <= 3,
        1 <= b.word_multiplier(m, upto) <= factor_bound(b.premium_hits(m, upto)),
        b.word_multiplier(m, upto) <= 27,
    decreases upto,
{
    let line = m.pos.coord(m.dir.flip_spec()) as int;
    let start = m.pos.coord(m.dir) as int;
    lemma_premium_count_monotone(line, start, start + upto);
    lemma_premium_count_monotone(line, start + upto, 15);
    lemma_premium_count_total(line);
    if upto > 0 {
        lemma_multiplier_bound(b, m, upto - 1);
        let i = upto - 1;
        let wf = word_factor(b.tile(line_cell(m.pos, m.dir, i)));
        let prev = b.word_multiplier(m, i);
        let h = b.premium_hits(m, i);
        if wf > 1 {
            lemma_hit_is_premium(b, m, i);
            assert(h <= 2);
            assert(1 <= prev * wf <= factor_bound(h + 1)) by (nonlinear_arith)
                requires
                    1 <= prev <= factor_bound(h),
                    0 <= h <= 2,
                    2 <= wf <= 3,
            ;
        } else {
            assert(prev * wf == prev) by (nonlinear_arith)
                requires
                    wf == 1,
            ;
        }
    }
}

/// Bounds on the points of one tile of a move and of the word crossing
/// it.
proof fn lemma_tile_points(b: BoardView, m: Move, sums: Seq<i32>, i: int)
    requires
        sums[cell_index(line_cell(m.pos, m.dir, i))] <= CROSS_SUM_MAX,
    ensures
        0 <= b.letter_points(m, i) <= 30,
        0 <= b.cross_points(m, sums, i) <= 510,
{
    let p = line_cell(m.pos, m.dir, i);
    let t = b.tile(p);
    let v = letter_value(Letter::Letter(m.word@[i]));
    let lf = letter_factor(t);
    assert(0 <= v * lf <= 30) by (nonlinear_arith)
        requires
            0 <= v <= 10,
            1 <= lf <= 3,
    ;
    let lp = b.letter_points(m, i);
    let cf = cross_factor(t);
    let cs = sums[cell_index(p)] as int;
    if cs >= 0 {
        assert(0 <= cf * (lp + cs) <= 510) by (nonlinear_arith)
            requires
                0 <= cf <= 3,
                0 <= lp <= 30,
                0 <= cs <= 140,
        ;
    }
}

/// Bounds on the sums of a score that keep the arithmetic within `i32`.
proof fn lemma_score_bounds(b: BoardView, m: Move, sums: Seq<i32>, upto: int)
    requires
        m.pos.valid(),
        0 <= upto <= BoardView::move_cells(m),
        sums.len() == BOARD_CELLS,
        forall|i: int| 0 <= i < BOARD_CELLS ==> sums[i] <= CROSS_SUM_MAX,
    ensures
        0 <= b.letters_total(m, upto) <= 30 * upto,
        0 <= b.cross_total(m, sums, upto) <= 510 * upto,
        0 <= b.old_letters(m, upto) <= upto,
    decreases upto,
{
    if upto > 0 {
        lemma_score_bounds(b, m, sums, upto - 1);
        let idx = cell_index(line_cell(m.pos, m.dir, upto - 1));
        assert(0 <= idx < BOARD_CELLS);
        lemma_tile_points(b, m, sums, upto - 1);
    }
}

/// The two tables of sums that a board gives: the first for `Across`,
/// the second for `Down`, each with one entry per cell.
pub open spec fn cross_sums_of(b: BoardView, sums: [[i32; 225]; 2]) -> bool {
    forall|d: Direction, p: Position|
        p.valid() ==> #[trigger] sums@[d.ordinal()]@[cell_index(p)] == b.cross_sum(p, d)
}

proof fn lemma_run_bounds(b: BoardView, p: Position, d: Direction)
    requires
        b.wf(),
        p.valid(),
    ensures
        0 <= b.run_after(p, d) <= 10 * (BOARD_SIZE - 1 - p.coord(d)),
        0 <= b.run_before(p, d) <= 10 * p.coord(d),
        -1 <= b.cross_sum(p, d) <= CROSS_SUM_MAX,
{
    lemma_run_after_bound(b, p, d);
    lemma_run_before_bound(b, p, d);
}

proof fn lemma_run_after_bound(b: BoardView, p: Position, d: Direction)
    requires
        b.wf(),
        p.valid(),
    ensures
        0 <= b.run_after(p, d) <= 10 * (BOARD_SIZE - 1 - p.coord(d)),
    decreases BOARD_SIZE - p.coord(d),
{
    match p.next_spec(d) {
        Some(q) => {
            if b.is_letter(q) {
                lemma_run_after_bound(b, q, d);
            }
        },
        None => {},
    }
}

proof fn lemma_run_before_bound(b: BoardView, p: Position, d: Direction)
    requires
        b.wf(),
        p.valid(),
    ensures
        0 <= b.run_before(p, d) <= 10 * p.coord(d),
    decreases p.coord(d),
{
    match p.prev_spec(d) {
        Some(q) => {
            if b.is_letter(q) {
                lemma_run_before_bound(b, q, d);
            }
        },
        None => {},
    }
}

impl ScrabbleBoard {
    /// Points that the letter on a cell adds to the sum of a neighbour.
    fn points_at(&self, pos: Position, bag: &Bag) -> (r: i32)
        requires
            pos.valid(),
        ensures
            r == self@.cell_points(pos),
            0 <= r <= 10,
    {
        match self.tile(pos) {
            Tile::Letter(l) => {
                if self.is_blank(pos) {
                    0
                } else {
                    bag.score(l)
                }
            },
            _ => 0,
        }
    }

    /// The sum for one cell and one direction.
    fn cross_sum_at(&self, pos: Position, dir: Direction, bag: &Bag) -> (r: i32)
        requires
            pos.valid(),
        ensures
            r == self@.cross_sum(pos, dir),
            -1 <= r <= CROSS_SUM_MAX,
    {
        let mut score: i32 = 0;
        let mut found_letter = false;
        let ghost b = self@;
        proof {
            use_type_invariant(self);
            lemma_run_bounds(b, pos, dir);
        }
        let mut forward = pos.iter_next(dir);
        loop
            invariant_except_break
                b == self@,
                b.wf(),
                pos.valid(),
                forward.dir == dir,
                forward.curr.valid(),
                forward.curr.coord(dir) >= pos.coord(dir),
                score + b.run_after(forward.curr, dir) == b.run_after(pos, dir),
                0 <= score <= 10 * (forward.curr.coord(dir) - pos.coord(dir)),
                found_letter == (forward.curr != pos),
                found_letter ==> (pos.next_spec(dir) matches Some(q) && b.is_letter(q)),
            ensures
                b == self@,
                0 <= score <= 140,
                score == b.run_after(pos, dir),
                found_letter == (pos.next_spec(dir) matches Some(q) && b.is_letter(q)),
            decreases BOARD_SIZE - forward.curr.coord(dir),
        {
            let ghost at = forward.curr;
            proof {
                lemma_run_after_bound(b, at, dir);
            }
            match forward.next() {
                Some(q) => {
                    if self.is_letter(q) {
                        found_letter = true;
                        score = score + self.points_at(q, bag);
                    } else {
                        break ;
                    }
                },
                None => {
                    break ;
                },
            }
        }
        let ghost after = score;
        let ghost found_after = found_letter;
        let mut backward = pos.iter_prev(dir);
        let mut behind = false;
        loop
            invariant_except_break
                b == self@,
                b.wf(),
                pos.valid(),
                backward.dir == dir,
                backward.curr.valid(),
                backward.curr.coord(dir) <= pos.coord(dir),
                0 <= after <= 10 * (BOARD_SIZE - 1 - pos.coord(dir)),
                score - after + b.run_before(backward.curr, dir) == b.run_before(pos, dir),
                after <= score <= after + 10 * (pos.coord(dir) - backward.curr.coord(dir)),
                behind == (backward.curr != pos),
                behind ==> (pos.prev_spec(dir) matches Some(q) && b.is_letter(q)),
            ensures
                b == self@,
                after <= score <= 140,
                score - after == b.run_before(pos, dir),
                behind == (pos.prev_spec(dir) matches Some(q) && b.is_letter(q)),
            decreases backward.curr.coord(dir),
        {
            let ghost at = backward.curr;
            proof {
                lemma_run_before_bound(b, at, dir);
            }
            match backward.next() {
                Some(q) => {
                    if self.is_letter(q) {
                        behind = true;
                        score = score + self.points_at(q, bag);
                    } else {
                        break ;
                    }
                },
                None => {
                    break ;
                },
            }
        }
        if found_letter || behind {
            score
        } else {
            -1
        }
    }

    /// Calculates, for both directions and every cell, the sum of the
    /// points of the letters that touch the cell along that direction.
    /// Entry `d` of the result is for direction `d` of `Direction::iter()`.
    pub fn calculate_cross_sums(&self, bag: &Bag) -> (sums: [[i32; 225]; 2])
        ensures
            cross_sums_of(self@, sums),
            sums@[0]@ == cross_sum_table(self@, Direction::Across),
            sums@[1]@ == cross_sum_table(self@, Direction::Down),
            forall|d: int, i: int|
                0 <= d < 2 && 0 <= i < BOARD_CELLS ==> -1 <= #[trigger] sums@[d]@[i]
                    <= CROSS_SUM_MAX,
    {
        let mut across: [i32; 225] = [0; 225];
        let mut down: [i32; 225] = [0; 225];
        let mut row: usize = 0;
        while row < BOARD_SIZE
            invariant
                row <= BOARD_SIZE,
                forall|i: int|
                    0 <= i < row * 15 ==> #[trigger] across@[i] == self@.cross_sum(
                        cell_position(i),
                        Direction::Across,
                    ),
                forall|i: int|
                    0 <= i < row * 15 ==> #[trigger] down@[i] == self@.cross_sum(
                        cell_position(i),
                        Direction::Down,
                    ),
                forall|i: int| 0 <= i < BOARD_CELLS ==> -1 <= #[trigger] across@[i] <= CROSS_SUM_MAX,
                forall|i: int| 0 <= i < BOARD_CELLS ==> -1 <= #[trigger] down@[i] <= CROSS_SUM_MAX,
            decreases BOARD_SIZE - row,
        {
            let mut col: usize = 0;
            while col < BOARD_SIZE
                invariant
                    row < BOARD_SIZE,
                    col <= BOARD_SIZE,
                    forall|i: int|
                        0 <= i < row * 15 + col ==> #[trigger] across@[i] == self@.cross_sum(
                            cell_position(i),
                            Direction::Across,
                        ),
                    forall|i: int|
                        0 <= i < row * 15 + col ==> #[trigger] down@[i] == self@.cross_sum(
                            cell_position(i),
                            Direction::Down,
                        ),
                    forall|i: int|
                        0 <= i < BOARD_CELLS ==> -1 <= #[trigger] across@[i] <= CROSS_SUM_MAX,
                    forall|i: int|
                        0 <= i < BOARD_CELLS ==> -1 <= #[trigger] down@[i] <= CROSS_SUM_MAX,
                decreases BOARD_SIZE - col,
            {
                let pos = Position { row, col };
                let idx = pos.as_index();
                let a = self.cross_sum_at(pos, Direction::Across, bag);
                let d = self.cross_sum_at(pos, Direction::Down, bag);
                assert(cell_position(idx as int) == pos);
                across[idx] = a;
                down[idx] = d;
                col += 1;
            }
            row += 1;
        }
        let sums = [across, down];
        proof {
            assert(sums@[0] == across);
            assert(sums@[1] == down);
            assert forall|d: Direction, p: Position| p.valid() implies #[trigger] sums@[d.ordinal()]@[cell_index(
                p,
            )] == self@.cross_sum(p, d) by {
                let i = cell_index(p);
                assert(cell_position(i) == p);
                assert(across@[i] == self@.cross_sum(p, Direction::Across));
                assert(down@[i] == self@.cross_sum(p, Direction::Down));
            }
            assert(across@ =~= cross_sum_table(self@, Direction::Across));
            assert(down@ =~= cross_sum_table(self@, Direction::Down));
            assert forall|d: int, i: int| 0 <= d < 2 && 0 <= i < BOARD_CELLS implies -1
                <= #[trigger] sums@[d]@[i] <= CROSS_SUM_MAX by {
                assert(-1 <= across@[i] <= CROSS_SUM_MAX);
                assert(-1 <= down@[i] <= CROSS_SUM_MAX);
            }
        }
        sums
    }

    /// The score of a move on this board, before the move is laid, given
    /// for each cell the sum of the neighbouring letters that count for
    /// the move.
    pub fn score(&self, m: &Move, cross_sums: &[i32; 225], bag: &Bag) -> (score: i32)
        requires
            m.pos.valid(),
            forall|i: int| 0 <= i < BOARD_CELLS ==> cross_sums@[i] <= CROSS_SUM_MAX,
        ensures
            score == self@.score(*m, cross_sums@),
            0 <= score <= MOVE_SCORE_MAX,
    {
        let mut true_score: i32 = 0;
        let mut total_cross_score: i32 = 0;
        let mut true_mult: i32 = 1;
        let mut n_played: usize = 0;
        let ghost b = self@;
        let ghost n = BoardView::move_cells(*m);
        proof {
            use_type_invariant(self);
        }
        let mut cells = m.iter();
        loop
            invariant_except_break
                b == self@,
                b.wf(),
                m.pos.valid(),
                n == BoardView::move_cells(*m),
                forall|i: int| 0 <= i < BOARD_CELLS ==> cross_sums@[i] <= CROSS_SUM_MAX,
                cells.m == m,
                0 <= cells.curr <= n,
                true_score == b.letters_total(*m, cells.curr as int),
                total_cross_score == b.cross_total(*m, cross_sums@, cells.curr as int),
                true_mult == b.word_multiplier(*m, cells.curr as int),
                n_played == b.old_letters(*m, cells.curr as int),
            ensures
                cells.curr == n,
                true_score == b.letters_total(*m, n),
                total_cross_score == b.cross_total(*m, cross_sums@, n),
                true_mult == b.word_multiplier(*m, n),
                n_played == b.old_letters(*m, n),
            decreases n - cells.curr,
        {
            let ghost k = cells.curr as int;
            match cells.next() {
                Some((curr_pos, i)) => {
                    proof {
                        lemma_score_bounds(b, *m, cross_sums@, k);
                        lemma_score_bounds(b, *m, cross_sums@, k + 1);
                        lemma_multiplier_bound(b, *m, k);
                        lemma_multiplier_bound(b, *m, k + 1);
                        assert(curr_pos == line_cell(m.pos, m.dir, k));
                    }
                    let tile = self.tile(curr_pos);
                    let cross_mult = cross_factor_of(tile);
                    let tile_mult = letter_factor_of(tile);
                    true_mult = true_mult * word_factor_of(tile);
                    match tile {
                        Tile::Letter(_) => {
                            n_played = n_played + 1;
                        },
                        _ => {},
                    }
                    let mut curr_score: i32 = 0;
                    if !(is_lower_case(i) || self.is_blank(curr_pos)) {
                        let v = bag.score(Letter::Letter(i));
                        assert(0 <= v * tile_mult <= 30) by (nonlinear_arith)
                            requires
                                0 <= v <= 10,
                                1 <= tile_mult <= 3,
                        ;
                        curr_score = v * tile_mult;
                    }
                    let cross_sum = cross_sums[curr_pos.as_index()];
                    if cross_sum >= 0 {
                        let cross_score = curr_score + cross_sum;
                        assert(0 <= cross_mult * cross_score <= 510) by (nonlinear_arith)
                            requires
                                0 <= cross_mult <= 3,
                                0 <= cross_score <= 170,
                        ;
                        total_cross_score = total_cross_score + cross_mult * cross_score;
                    }
                    true_score = true_score + curr_score;
                },
                None => {
                    break ;
                },
            }
        }
        proof {
            lemma_score_bounds(b, *m, cross_sums@, n);
            lemma_multiplier_bound(b, *m, n);
            lemma_score_range(b, *m, cross_sums@);
            let wm = b.word_multiplier(*m, n);
            let lt = b.letters_total(*m, n);
            assert(0 <= wm * lt <= 27 * 450) by (nonlinear_arith)
                requires
                    1 <= wm <= 27,
                    0 <= lt <= 450,
            ;
        }
        let mut score = true_mult * true_score + total_cross_score;
        if m.word.len() - n_played == 7 {
            score = score + FULL_RACK_BONUS;
        }
        score
    }
}

/// Two cells lie on the same line in direction `d`.
pub open spec fn same_line(p: Position, q: Position, d: Direction) -> bool {
    p.coord(d.flip_spec()) == q.coord(d.flip_spec())
}

/// Two boards hold the same in every cell of the line through `p` in
/// direction `d`, but perhaps in `p` itself.
pub open spec fn agree_around(b1: BoardView, b2: BoardView, p: Position, d: Direction) -> bool {
    forall|q: Position|
        q.valid() && same_line(p, q, d) && q != p ==> #[trigger] b1.tile(q) == b2.tile(q)
            && b1.is_blank(q) == b2.is_blank(q)
}

proof fn lemma_run_after_frame(b1: BoardView, b2: BoardView, start: Position, p: Position, d: Direction)
    requires
        start.valid(),
        p.valid(),
        same_line(start, p, d),
        p.coord(d) >= start.coord(d),
        agree_around(b1, b2, start, d),
    ensures
        b1.run_after(p, d) == b2.run_after(p, d),
    decreases BOARD_SIZE - p.coord(d),
{
    match p.next_spec(d) {
        Some(q) => {
            assert(b1.tile(q) == b2.tile(q) && b1.is_blank(q) == b2.is_blank(q));
            if b1.is_letter(q) {
                lemma_run_after_frame(b1, b2, start, q, d);
            }
        },
        None => {},
    }
}

proof fn lemma_run_before_frame(b1: BoardView, b2: BoardView, start: Position, p: Position, d: Direction)
    requires
        start.valid(),
        p.valid(),
        same_line(start, p, d),
        p.coord(d) <= start.coord(d),
        agree_around(b1, b2, start, d),
    ensures
        b1.run_before(p, d) == b2.run_before(p, d),
    decreases p.coord(d),
{
    match p.prev_spec(d) {
        Some(q) => {
            assert(b1.tile(q) == b2.tile(q) && b1.is_blank(q) == b2.is_blank(q));
            if b1.is_letter(q) {
                lemma_run_before_frame(b1, b2, start, q, d);
            }
        },
        None => {},
    }
}

/// The sum of a cell for a direction depends only on the other cells of
/// its line in that direction.
pub proof fn lemma_cross_sum_frame(b1: BoardView, b2: BoardView, p: Position, d: Direction)
    requires
        p.valid(),
        agree_around(b1, b2, p, d),
    ensures
        b1.cross_sum(p, d) == b2.cross_sum(p, d),
{
    lemma_run_after_frame(b1, b2, p, p, d);
    lemma_run_before_frame(b1, b2, p, p, d);
    match p.next_spec(d) {
        Some(q) => {
            assert(b1.tile(q) == b2.tile(q));
        },
        None => {},
    }
    match p.prev_spec(d) {
        Some(q) => {
            assert(b1.tile(q) == b2.tile(q));
        },
        None => {},
    }
}

/// A score reads the sums only at the cells of the move.
pub proof fn lemma_score_reads_own_cells(b: BoardView, m: Move, s1: Seq<i32>, s2: Seq<i32>)
    requires
        forall|i: int|
            0 <= i < BoardView::move_cells(m) ==> s1[cell_index(line_cell(m.pos, m.dir, i))]
                == s2[#[trigger] cell_index(line_cell(m.pos, m.dir, i))],
    ensures
        b.score(m, s1) == b.score(m, s2),
{
    lemma_cross_total_same(b, m, s1, s2, BoardView::move_cells(m));
}

proof fn lemma_cross_total_same(b: BoardView, m: Move, s1: Seq<i32>, s2: Seq<i32>, upto: int)
    requires
        upto <= BoardView::move_cells(m),
        forall|i: int|
            0 <= i < BoardView::move_cells(m) ==> s1[cell_index(line_cell(m.pos, m.dir, i))]
                == s2[#[trigger] cell_index(line_cell(m.pos, m.dir, i))],
    ensures
        b.cross_total(m, s1, upto) == b.cross_total(m, s2, upto),
    decreases upto,
{
    if upto > 0 {
        lemma_cross_total_same(b, m, s1, s2, upto - 1);
        assert(s1[cell_index(line_cell(m.pos, m.dir, upto - 1))] == s2[cell_index(
            line_cell(m.pos, m.dir, upto - 1),
        )]);
    }
}

/// Laying a word leaves a cell as it was, unless the word lays a tile
/// on it.
pub proof fn lemma_place_frame(
    b: BoardView,
    word: Seq<u8>,
    pos: Position,
    dir: Direction,
    q: Position,
)
    requires
        b.wf(),
        b.playable(word, pos, dir),
        q.valid(),
        forall|i: int|
            0 <= i < word.len() && #[trigger] line_cell(pos, dir, i) == q ==> b.is_letter(q),
    ensures
        b.place(word, pos, dir).tile(q) == b.tile(q),
        b.place(word, pos, dir).is_blank(q) == b.is_blank(q),
{
    let idx = cell_index(q);
    let off = super::board::line_offset(pos, dir, idx);
    if 0 <= off < word.len() {
        super::board::lemma_line_offset(pos, dir, idx);
        super::board::lemma_line_cells(pos, dir, word.len() as int, off);
        let laid = line_cell(pos, dir, off);
        assert(cell_index(laid) == idx);
        assert(laid == q);
    }
}

/// Laying a word leaves the sums of a line on which it lays no tile as
/// they were.
pub proof fn lemma_placement_keeps_sum(
    b: BoardView,
    word: Seq<u8>,
    pos: Position,
    dir: Direction,
    c: Position,
    d: Direction,
)
    requires
        b.wf(),
        b.playable(word, pos, dir),
        c.valid(),
        forall|i: int|
            0 <= i < word.len() && same_line(c, #[trigger] line_cell(pos, dir, i), d) ==> b.is_letter(
                line_cell(pos, dir, i),
            ),
    ensures
        b.cross_sum(c, d) == b.place(word, pos, dir).cross_sum(c, d),
{
    let after = b.place(word, pos, dir);
    assert forall|q: Position| q.valid() && same_line(c, q, d) && q != c implies #[trigger] b.tile(q)
        == after.tile(q) && b.is_blank(q) == after.is_blank(q) by {
        lemma_place_frame(b, word, pos, dir, q);
    }
    lemma_cross_sum_frame(b, after, c, d);
}

/// The score of a move does not depend on whether the sums are computed
/// before or after another word is laid, provided that the word lays no
/// tile on the line of the move: the sums that the move reads are those
/// of its own cells along its own line, and the placement leaves that
/// line as it was.
pub proof fn lemma_score_sums_before_or_after(
    b: BoardView,
    word: Seq<u8>,
    pos: Position,
    dir: Direction,
    m: Move,
)
    requires
        b.wf(),
        b.playable(word, pos, dir),
        m.pos.valid(),
        forall|i: int|
            0 <= i < word.len() && same_line(m.pos, #[trigger] line_cell(pos, dir, i), m.dir)
                ==> b.is_letter(line_cell(pos, dir, i)),
    ensures
        b.score(m, cross_sum_table(b, m.dir)) == b.score(
            m,
            cross_sum_table(b.place(word, pos, dir), m.dir),
        ),
{
    let after = b.place(word, pos, dir);
    let s1 = cross_sum_table(b, m.dir);
    let s2 = cross_sum_table(after, m.dir);
    assert forall|i: int| 0 <= i < BoardView::move_cells(m) implies s1[cell_index(
        line_cell(m.pos, m.dir, i),
    )] == s2[#[trigger] cell_index(line_cell(m.pos, m.dir, i))] by {
        let c = line_cell(m.pos, m.dir, i);
        assert(c.valid());
        assert(cell_position(cell_index(c)) == c);
        assert(same_line(m.pos, c, m.dir));
        lemma_placement_keeps_sum(b, word, pos, dir, c, m.dir);
    }
    lemma_score_reads_own_cells(b, m, s1, s2);
}

} // verus!
