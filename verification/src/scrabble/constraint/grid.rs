//! The constraints of every cell of the board for placements along one
//! axis, and the stretches of the board on which words are searched.

use vstd::prelude::*;
use super::letter_set::LetterSet;
use super::searcher::{
    completes, cross_check_set, lemma_searcher_accepts, ConstraintSearcher,
    ConstraintSearcherState,
};
use super::{constraints_view, Constraint, ConstraintQuery, ConstraintView};
use crate::scrabble::board::{BoardView, ScrabbleBoard, Tile};
use crate::scrabble::lexicon::{lexicon_words, run, search_lexicon, LineMatcher};
use crate::scrabble::util::{Direction, Letter, Position};
use crate::scrabble::BOARD_SIZE;

verus! {

/// A position together with the direction in which it is moved.
#[derive(Debug, Clone, Copy)]
pub struct ConstraintIndex(pub Position, pub Direction);

impl ConstraintIndex {
    /// One step forward; the coordinate stays where it is at the largest
    /// value of its type.
    pub fn next(self) -> (r: Self)
        ensures
            r.1 == self.1,
            r.0 == self.0.with_coord(
                self.1,
                if self.0.coord(self.1) < usize::MAX {
                    (self.0.coord(self.1) + 1) as usize
                } else {
                    usize::MAX
                },
            ),
    {
        let mut moved = self;
        let c = moved.0.get(moved.1);
        moved.0.set(moved.1, c.saturating_add(1));
        moved
    }

    /// One step back; from 0 the coordinate wraps to the largest value of
    /// its type, which is on no board.
    pub fn back(self) -> (r: Self)
        ensures
            r.1 == self.1,
            r.0 == self.0.with_coord(
                self.1,
                if self.0.coord(self.1) > 0 {
                    (self.0.coord(self.1) - 1) as usize
                } else {
                    usize::MAX
                },
            ),
    {
        let mut moved = self;
        let c = moved.0.get(moved.1);
        moved.0.set(moved.1, c.wrapping_sub(1));
        moved
    }

    /// The same position, moved in the other direction.
    pub fn perp(self) -> (r: Self)
        ensures
            r.0 == self.0,
            r.1 == self.1.flip_spec(),
    {
        Self(self.0, self.1.flip())
    }
}

/// The position whose coordinate along `dir` is `along` and whose other
/// coordinate is `line`.
pub open spec fn grid_pos(dir: Direction, along: int, line: int) -> Position {
    match dir {
        Direction::Across => Position { row: line as usize, col: along as usize },
        Direction::Down => Position { row: along as usize, col: line as usize },
    }
}

fn make_pos(dir: Direction, along: usize, line: usize) -> (p: Position)
    ensures
        p == grid_pos(dir, along as int, line as int),
        p.coord(dir) == along,
        p.coord(dir.flip_spec()) == line,
{
    match dir {
        Direction::Across => Position { row: line, col: along },
        Direction::Down => Position { row: along, col: line },
    }
}

/// Where the unbroken run of letters that ends just before cell `i`
/// begins; `i` itself where no letter precedes it.
pub open spec fn prefix_start(line: Seq<Tile>, i: int) -> int
    decreases i,
{
    if 0 < i <= line.len() && line[i - 1] is Letter {
        prefix_start(line, i - 1)
    } else {
        i
    }
}

/// One past the end of the unbroken run of letters that begins at cell
/// `j`; `j` itself where no letter is there.
pub open spec fn suffix_end(line: Seq<Tile>, j: int) -> int
    decreases line.len() - j,
{
    if 0 <= j < line.len() && line[j] is Letter {
        suffix_end(line, j + 1)
    } else {
        j
    }
}

/// The run of letters before a cell starts on the line, and all its cells
/// hold letters.
pub proof fn lemma_prefix_start_range(line: Seq<Tile>, i: int)
    requires
        0 <= i <= line.len(),
    ensures
        0 <= prefix_start(line, i) <= i,
        forall|j: int| prefix_start(line, i) <= j < i ==> (#[trigger] line[j]) is Letter,
    decreases i,
{
    if 0 < i && line[i - 1] is Letter {
        lemma_prefix_start_range(line, i - 1);
    }
}

/// The run of letters from a cell on ends on the line, and all its cells
/// hold letters.
pub proof fn lemma_suffix_end_range(line: Seq<Tile>, j: int)
    requires
        0 <= j <= line.len(),
    ensures
        j <= suffix_end(line, j) <= line.len(),
        forall|c: int| j <= c < suffix_end(line, j) ==> (#[trigger] line[c]) is Letter,
    decreases line.len() - j,
{
    if j < line.len() && line[j] is Letter {
        lemma_suffix_end_range(line, j + 1);
    }
}

/// The letters on the cells from `from` up to `to`.
pub open spec fn letters_between(line: Seq<Tile>, from: int, to: int) -> Seq<Letter> {
    Seq::new((to - from) as nat, |k: int| line[from + k]->Letter_0)
}

/// The letters directly before cell `i`, in reading order.
pub open spec fn prefix_of(line: Seq<Tile>, i: int) -> Seq<Letter> {
    letters_between(line, prefix_start(line, i), i)
}

/// The letters directly after cell `i`, in reading order.
pub open spec fn suffix_of(line: Seq<Tile>, i: int) -> Seq<Letter> {
    letters_between(line, i + 1, suffix_end(line, i + 1))
}

/// What cell `i` of a line asks of a word laid across the line: its own
/// letter where it has one; any letter where no letter touches it; else
/// the letters that make a word of the vocabulary of the letters before
/// it, itself and the letters after it.
pub open spec fn line_constraint(line: Seq<Tile>, i: int, words: Set<Seq<u8>>) -> ConstraintView {
    match line[i] {
        Tile::Letter(l) => ConstraintView::Filled(l),
        _ => if prefix_of(line, i).len() == 0 && suffix_of(line, i).len() == 0 {
            ConstraintView::Empty(Set::<u8>::full())
        } else {
            ConstraintView::Empty(cross_check_set(prefix_of(line, i), suffix_of(line, i), words))
        },
    }
}

/// The tiles of one line of the board that runs in `dir`: row `line` for
/// `Across`, column `line` for `Down`.
pub open spec fn board_line(b: BoardView, dir: Direction, line: int) -> Seq<Tile> {
    Seq::new(BOARD_SIZE as nat, |j: int| b.tile(grid_pos(dir, j, line)))
}

/// What the cell at `p` asks of a word that crosses direction `dir`.
pub open spec fn board_constraint(
    b: BoardView,
    dir: Direction,
    p: Position,
    words: Set<Seq<u8>>,
) -> ConstraintView {
    line_constraint(board_line(b, dir, p.coord(dir.flip_spec()) as int), p.coord(dir) as int, words)
}

/// The first cell at or after `from` that closes an open stretch: one
/// that is filled or restricted, or the cell `stop`; 15 where none is.
pub open spec fn terminator(line: Seq<ConstraintView>, from: int, stop: int) -> int
    decreases BOARD_SIZE - from,
{
    if from < 0 || from >= BOARD_SIZE {
        BOARD_SIZE as int
    } else if from == stop || !line[from].unrestricted() {
        from
    } else {
        terminator(line, from + 1, stop)
    }
}

/// The cells from `from` up to `to` are free, unrestricted and none of
/// them is the cell `stop`.
pub open spec fn open_stretch(line: Seq<ConstraintView>, from: int, to: int, stop: int) -> bool {
    forall|j: int| from <= j < to ==> #[trigger] open_cell(line, j, stop)
}

/// Cell `j` is free and unrestricted, and is not the cell `stop`.
pub open spec fn open_cell(line: Seq<ConstraintView>, j: int, stop: int) -> bool {
    j != stop && line[j].unrestricted()
}

/// Some cell of the line at or after `start` holds no letter.
pub open spec fn has_free_cell(line: Seq<ConstraintView>, start: int) -> bool {
    exists|j: int| start <= j < BOARD_SIZE && !(#[trigger] line[j] is Filled)
}

/// A search starts at cell `start` of the line: the cell does not follow
/// a letter, a closing cell comes at or after it, and a tile can still be
/// laid at or after it. So a line that is filled throughout has no
/// search.
pub open spec fn emits(line: Seq<ConstraintView>, start: int, stop: int) -> bool {
    &&& 0 <= start < BOARD_SIZE
    &&& !(start > 0 && line[start - 1] is Filled)
    &&& terminator(line, start, stop) < BOARD_SIZE
    &&& has_free_cell(line, start)
}

/// The least length of a word laid from `start`: long enough to cover
/// the closing cell, and never less than two.
pub open spec fn min_length_of(line: Seq<ConstraintView>, start: int, stop: int) -> int {
    if terminator(line, start, stop) - start + 1 >= 2 {
        terminator(line, start, stop) - start + 1
    } else {
        2
    }
}

/// One search that a grid asks for, as plain values: the line, the cell
/// of the line at which it starts, and the least length of a word.
pub struct QueryView {
    pub line: int,
    pub start: int,
    pub min_length: int,
}

/// The searches of line `k` that start below cell `upto`, by ascending
/// start.
pub open spec fn stretch_queries(line: Seq<ConstraintView>, k: int, stop: int, upto: int) -> Seq<
    QueryView,
>
    decreases upto,
{
    if upto <= 0 {
        Seq::empty()
    } else if emits(line, upto - 1, stop) {
        stretch_queries(line, k, stop, upto - 1).push(
            QueryView { line: k, start: upto - 1, min_length: min_length_of(line, upto - 1, stop) },
        )
    } else {
        stretch_queries(line, k, stop, upto - 1)
    }
}

proof fn lemma_terminator_range(line: Seq<ConstraintView>, from: int, stop: int)
    requires
        0 <= from <= BOARD_SIZE,
    ensures
        from <= terminator(line, from, stop) <= BOARD_SIZE,
        open_stretch(line, from, terminator(line, from, stop), stop),
        terminator(line, from, stop) < BOARD_SIZE ==> terminator(line, from, stop) == stop || !line[terminator(
            line,
            from,
            stop,
        )].unrestricted(),
    decreases BOARD_SIZE - from,
{
    if from < BOARD_SIZE && !(from == stop || !line[from].unrestricted()) {
        lemma_terminator_range(line, from + 1, stop);
        let t = terminator(line, from + 1, stop);
        assert(terminator(line, from, stop) == t);
        assert forall|j: int| from <= j < t implies #[trigger] open_cell(line, j, stop) by {
            if j > from {
                assert(open_cell(line, j, stop));
            }
        }
    }
}

/// Once no closing cell follows, none follows any later cell either.
proof fn lemma_terminator_none(line: Seq<ConstraintView>, from: int, later: int, stop: int)
    requires
        0 <= from <= later <= BOARD_SIZE,
        terminator(line, from, stop) == BOARD_SIZE,
    ensures
        terminator(line, later, stop) == BOARD_SIZE,
    decreases later - from,
{
    if from < later {
        lemma_terminator_range(line, from, stop);
        lemma_terminator_none(line, from + 1, later, stop);
    }
}

proof fn lemma_no_starts_after(line: Seq<ConstraintView>, k: int, stop: int, from: int, upto: int)
    requires
        0 <= from <= upto <= BOARD_SIZE,
        terminator(line, from, stop) == BOARD_SIZE,
    ensures
        stretch_queries(line, k, stop, upto) == stretch_queries(line, k, stop, from),
    decreases upto - from,
{
    if from < upto {
        lemma_no_starts_after(line, k, stop, from, upto - 1);
        lemma_terminator_none(line, from, upto - 1, stop);
    }
}

proof fn lemma_stretch_grows(line: Seq<ConstraintView>, from: int, to: int, stop: int)
    requires
        open_stretch(line, from, to, stop),
        to != stop,
        line[to].unrestricted(),
    ensures
        open_stretch(line, from, to + 1, stop),
{
    assert forall|j: int| from <= j < to + 1 implies #[trigger] open_cell(line, j, stop) by {
        if j < to {
            assert(open_cell(line, j, stop));
        }
    }
}

/// A stretch of open cells that ends at a closing cell, or at the end of
/// the line, ends at the terminator.
proof fn lemma_terminator_is(line: Seq<ConstraintView>, from: int, to: int, stop: int)
    requires
        0 <= from <= to <= BOARD_SIZE,
        open_stretch(line, from, to, stop),
        to == BOARD_SIZE || to == stop || !line[to].unrestricted(),
    ensures
        terminator(line, from, stop) == to,
    decreases to - from,
{
    if from < to {
        assert(open_cell(line, from, stop));
        assert forall|j: int| from + 1 <= j < to implies #[trigger] open_cell(line, j, stop) by {
            assert(open_cell(line, j, stop));
        }
        lemma_terminator_is(line, from + 1, to, stop);
    }
}

/// The constraints of all cells for words that cross one direction.
pub struct ConstraintGrid {
    /// The constraints, first by the coordinate along `dir`, then by the
    /// other coordinate.
    state: Vec<Vec<Constraint>>,
    /// The direction along which neighbouring letters restrict a cell.
    dir: Direction,
}

impl ConstraintGrid {
    /// The grid has 15 lines of 15 cells.
    #[verifier::type_invariant]
    pub closed spec fn inv(self) -> bool {
        self.state@.len() == BOARD_SIZE && forall|k: int|
            0 <= k < BOARD_SIZE ==> (#[trigger] self.state@[k])@.len() == BOARD_SIZE
    }

    /// The direction along which neighbouring letters restrict a cell.
    /// Words are searched in the other direction.
    pub closed spec fn dir_spec(&self) -> Direction {
        self.dir
    }

    /// The constraints of the cells whose coordinate along the grid's
    /// direction is `k`, ordered by the other coordinate.
    pub closed spec fn line(&self, k: int) -> Seq<Constraint> {
        self.state@[k]@
    }

    /// The constraint of the cell at `p`.
    pub open spec fn cell(&self, p: Position) -> ConstraintView {
        self.line(p.coord(self.dir_spec()) as int)[p.coord(self.dir_spec().flip_spec()) as int]@
    }

    /// No cell of the grid holds a letter.
    pub open spec fn no_letters(&self) -> bool {
        forall|k: int, j: int|
            0 <= k < BOARD_SIZE && 0 <= j < BOARD_SIZE ==> !((#[trigger] self.line(k)[j])@ is Filled)
    }

    /// The cell of line `k` that closes a stretch whatever it holds: the
    /// centre of a board without letters.
    pub open spec fn stop_of(&self, k: int) -> int {
        if self.no_letters() && k == 7 {
            7
        } else {
            -1
        }
    }

    /// The searches that the first `upto` lines ask for, line by line and
    /// in each line by ascending start.
    pub open spec fn queries_upto(&self, upto: int) -> Seq<QueryView>
        decreases upto,
    {
        if upto <= 0 {
            Seq::empty()
        } else {
            self.queries_upto(upto - 1) + self.line_queries(upto - 1, BOARD_SIZE as int)
        }
    }

    /// The searches of line `k` that start below cell `upto`.
    pub open spec fn line_queries(&self, k: int, upto: int) -> Seq<QueryView> {
        stretch_queries(constraints_view(self.line(k)), k, self.stop_of(k), upto)
    }

    /// The queries are the searches that `qs` names, one by one.
    pub open spec fn describes_all(&self, queries: Seq<ConstraintQuery<'_>>, qs: Seq<QueryView>) -> bool {
        &&& queries.len() == qs.len()
        &&& forall|i: int| 0 <= i < qs.len() ==> self.describes(#[trigger] queries[i], qs[i])
    }

    /// The query is the search that `q` names.
    pub open spec fn describes(&self, query: ConstraintQuery<'_>, q: QueryView) -> bool {
        &&& query.dir == self.dir_spec().flip_spec()
        &&& query.pos == grid_pos(self.dir_spec(), q.line, q.start)
        &&& query.constraints@ == self.line(q.line).skip(q.start)
        &&& query.min_length == q.min_length
    }

    /// The letters directly before and after cell `i` of a line.
    fn neighbours(line: &[Tile], i: usize) -> (r: (Vec<Letter>, Vec<Letter>))
        requires
            i < line@.len(),
        ensures
            r.0@ == prefix_of(line@, i as int),
            r.1@ == suffix_of(line@, i as int),
    {
        let mut prefix: Vec<Letter> = Vec::with_capacity(BOARD_SIZE);
        let mut suffix: Vec<Letter> = Vec::with_capacity(BOARD_SIZE);
        let n = line.len();
        let mut j: usize = i;
        loop
            invariant_except_break
                j <= i < line@.len(),
                prefix_start(line@, i as int) == prefix_start(line@, j as int),
                prefix@ == letters_between(line@, j as int, i as int),
            ensures
                prefix@ == prefix_of(line@, i as int),
            decreases j,
        {
            if j == 0 {
                break ;
            }
            match line[j - 1] {
                Tile::Letter(l) => {
                    prefix.insert(0, l);
                    j -= 1;
                    assert(prefix@ =~= letters_between(line@, j as int, i as int));
                },
                _ => {
                    break ;
                },
            }
        }
        let mut e: usize = i + 1;
        loop
            invariant_except_break
                i < e <= line@.len(),
                n == line@.len(),
                suffix_end(line@, i as int + 1) == suffix_end(line@, e as int),
                suffix@ == letters_between(line@, i as int + 1, e as int),
            ensures
                suffix@ == suffix_of(line@, i as int),
            decreases line@.len() - e,
        {
            if e >= n {
                break ;
            }
            match line[e] {
                Tile::Letter(l) => {
                    suffix.push(l);
                    e += 1;
                    assert(suffix@ =~= letters_between(line@, i as int + 1, e as int));
                },
                _ => {
                    break ;
                },
            }
        }
        (prefix, suffix)
    }

    /// The letters that the vocabulary allows between the given letters.
    fn cross_check(prefix: &Vec<Letter>, suffix: &Vec<Letter>, vocab: &fst::Set<Vec<u8>>) -> (set:
        LetterSet)
        ensures
            set@ == cross_check_set(prefix@, suffix@, lexicon_words(*vocab)),
    {
        let p = prefix.len();
        let s = suffix.len();
        let automaton = ConstraintSearcher { prefix: prefix.as_slice(), suffix: suffix.as_slice() };
        let ghost m = automaton;
        let hits = search_lexicon(vocab, automaton);
        let mut letter_set = LetterSet::empty();
        let mut k: usize = 0;
        while k < hits.len()
            invariant
                k <= hits@.len(),
                forall|x: u8|
                    letter_set@.contains(x) <==> exists|i: int|
                        0 <= i < k && (#[trigger] hits@[i]).state == Some(
                            ConstraintSearcherState::Done(x),
                        ),
            decreases hits@.len() - k,
        {
            if let Some(ConstraintSearcherState::Done(l)) = hits[k].state {
                letter_set.insert(l);
            }
            k += 1;
        }
        proof {
            let words = lexicon_words(*vocab);
            let target = cross_check_set(prefix@, suffix@, words);
            assert forall|x: u8| letter_set@.contains(x) <==> target.contains(x) by {
                if letter_set@.contains(x) {
                    let i = choose|i: int|
                        0 <= i < hits@.len() && (#[trigger] hits@[i]).state == Some(
                            ConstraintSearcherState::Done(x),
                        );
                    let w = hits@[i].word@;
                    assert(words.contains(w));
                    lemma_searcher_accepts(&m, w);
                    assert(completes(prefix@, suffix@, x, w));
                }
                if target.contains(x) {
                    let w = choose|w: Seq<u8>| words.contains(w) && completes(prefix@, suffix@, x, w);
                    lemma_searcher_accepts(&m, w);
                    assert(m.is_match_spec(run(&m, w)));
                    let i = choose|i: int| 0 <= i < hits@.len() && hits@[i].word@ == w;
                    assert(hits@[i].state == Some(ConstraintSearcherState::Done(x)));
                }
            }
            assert(letter_set@ =~= target);
        }
        letter_set
    }

    /// Fills in the constraint of each cell of one line, for words that
    /// cross the line.
    pub fn fill_constraints(
        line: &[Tile],
        constraints: &mut [Constraint],
        vocab: &fst::Set<Vec<u8>>,
    )
        requires
            old(constraints)@.len() <= line@.len(),
        ensures
            final(constraints)@.len() == old(constraints)@.len(),
            forall|i: int|
                0 <= i < final(constraints)@.len() ==> (#[trigger] final(constraints)@[i])@
                    == line_constraint(line@, i, lexicon_words(*vocab)),
    {
        let n = constraints.len();
        let mut i: usize = 0;
        while i < n
            invariant
                i <= n,
                constraints@.len() == n,
                n <= line@.len(),
                forall|k: int|
                    0 <= k < i ==> (#[trigger] constraints@[k])@ == line_constraint(
                        line@,
                        k,
                        lexicon_words(*vocab),
                    ),
            decreases n - i,
        {
            let constraint = match line[i] {
                Tile::Letter(l) => Constraint::Filled(l),
                _ => {
                    let (prefix, suffix) = Self::neighbours(line, i);
                    let letters = if prefix.is_empty() && suffix.is_empty() {
                        LetterSet::any()
                    } else {
                        Self::cross_check(&prefix, &suffix, vocab)
                    };
                    Constraint::Empty(letters)
                },
            };
            constraints[i] = constraint;
            i += 1;
        }
    }

    /// Builds the constraints of a board for words that cross `dir`.
    pub fn build(curr_board: &ScrabbleBoard, dir: Direction, vocab: &fst::Set<Vec<u8>>) -> (grid:
        Self)
        ensures
            grid.dir_spec() == dir,
            forall|p: Position|
                p.valid() ==> #[trigger] grid.cell(p) == board_constraint(
                    curr_board@,
                    dir,
                    p,
                    lexicon_words(*vocab),
                ),
    {
        let ghost b = curr_board@;
        let ghost words = lexicon_words(*vocab);
        let mut lines: Vec<Vec<Constraint>> = Vec::new();
        let mut i: usize = 0;
        while i < BOARD_SIZE
            invariant
                i <= BOARD_SIZE,
                b == curr_board@,
                words == lexicon_words(*vocab),
                lines@.len() == i,
                forall|a: int|
                    0 <= a < i ==> (#[trigger] lines@[a])@.len() == BOARD_SIZE && forall|j: int|
                        0 <= j < BOARD_SIZE ==> (#[trigger] lines@[a]@[j])@ == line_constraint(
                            board_line(b, dir, a),
                            j,
                            words,
                        ),
            decreases BOARD_SIZE - i,
        {
            let mut tiles: Vec<Tile> = Vec::new();
            let mut constraints: Vec<Constraint> = Vec::new();
            let mut j: usize = 0;
            while j < BOARD_SIZE
                invariant
                    i < BOARD_SIZE,
                    j <= BOARD_SIZE,
                    b == curr_board@,
                    tiles@.len() == j,
                    constraints@.len() == j,
                    forall|k: int| 0 <= k < j ==> #[trigger] tiles@[k] == b.tile(grid_pos(dir, k, i as int)),
                decreases BOARD_SIZE - j,
            {
                tiles.push(curr_board.tile(make_pos(dir, j, i)));
                constraints.push(Constraint::Empty(LetterSet::empty()));
                j += 1;
            }
            assert(tiles@ =~= board_line(b, dir, i as int));
            Self::fill_constraints(tiles.as_slice(), constraints.as_mut_slice(), vocab);
            lines.push(constraints);
            i += 1;
        }
        let mut state: Vec<Vec<Constraint>> = Vec::new();
        let mut j: usize = 0;
        while j < BOARD_SIZE
            invariant
                j <= BOARD_SIZE,
                lines@.len() == BOARD_SIZE,
                forall|a: int|
                    0 <= a < BOARD_SIZE ==> (#[trigger] lines@[a])@.len() == BOARD_SIZE && forall|
                        c: int,
                    |
                        0 <= c < BOARD_SIZE ==> (#[trigger] lines@[a]@[c])@ == line_constraint(
                            board_line(b, dir, a),
                            c,
                            words,
                        ),
                state@.len() == j,
                forall|c: int|
                    0 <= c < j ==> (#[trigger] state@[c])@.len() == BOARD_SIZE && forall|a: int|
                        0 <= a < BOARD_SIZE ==> (#[trigger] state@[c]@[a])@ == line_constraint(
                            board_line(b, dir, a),
                            c,
                            words,
                        ),
            decreases BOARD_SIZE - j,
        {
            let mut row: Vec<Constraint> = Vec::new();
            let mut i: usize = 0;
            while i < BOARD_SIZE
                invariant
                    j < BOARD_SIZE,
                    i <= BOARD_SIZE,
                    lines@.len() == BOARD_SIZE,
                    forall|a: int|
                        0 <= a < BOARD_SIZE ==> (#[trigger] lines@[a])@.len() == BOARD_SIZE
                            && forall|c: int|
                            0 <= c < BOARD_SIZE ==> (#[trigger] lines@[a]@[c])@ == line_constraint(
                                board_line(b, dir, a),
                                c,
                                words,
                            ),
                    row@.len() == i,
                    forall|a: int|
                        0 <= a < i ==> (#[trigger] row@[a])@ == line_constraint(
                            board_line(b, dir, a),
                            j as int,
                            words,
                        ),
                decreases BOARD_SIZE - i,
            {
                assert(lines@[i as int]@.len() == BOARD_SIZE);
                row.push(lines[i][j]);
                i += 1;
            }
            state.push(row);
            j += 1;
        }
        let grid = Self { state, dir };
        proof {
            assert forall|p: Position| p.valid() implies #[trigger] grid.cell(p) == board_constraint(
                b,
                dir,
                p,
                words,
            ) by {
                let c = p.coord(dir) as int;
                let a = p.coord(dir.flip_spec()) as int;
                assert(grid.line(c) == state@[c]@);
                assert(state@[c]@[a]@ == line_constraint(board_line(b, dir, a), c, words));
            }
        }
        grid
    }

    /// The direction along which neighbouring letters restrict a cell.
    pub fn direction(&self) -> (d: Direction)
        ensures
            d == self.dir_spec(),
    {
        self.dir
    }

    /// The constraint of the cell at `pos`.
    pub fn get(&self, pos: Position) -> (c: Constraint)
        requires
            pos.valid(),
        ensures
            c@ == self.cell(pos),
    {
        proof {
            use_type_invariant(self);
        }
        self.state[pos.get(self.dir)][pos.get(self.dir.flip())]
    }

    /// The cell at `pos` holds a letter.
    pub fn is_filled(&self, pos: Position) -> (r: bool)
        requires
            pos.valid(),
        ensures
            r == (self.cell(pos) is Filled),
    {
        proof {
            use_type_invariant(self);
        }
        match self.state[pos.get(self.dir)][pos.get(self.dir.flip())] {
            Constraint::Filled(_) => true,
            _ => false,
        }
    }

    /// No cell holds a letter.
    pub fn is_empty(&self) -> (r: bool)
        ensures
            r == self.no_letters(),
    {
        proof {
            use_type_invariant(self);
        }
        let mut i: usize = 0;
        while i < BOARD_SIZE
            invariant
                i <= BOARD_SIZE,
                forall|k: int, j: int|
                    0 <= k < i && 0 <= j < BOARD_SIZE ==> !((#[trigger] self.line(k)[j])@ is Filled),
            decreases BOARD_SIZE - i,
        {
            let mut j: usize = 0;
            while j < BOARD_SIZE
                invariant
                    i < BOARD_SIZE,
                    j <= BOARD_SIZE,
                    forall|k: int, c: int|
                        0 <= k < i && 0 <= c < BOARD_SIZE ==> !((#[trigger] self.line(k)[c])@ is Filled),
                    forall|c: int| 0 <= c < j ==> !((#[trigger] self.line(i as int)[c])@ is Filled),
                decreases BOARD_SIZE - j,
            {
                let pos = make_pos(self.dir, i, j);
                if self.is_filled(pos) {
                    assert(self.line(i as int)[j as int]@ is Filled);
                    return false;
                }
                j += 1;
            }
            i += 1;
        }
        true
    }

    /// Computes the searches that the grid asks for. Each starts at a
    /// cell that does not follow a letter, runs to the end of its line,
    /// and asks for words long enough to reach the next cell that is
    /// filled or restricted, or the centre of a board without letters.
    /// A start from which every cell to the end of the line holds a
    /// letter gives no search.
    pub fn compute_queries(&self) -> (queries: Vec<ConstraintQuery<'_>>)
        ensures
            self.describes_all(queries@, self.queries_upto(BOARD_SIZE as int)),
            forall|i: int| 0 <= i < queries@.len() ==> (#[trigger] queries@[i]).min_length >= 2,
    {
        proof {
            use_type_invariant(self);
        }
        let is_empty = self.is_empty();
        let across = self.dir.flip();
        let mut out: Vec<ConstraintQuery<'_>> = Vec::new();
        let mut k: usize = 0;
        while k < BOARD_SIZE
            invariant
                k <= BOARD_SIZE,
                is_empty == self.no_letters(),
                across == self.dir.flip_spec(),
                self.state@.len() == BOARD_SIZE,
                forall|c: int| 0 <= c < BOARD_SIZE ==> (#[trigger] self.state@[c])@.len() == BOARD_SIZE,
                self.describes_all(out@, self.queries_upto(k as int)),
                forall|i: int| 0 <= i < out@.len() ==> (#[trigger] out@[i]).min_length >= 2,
            decreases BOARD_SIZE - k,
        {
            let line_slice: &[Constraint] = self.state[k].as_slice();
            let ghost line = constraints_view(self.line(k as int));
            let ghost stop = self.stop_of(k as int);
            let ghost done = self.queries_upto(k as int);
            let mut head: usize = 0;
            loop
                invariant_except_break
                    k < BOARD_SIZE,
                    head <= BOARD_SIZE,
                    is_empty == self.no_letters(),
                    across == self.dir.flip_spec(),
                    line_slice@ == self.line(k as int),
                    line_slice@.len() == BOARD_SIZE,
                    line == constraints_view(self.line(k as int)),
                    stop == self.stop_of(k as int),
                    done == self.queries_upto(k as int),
                    self.describes_all(out@, done + stretch_queries(line, k as int, stop, head as int)),
                    forall|i: int| 0 <= i < out@.len() ==> (#[trigger] out@[i]).min_length >= 2,
                ensures
                    self.describes_all(out@, self.queries_upto(k as int + 1)),
                    forall|i: int| 0 <= i < out@.len() ==> (#[trigger] out@[i]).min_length >= 2,
                decreases BOARD_SIZE - head,
            {
                // skip the cells just after a letter
                let ghost head_before = head;
                loop
                    invariant_except_break
                        head_before <= head <= BOARD_SIZE,
                        line_slice@.len() == BOARD_SIZE,
                        line == constraints_view(line_slice@),
                        self.describes_all(
                            out@,
                            done + stretch_queries(line, k as int, stop, head as int),
                        ),
                    ensures
                        head_before <= head <= BOARD_SIZE,
                        head < BOARD_SIZE ==> !(head > 0 && line[head as int - 1] is Filled),
                        self.describes_all(
                            out@,
                            done + stretch_queries(line, k as int, stop, head as int),
                        ),
                    decreases BOARD_SIZE - head,
                {
                    if head >= BOARD_SIZE || head == 0 {
                        break ;
                    }
                    match line_slice[head - 1] {
                        Constraint::Filled(_) => {
                            assert(line[head as int - 1] is Filled);
                            head += 1;
                        },
                        Constraint::Empty(_) => {
                            assert(!(line[head as int - 1] is Filled));
                            break ;
                        },
                    }
                }
                if head >= BOARD_SIZE {
                    break ;
                }
                let sub_slice = vstd::slice::slice_subrange(line_slice, head, BOARD_SIZE);
                let place = head;
                head += 1;
                // the first cell that is filled or restricted
                let mut end: usize = place;
                loop
                    invariant_except_break
                        place <= end <= BOARD_SIZE,
                        k < BOARD_SIZE,
                        is_empty == self.no_letters(),
                        stop == self.stop_of(k as int),
                        line_slice@.len() == BOARD_SIZE,
                        line == constraints_view(line_slice@),
                        open_stretch(line, place as int, end as int, stop),
                    ensures
                        place <= end <= BOARD_SIZE,
                        open_stretch(line, place as int, end as int, stop),
                        end == BOARD_SIZE || end == stop || !line[end as int].unrestricted(),
                    decreases BOARD_SIZE - end,
                {
                    if end >= BOARD_SIZE {
                        break ;
                    }
                    if is_empty && k == 7 && end == 7 {
                        break ;
                    }
                    match line_slice[end] {
                        Constraint::Empty(letter_set) => {
                            if letter_set.is_any() {
                                assert(line[end as int].unrestricted());
                                assert(end != stop);
                                proof {
                                    lemma_stretch_grows(line, place as int, end as int, stop);
                                }
                                end += 1;
                            } else {
                                assert(!line[end as int].unrestricted());
                                break ;
                            }
                        },
                        Constraint::Filled(_) => {
                            assert(!line[end as int].unrestricted());
                            break ;
                        },
                    }
                }
                proof {
                    lemma_terminator_is(line, place as int, end as int, stop);
                }
                if end == BOARD_SIZE {
                    // nothing closes this stretch, nor any later one
                    proof {
                        lemma_no_starts_after(
                            line,
                            k as int,
                            stop,
                            place as int,
                            BOARD_SIZE as int,
                        );
                    }
                    break ;
                }
                // a word needs a cell for a tile: look for one
                let mut free: usize = place;
                loop
                    invariant_except_break
                        place <= free <= BOARD_SIZE,
                        line_slice@.len() == BOARD_SIZE,
                        line == constraints_view(line_slice@),
                        forall|c: int| place <= c < free ==> (#[trigger] line[c]) is Filled,
                    ensures
                        place <= free <= BOARD_SIZE,
                        (free < BOARD_SIZE) == has_free_cell(line, place as int),
                    decreases BOARD_SIZE - free,
                {
                    if free >= BOARD_SIZE {
                        break ;
                    }
                    match line_slice[free] {
                        Constraint::Filled(_) => {
                            assert(line[free as int] is Filled);
                            free += 1;
                        },
                        Constraint::Empty(_) => {
                            assert(!(line[free as int] is Filled));
                            break ;
                        },
                    }
                }
                if free < BOARD_SIZE {
                    let span = end - place + 1;
                    let query = ConstraintQuery {
                        constraints: sub_slice,
                        dir: across,
                        pos: make_pos(self.dir, k, place),
                        min_length: if span >= 2 {
                            span
                        } else {
                            2
                        },
                    };
                    proof {
                        let q = QueryView {
                            line: k as int,
                            start: place as int,
                            min_length: min_length_of(line, place as int, stop),
                        };
                        assert(emits(line, place as int, stop));
                        assert(stretch_queries(line, k as int, stop, head as int)
                            == stretch_queries(line, k as int, stop, place as int).push(q));
                        assert(sub_slice@ =~= self.line(k as int).skip(place as int));
                        assert(self.describes(query, q));
                        assert(done + stretch_queries(line, k as int, stop, head as int) =~= (done
                            + stretch_queries(line, k as int, stop, place as int)).push(q));
                    }
                    out.push(query);
                } else {
                    assert(!emits(line, place as int, stop));
                }
            }
            k += 1;
        }
        out
    }
}

/// Every search of a line starts at a cell at which a search may start,
/// and asks for the least length that belongs to that cell.
proof fn lemma_stretch_queries_sound(
    line: Seq<ConstraintView>,
    k: int,
    stop: int,
    upto: int,
    i: int,
)
    requires
        0 <= upto <= BOARD_SIZE,
        0 <= i < stretch_queries(line, k, stop, upto).len(),
    ensures
        ({
            let q = stretch_queries(line, k, stop, upto)[i];
            &&& q.line == k
            &&& 0 <= q.start < upto
            &&& emits(line, q.start, stop)
            &&& q.min_length == min_length_of(line, q.start, stop)
        }),
    decreases upto,
{
    if upto > 0 {
        let before = stretch_queries(line, k, stop, upto - 1);
        if i < before.len() {
            lemma_stretch_queries_sound(line, k, stop, upto - 1, i);
        }
    }
}

/// Every search of a grid belongs to one of its lines, and starts there
/// at a cell at which a search may start.
pub proof fn lemma_queries_sound(g: ConstraintGrid, upto: int, i: int)
    requires
        0 <= upto <= BOARD_SIZE,
        0 <= i < g.queries_upto(upto).len(),
    ensures
        ({
            let q = g.queries_upto(upto)[i];
            let line = constraints_view(g.line(q.line));
            &&& 0 <= q.line < upto
            &&& 0 <= q.start < BOARD_SIZE
            &&& emits(line, q.start, g.stop_of(q.line))
            &&& q.min_length == min_length_of(line, q.start, g.stop_of(q.line))
        }),
    decreases upto,
{
    if upto > 0 {
        let before = g.queries_upto(upto - 1);
        if i < before.len() {
            lemma_queries_sound(g, upto - 1, i);
        } else {
            lemma_stretch_queries_sound(
                constraints_view(g.line(upto - 1)),
                upto - 1,
                g.stop_of(upto - 1),
                BOARD_SIZE as int,
                i - before.len(),
            );
        }
    }
}

/// Every search that a grid built from a board asks for is rooted at an
/// anchor: the word must have at least two letters and must reach, within
/// its least length, a cell that holds a letter, or a free cell next to a
/// letter, or the centre of a board without letters. The start of the
/// search itself may lie before that cell.
pub proof fn lemma_query_is_anchored(
    g: ConstraintGrid,
    b: BoardView,
    words: Set<Seq<u8>>,
    i: int,
)
    requires
        g.inv(),
        b.wf(),
        forall|p: Position|
            p.valid() ==> #[trigger] g.cell(p) == board_constraint(b, g.dir_spec(), p, words),
        0 <= i < g.queries_upto(BOARD_SIZE as int).len(),
    ensures
        ({
            let q = g.queries_upto(BOARD_SIZE as int)[i];
            let line = constraints_view(g.line(q.line));
            let t = terminator(line, q.start, g.stop_of(q.line));
            let p = grid_pos(g.dir_spec(), q.line, t);
            &&& q.min_length >= 2
            &&& q.start <= t < q.start + q.min_length
            &&& p.valid()
            &&& (b.is_letter(p) || b.is_anchor(p) || (p == Position { row: 7, col: 7 } && forall|
                c: Position,
            |
                c.valid() ==> !b.is_letter(c)))
        }),
{
    lemma_queries_sound(g, BOARD_SIZE as int, i);
    let dir = g.dir_spec();
    let q = g.queries_upto(BOARD_SIZE as int)[i];
    let k = q.line;
    let line = constraints_view(g.line(k));
    let stop = g.stop_of(k);
    let t = terminator(line, q.start, stop);
    let p = grid_pos(dir, k, t);
    lemma_terminator_range(line, q.start, stop);
    assert(p.valid());
    assert(p.coord(dir) == k && p.coord(dir.flip_spec()) == t);
    assert(g.cell(p) == line[t]);
    let bl = board_line(b, dir, t);
    assert(bl[k] == b.tile(p));
    if t == stop {
        assert(g.no_letters());
        assert forall|c: Position| c.valid() implies !b.is_letter(c) by {
            let ck = c.coord(dir) as int;
            let cj = c.coord(dir.flip_spec()) as int;
            assert(!(g.line(ck)[cj]@ is Filled));
            assert(g.cell(c) == board_constraint(b, dir, c, words));
            assert(board_line(b, dir, cj)[ck] == b.tile(grid_pos(dir, ck, cj)));
            assert(grid_pos(dir, ck, cj) == c);
        }
    } else {
        assert(!line[t].unrestricted());
        assert(line[t] == line_constraint(bl, k, words));
        if !b.is_letter(p) {
            lemma_prefix_start_range(bl, k);
            lemma_suffix_end_range(bl, k + 1);
            assert(!(prefix_of(bl, k).len() == 0 && suffix_of(bl, k).len() == 0));
            if prefix_of(bl, k).len() > 0 {
                assert(prefix_start(bl, k) < k);
                assert(bl[k - 1] is Letter);
                assert(bl[k - 1] == b.tile(grid_pos(dir, k - 1, t)));
                assert(p.prev_spec(dir) == Some(grid_pos(dir, k - 1, t)));
            } else {
                assert(suffix_end(bl, k + 1) > k + 1);
                assert(bl[k + 1] is Letter);
                assert(bl[k + 1] == b.tile(grid_pos(dir, k + 1, t)));
                assert(p.next_spec(dir) == Some(grid_pos(dir, k + 1, t)));
            }
            crate::scrabble::board::lemma_neighbour_touches(b, p, dir);
        }
    }
}

/// The cell of line `k` that closes a stretch whatever it holds: the
/// centre, on a board without letters.
pub open spec fn stop_for(bare: bool, k: int) -> int {
    if bare && k == 7 {
        7
    } else {
        -1
    }
}

/// The searches that the first `upto` of the given lines ask for.
pub open spec fn all_queries(lines: Seq<Seq<ConstraintView>>, bare: bool, upto: int) -> Seq<
    QueryView,
>
    decreases upto,
{
    if upto <= 0 {
        Seq::empty()
    } else {
        all_queries(lines, bare, upto - 1) + stretch_queries(
            lines[upto - 1],
            upto - 1,
            stop_for(bare, upto - 1),
            BOARD_SIZE as int,
        )
    }
}

/// No cell of the board holds a letter.
pub open spec fn board_is_bare(b: BoardView) -> bool {
    forall|p: Position| p.valid() ==> !#[trigger] b.is_letter(p)
}

/// The constraints, for words that cross `dir`, of the cells whose
/// coordinate along `dir` is `k`, ordered by the other coordinate.
pub open spec fn board_grid_line(b: BoardView, dir: Direction, k: int, words: Set<Seq<u8>>) -> Seq<
    ConstraintView,
> {
    Seq::new(BOARD_SIZE as nat, |j: int| board_constraint(b, dir, grid_pos(dir, k, j), words))
}

/// The lines of the grid that a board gives for words that cross `dir`.
pub open spec fn board_lines(b: BoardView, dir: Direction, words: Set<Seq<u8>>) -> Seq<
    Seq<ConstraintView>,
> {
    Seq::new(BOARD_SIZE as nat, |k: int| board_grid_line(b, dir, k, words))
}

/// The searches that a board asks for, for words that cross `dir`.
pub open spec fn board_queries(b: BoardView, dir: Direction, words: Set<Seq<u8>>) -> Seq<QueryView> {
    all_queries(board_lines(b, dir, words), board_is_bare(b), BOARD_SIZE as int)
}

/// A grid built from a board has the lines and asks for the searches
/// that the board gives.
pub proof fn lemma_grid_of_board(g: ConstraintGrid, b: BoardView, words: Set<Seq<u8>>)
    requires
        g.inv(),
        forall|p: Position|
            p.valid() ==> #[trigger] g.cell(p) == board_constraint(b, g.dir_spec(), p, words),
    ensures
        forall|k: int|
            0 <= k < BOARD_SIZE ==> constraints_view(#[trigger] g.line(k)) == board_grid_line(
                b,
                g.dir_spec(),
                k,
                words,
            ),
        g.no_letters() == board_is_bare(b),
        g.queries_upto(BOARD_SIZE as int) == board_queries(b, g.dir_spec(), words),
{
    let dir = g.dir_spec();
    assert forall|k: int| 0 <= k < BOARD_SIZE implies constraints_view(#[trigger] g.line(k))
        == board_grid_line(b, dir, k, words) by {
        assert(g.line(k).len() == BOARD_SIZE);
        assert forall|j: int| 0 <= j < BOARD_SIZE implies constraints_view(g.line(k))[j]
            == board_grid_line(b, dir, k, words)[j] by {
            let p = grid_pos(dir, k, j);
            assert(p.valid());
            assert(g.cell(p) == g.line(k)[j]@);
        }
        assert(constraints_view(g.line(k)) =~= board_grid_line(b, dir, k, words));
    }
    if g.no_letters() {
        assert forall|p: Position| p.valid() implies !#[trigger] b.is_letter(p) by {
            let k = p.coord(dir) as int;
            let j = p.coord(dir.flip_spec()) as int;
            assert(!(g.line(k)[j]@ is Filled));
            assert(g.cell(p) == board_constraint(b, dir, p, words));
            assert(board_line(b, dir, j)[k] == b.tile(grid_pos(dir, k, j)));
            assert(grid_pos(dir, k, j) == p);
        }
    }
    if board_is_bare(b) {
        assert forall|k: int, j: int| 0 <= k < BOARD_SIZE && 0 <= j < BOARD_SIZE implies !((
        #[trigger] g.line(k)[j])@ is Filled) by {
            let p = grid_pos(dir, k, j);
            assert(p.valid());
            assert(!b.is_letter(p));
            assert(g.cell(p) == g.line(k)[j]@);
            assert(board_line(b, dir, j)[k] == b.tile(p));
        }
    }
    lemma_grid_queries_upto(g, b, words, BOARD_SIZE as int);
}

proof fn lemma_grid_queries_upto(g: ConstraintGrid, b: BoardView, words: Set<Seq<u8>>, upto: int)
    requires
        0 <= upto <= BOARD_SIZE,
        forall|k: int|
            0 <= k < BOARD_SIZE ==> constraints_view(#[trigger] g.line(k)) == board_grid_line(
                b,
                g.dir_spec(),
                k,
                words,
            ),
        g.no_letters() == board_is_bare(b),
    ensures
        g.queries_upto(upto) == all_queries(
            board_lines(b, g.dir_spec(), words),
            board_is_bare(b),
            upto,
        ),
    decreases upto,
{
    if upto > 0 {
        lemma_grid_queries_upto(g, b, words, upto - 1);
        assert(constraints_view(g.line(upto - 1)) == board_grid_line(
            b,
            g.dir_spec(),
            upto - 1,
            words,
        ));
    }
}

/// Every search that lines ask for belongs to one of them, starts on the
/// board and asks for at least two letters.
pub proof fn lemma_all_queries_sound(
    lines: Seq<Seq<ConstraintView>>,
    bare: bool,
    upto: int,
    i: int,
)
    requires
        0 <= upto <= BOARD_SIZE,
        0 <= i < all_queries(lines, bare, upto).len(),
    ensures
        ({
            let q = all_queries(lines, bare, upto)[i];
            &&& 0 <= q.line < upto
            &&& 0 <= q.start < BOARD_SIZE
            &&& emits(lines[q.line], q.start, stop_for(bare, q.line))
            &&& q.min_length == min_length_of(lines[q.line], q.start, stop_for(bare, q.line))
            &&& q.min_length >= 2
        }),
    decreases upto,
{
    if upto > 0 {
        let before = all_queries(lines, bare, upto - 1);
        if i < before.len() {
            lemma_all_queries_sound(lines, bare, upto - 1, i);
        } else {
            lemma_stretch_queries_sound(
                lines[upto - 1],
                upto - 1,
                stop_for(bare, upto - 1),
                BOARD_SIZE as int,
                i - before.len(),
            );
        }
    }
}

/// The searches of a line come by ascending start.
proof fn lemma_stretch_queries_ascend(
    line: Seq<ConstraintView>,
    k: int,
    stop: int,
    upto: int,
    i: int,
    j: int,
)
    requires
        0 <= upto <= BOARD_SIZE,
        0 <= i < j < stretch_queries(line, k, stop, upto).len(),
    ensures
        stretch_queries(line, k, stop, upto)[i].start < stretch_queries(line, k, stop, upto)[j].start,
    decreases upto,
{
    if upto > 0 {
        let before = stretch_queries(line, k, stop, upto - 1);
        if j < before.len() {
            lemma_stretch_queries_ascend(line, k, stop, upto - 1, i, j);
        } else {
            lemma_stretch_queries_sound(line, k, stop, upto - 1, i);
        }
    }
}

/// No two searches start at the same cell of the same line.
pub proof fn lemma_all_queries_differ(
    lines: Seq<Seq<ConstraintView>>,
    bare: bool,
    upto: int,
    i: int,
    j: int,
)
    requires
        0 <= upto <= BOARD_SIZE,
        0 <= i < j < all_queries(lines, bare, upto).len(),
    ensures
        all_queries(lines, bare, upto)[i].line != all_queries(lines, bare, upto)[j].line
            || all_queries(lines, bare, upto)[i].start != all_queries(lines, bare, upto)[j].start,
    decreases upto,
{
    if upto > 0 {
        let before = all_queries(lines, bare, upto - 1);
        let last = stretch_queries(
            lines[upto - 1],
            upto - 1,
            stop_for(bare, upto - 1),
            BOARD_SIZE as int,
        );
        if j < before.len() {
            lemma_all_queries_differ(lines, bare, upto - 1, i, j);
        } else if i < before.len() {
            lemma_all_queries_sound(lines, bare, upto - 1, i);
            lemma_stretch_queries_sound(
                lines[upto - 1],
                upto - 1,
                stop_for(bare, upto - 1),
                BOARD_SIZE as int,
                j - before.len(),
            );
        } else {
            lemma_stretch_queries_ascend(
                lines[upto - 1],
                upto - 1,
                stop_for(bare, upto - 1),
                BOARD_SIZE as int,
                i - before.len(),
                j - before.len(),
            );
        }
    }
}

} // verus!
