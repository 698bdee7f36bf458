//! All the moves that a rack allows on a board.

use vstd::prelude::*;
use super::bag::Bag;
use super::board::{line_cell, upper, BoardView, ScrabbleBoard, Tile, BOARD_CELLS};
use super::constraint::grid::{
    board_constraint, board_grid_line, board_line, board_queries, grid_pos, lemma_grid_of_board,
    lemma_queries_sound, ConstraintGrid, QueryView,
};
use super::constraint::{constraints_view, ConstraintQuery, ConstraintView};
use super::lexicon::{lexicon_words, run, search_lexicon, LineMatcher};
use super::rack::Rack;
use super::scoring::{
    cross_sum_table, lemma_score_of_placement, lemma_score_range, CROSS_SUM_MAX, MOVE_SCORE_MAX,
};
use super::util::{Direction, Letter, Move, Position};
use super::word_search::{
    emitted, is_capital_word, lemma_accepted_word_accounts, lemma_searcher_is_word_run, lower,
    tiles_needed, word_accepts, word_run, BlankAssignmentList, WordSearcher,
};
use super::BOARD_SIZE;

verus! {

/// A word of the vocabulary on one of the searches of a board: the
/// direction that the word crosses, the number of the search among those
/// of that direction, and the word.
pub struct Candidate {
    pub cross: Direction,
    pub query: int,
    pub word: Seq<u8>,
}

/// The constraints that a search runs over: its line from its start on.
pub open spec fn query_line(b: BoardView, words: Set<Seq<u8>>, cross: Direction, q: QueryView) -> Seq<
    ConstraintView,
> {
    board_grid_line(b, cross, q.line, words).skip(q.start)
}

/// The word is in the vocabulary, is written in capital letters, and the
/// search accepts it with the tiles of the rack.
pub open spec fn is_candidate(b: BoardView, rack: Rack, words: Set<Seq<u8>>, c: Candidate) -> bool {
    let qs = board_queries(b, c.cross, words);
    &&& 0 <= c.query < qs.len()
    &&& words.contains(c.word)
    &&& is_capital_word(c.word)
    &&& word_accepts(
        query_line(b, words, c.cross, qs[c.query]),
        rack,
        qs[c.query].min_length,
        c.word,
    )
}

/// The move lays the candidate's word at the start of its search, in
/// lower case where a blank is laid, and carries its score.
pub open spec fn is_move_of(
    b: BoardView,
    rack: Rack,
    words: Set<Seq<u8>>,
    c: Candidate,
    mv: Move,
) -> bool {
    let q = board_queries(b, c.cross, words)[c.query];
    let s = word_run(query_line(b, words, c.cross, q), rack, c.word)->0;
    &&& mv.word@ == emitted(c.word, s.blank_assignments)
    &&& mv.pos == grid_pos(c.cross, q.line, q.start)
    &&& mv.dir == c.cross.flip_spec()
    &&& mv.score == b.score(mv, cross_sum_table(b, mv.dir))
}

/// The move can be laid: it stays on the board, agrees with the letters
/// it crosses, costs at least one tile, and the rack holds every tile
/// that it costs.
pub open spec fn is_legal(b: BoardView, rack: Rack, mv: Move) -> bool {
    &&& b.playable(mv.word@, mv.pos, mv.dir)
    &&& mv.word@.len() >= 2
    &&& 0 <= mv.score <= MOVE_SCORE_MAX
    &&& b.used_tiles(mv.word@, mv.pos, mv.dir, mv.word@.len() as int).len() >= 1
    &&& forall|tile: Letter| #[trigger]
        b.tiles_needed(mv.word@, mv.pos, mv.dir, tile, mv.word@.len() as int) <= rack.count(tile)
}

/// The two moves lay the same word at the same place.
pub open spec fn same_placement(m1: Move, m2: Move) -> bool {
    m1.word@ == m2.word@ && m1.pos == m2.pos && m1.dir == m2.dir
}

/// No two moves of the list lay the same word at the same place.
pub open spec fn no_move_twice(moves: Seq<Move>) -> bool {
    forall|i: int, j: int|
        0 <= i < j < moves.len() ==> !same_placement(#[trigger] moves[i], #[trigger] moves[j])
}

/// The move is the move of a candidate that satisfies `only`.
pub open spec fn move_has_candidate(
    b: BoardView,
    rack: Rack,
    words: Set<Seq<u8>>,
    only: spec_fn(Candidate) -> bool,
    mv: Move,
) -> bool {
    exists|c: Candidate|
        only(c) && is_candidate(b, rack, words, c) && #[trigger] is_move_of(b, rack, words, c, mv)
}

/// The move of the candidate is among the moves.
pub open spec fn candidate_has_move(
    b: BoardView,
    rack: Rack,
    words: Set<Seq<u8>>,
    moves: Seq<Move>,
    c: Candidate,
) -> bool {
    exists|i: int| 0 <= i < moves.len() && #[trigger] is_move_of(b, rack, words, c, moves[i])
}

/// The moves are those of the candidates that satisfy `only`: each move
/// belongs to one of them, each of them has its move, no move comes
/// twice, and every move can be laid with the rack.
pub open spec fn moves_cover(
    b: BoardView,
    rack: Rack,
    words: Set<Seq<u8>>,
    moves: Seq<Move>,
    only: spec_fn(Candidate) -> bool,
) -> bool {
    &&& forall|i: int|
        0 <= i < moves.len() ==> move_has_candidate(b, rack, words, only, #[trigger] moves[i])
    &&& forall|c: Candidate|
        only(c) && is_candidate(b, rack, words, c) ==> #[trigger] candidate_has_move(
            b,
            rack,
            words,
            moves,
            c,
        )
    &&& forall|i: int| 0 <= i < moves.len() ==> is_legal(b, rack, #[trigger] moves[i])
    &&& no_move_twice(moves)
}

/// The moves are all the moves that the rack allows on the board.
pub open spec fn all_moves(b: BoardView, rack: Rack, words: Set<Seq<u8>>, moves: Seq<Move>) -> bool {
    moves_cover(b, rack, words, moves, |c: Candidate| true)
}

/// Some candidate satisfies `only`.
pub open spec fn has_candidate(
    b: BoardView,
    rack: Rack,
    words: Set<Seq<u8>>,
    only: spec_fn(Candidate) -> bool,
) -> bool {
    exists|c: Candidate| only(c) && #[trigger] is_candidate(b, rack, words, c)
}

/// The constraints of a search stand for the cells of the board under
/// it: a cell holds a letter exactly where the constraint is filled, with
/// that letter.
proof fn lemma_query_cells(b: BoardView, words: Set<Seq<u8>>, cross: Direction, q: QueryView, i: int)
    requires
        0 <= q.line < BOARD_SIZE,
        0 <= q.start < BOARD_SIZE,
        0 <= i < BOARD_SIZE - q.start,
    ensures
        ({
            let line = query_line(b, words, cross, q);
            let p = line_cell(grid_pos(cross, q.line, q.start), cross.flip_spec(), i);
            &&& line.len() == BOARD_SIZE - q.start
            &&& p.valid()
            &&& (line[i] is Empty <==> !b.is_letter(p))
            &&& forall|l: Letter| line[i] == ConstraintView::Filled(l) <==> b.tile(p) == Tile::Letter(l)
        }),
{
    let p = line_cell(grid_pos(cross, q.line, q.start), cross.flip_spec(), i);
    assert(p == grid_pos(cross, q.line, q.start + i));
    let bl = board_line(b, cross, q.start + i);
    assert(bl[q.line] == b.tile(grid_pos(cross, q.line, q.start + i)));
    assert(board_grid_line(b, cross, q.line, words)[q.start + i] == board_constraint(
        b,
        cross,
        p,
        words,
    ));
}

proof fn lemma_needed_of_query(
    b: BoardView,
    words: Set<Seq<u8>>,
    cross: Direction,
    q: QueryView,
    out: Seq<u8>,
    tile: Letter,
    upto: int,
)
    requires
        0 <= q.line < BOARD_SIZE,
        0 <= q.start < BOARD_SIZE,
        0 <= upto <= BOARD_SIZE - q.start,
    ensures
        b.tiles_needed(out, grid_pos(cross, q.line, q.start), cross.flip_spec(), tile, upto)
            == tiles_needed(query_line(b, words, cross, q), out, tile, upto),
        b.used_tiles(out, grid_pos(cross, q.line, q.start), cross.flip_spec(), upto).len()
            == super::word_search::free_cells(query_line(b, words, cross, q), upto),
    decreases upto,
{
    if upto > 0 {
        lemma_needed_of_query(b, words, cross, q, out, tile, upto - 1);
        lemma_query_cells(b, words, cross, q, upto - 1);
    }
}

/// The move of a candidate can be laid with the rack.
pub proof fn lemma_candidate_is_legal(
    b: BoardView,
    rack: Rack,
    words: Set<Seq<u8>>,
    c: Candidate,
    mv: Move,
)
    requires
        b.wf(),
        rack.wf(),
        is_candidate(b, rack, words, c),
        is_move_of(b, rack, words, c, mv),
    ensures
        is_legal(b, rack, mv),
{
    let qs = board_queries(b, c.cross, words);
    let q = qs[c.query];
    lemma_board_queries_sound(b, c.cross, words, c.query);
    let line = query_line(b, words, c.cross, q);
    let pos = grid_pos(c.cross, q.line, q.start);
    let dir = c.cross.flip_spec();
    lemma_query_cells(b, words, c.cross, q, 0);
    lemma_accepted_word_accounts(line, rack, q.min_length, c.word);
    let out = mv.word@;
    let n = out.len() as int;
    assert forall|i: int| 0 <= i < n implies (#[trigger] b.tile(line_cell(pos, dir, i)) matches Tile::Letter(
        Letter::Letter(l),
    ) ==> l == upper(out[i])) by {
        lemma_query_cells(b, words, c.cross, q, i);
        match b.tile(line_cell(pos, dir, i)) {
            Tile::Letter(Letter::Letter(l)) => {
                assert(line[i] == ConstraintView::Filled(Letter::Letter(l)));
            },
            _ => {},
        }
    }
    assert forall|tile: Letter| #[trigger]
        b.tiles_needed(out, pos, dir, tile, n) <= rack.count(tile) by {
        lemma_needed_of_query(b, words, c.cross, q, out, tile, n);
    }
    lemma_needed_of_query(b, words, c.cross, q, out, Letter::Blank, n);
    super::scoring::lemma_table_bounds(b, dir);
    lemma_score_range(b, mv, cross_sum_table(b, dir));
}

/// An empty rack allows no move: every word needs at least one tile of
/// the rack.
pub proof fn lemma_empty_rack_has_no_move(
    b: BoardView,
    rack: Rack,
    words: Set<Seq<u8>>,
    moves: Seq<Move>,
)
    requires
        rack.wf(),
        rack.n_total == 0,
    ensures
        forall|c: Candidate| !#[trigger] is_candidate(b, rack, words, c),
        all_moves(b, rack, words, moves) ==> moves.len() == 0,
{
    assert forall|c: Candidate| !#[trigger] is_candidate(b, rack, words, c) by {
        if is_candidate(b, rack, words, c) {
            let q = board_queries(b, c.cross, words)[c.query];
            lemma_board_queries_sound(b, c.cross, words, c.query);
            lemma_query_cells(b, words, c.cross, q, 0);
            lemma_accepted_word_accounts(query_line(b, words, c.cross, q), rack, q.min_length, c.word);
        }
    }
    if all_moves(b, rack, words, moves) && moves.len() > 0 {
        assert(move_has_candidate(b, rack, words, |c: Candidate| true, moves[0]));
    }
}

/// Every search of a board belongs to one of its lines and starts on the
/// board.
pub proof fn lemma_board_queries_sound(b: BoardView, cross: Direction, words: Set<Seq<u8>>, j: int)
    requires
        0 <= j < board_queries(b, cross, words).len(),
    ensures
        0 <= board_queries(b, cross, words)[j].line < BOARD_SIZE,
        0 <= board_queries(b, cross, words)[j].start < BOARD_SIZE,
        board_queries(b, cross, words)[j].min_length >= 2,
{
    super::constraint::grid::lemma_all_queries_sound(
        super::constraint::grid::board_lines(b, cross, words),
        super::constraint::grid::board_is_bare(b),
        BOARD_SIZE as int,
        j,
    );
}

/// Different candidates have different moves: they differ in direction,
/// or in where they start, or in the word.
pub proof fn lemma_candidates_differ(
    b: BoardView,
    rack: Rack,
    words: Set<Seq<u8>>,
    c1: Candidate,
    m1: Move,
    c2: Candidate,
    m2: Move,
)
    requires
        is_candidate(b, rack, words, c1),
        is_candidate(b, rack, words, c2),
        is_move_of(b, rack, words, c1, m1),
        is_move_of(b, rack, words, c2, m2),
        c1 != c2,
    ensures
        !same_placement(m1, m2),
{
    if c1.cross == c2.cross {
        let qs = board_queries(b, c1.cross, words);
        lemma_board_queries_sound(b, c1.cross, words, c1.query);
        lemma_board_queries_sound(b, c2.cross, words, c2.query);
        if c1.query != c2.query {
            let lines = super::constraint::grid::board_lines(b, c1.cross, words);
            let bare = super::constraint::grid::board_is_bare(b);
            if c1.query < c2.query {
                super::constraint::grid::lemma_all_queries_differ(
                    lines,
                    bare,
                    BOARD_SIZE as int,
                    c1.query,
                    c2.query,
                );
            } else {
                super::constraint::grid::lemma_all_queries_differ(
                    lines,
                    bare,
                    BOARD_SIZE as int,
                    c2.query,
                    c1.query,
                );
            }
            let q1 = qs[c1.query];
            let q2 = qs[c2.query];
            assert(grid_pos(c1.cross, q1.line, q1.start) != grid_pos(c1.cross, q2.line, q2.start));
        } else {
            assert(c1.word != c2.word);
            let w1 = c1.word;
            let w2 = c2.word;
            if m1.word@ == m2.word@ {
                assert(w1.len() == w2.len());
                assert forall|i: int| 0 <= i < w1.len() implies w1[i] == w2[i] by {
                    assert(m1.word@[i] == m2.word@[i]);
                    assert(65 <= w1[i] <= 90 && 65 <= w2[i] <= 90);
                }
                assert(w1 =~= w2);
            }
        }
    }
}

/// Widening what is asked of the candidates, without any new candidate
/// coming in, keeps the moves.
proof fn lemma_cover_same(
    b: BoardView,
    rack: Rack,
    words: Set<Seq<u8>>,
    moves: Seq<Move>,
    before: spec_fn(Candidate) -> bool,
    after: spec_fn(Candidate) -> bool,
)
    requires
        moves_cover(b, rack, words, moves, before),
        forall|c: Candidate| before(c) ==> #[trigger] after(c),
        forall|c: Candidate| after(c) && #[trigger] is_candidate(b, rack, words, c) ==> before(c),
    ensures
        moves_cover(b, rack, words, moves, after),
{
    assert forall|i: int| 0 <= i < moves.len() implies move_has_candidate(
        b,
        rack,
        words,
        after,
        #[trigger] moves[i],
    ) by {
        assert(move_has_candidate(b, rack, words, before, moves[i]));
        let c = choose|c: Candidate|
            before(c) && is_candidate(b, rack, words, c) && #[trigger] is_move_of(
                b,
                rack,
                words,
                c,
                moves[i],
            );
        assert(after(c));
    }
    assert forall|c: Candidate| after(c) && is_candidate(b, rack, words, c) implies #[trigger] candidate_has_move(
        b,
        rack,
        words,
        moves,
        c,
    ) by {
        assert(before(c));
    }
}

/// One more candidate with its move.
proof fn lemma_cover_push(
    b: BoardView,
    rack: Rack,
    words: Set<Seq<u8>>,
    moves: Seq<Move>,
    mv: Move,
    added: Candidate,
    before: spec_fn(Candidate) -> bool,
    after: spec_fn(Candidate) -> bool,
)
    requires
        moves_cover(b, rack, words, moves, before),
        after(added),
        is_candidate(b, rack, words, added),
        is_move_of(b, rack, words, added, mv),
        is_legal(b, rack, mv),
        !before(added),
        forall|c: Candidate| before(c) ==> #[trigger] after(c),
        forall|c: Candidate|
            after(c) && #[trigger] is_candidate(b, rack, words, c) ==> before(c) || c == added,
    ensures
        moves_cover(b, rack, words, moves.push(mv), after),
{
    let longer = moves.push(mv);
    assert forall|i: int, j: int| 0 <= i < j < longer.len() implies !same_placement(
        #[trigger] longer[i],
        #[trigger] longer[j],
    ) by {
        assert(longer[i] == moves[i]);
        if j < moves.len() {
            assert(longer[j] == moves[j]);
        } else {
            assert(move_has_candidate(b, rack, words, before, moves[i]));
            let c = choose|c: Candidate|
                before(c) && is_candidate(b, rack, words, c) && #[trigger] is_move_of(
                    b,
                    rack,
                    words,
                    c,
                    moves[i],
                );
            lemma_candidates_differ(b, rack, words, c, moves[i], added, mv);
        }
    }
    assert forall|i: int| 0 <= i < longer.len() implies move_has_candidate(
        b,
        rack,
        words,
        after,
        #[trigger] longer[i],
    ) by {
        if i < moves.len() {
            assert(longer[i] == moves[i]);
            assert(move_has_candidate(b, rack, words, before, moves[i]));
            let c = choose|c: Candidate|
                before(c) && is_candidate(b, rack, words, c) && #[trigger] is_move_of(
                    b,
                    rack,
                    words,
                    c,
                    moves[i],
                );
            assert(after(c));
        } else {
            assert(is_move_of(b, rack, words, added, longer[i]));
        }
    }
    assert forall|c: Candidate| after(c) && is_candidate(b, rack, words, c) implies #[trigger] candidate_has_move(
        b,
        rack,
        words,
        longer,
        c,
    ) by {
        if c == added {
            assert(is_move_of(b, rack, words, c, longer[moves.len() as int]));
        } else {
            assert(candidate_has_move(b, rack, words, moves, c));
            let i = choose|i: int|
                0 <= i < moves.len() && #[trigger] is_move_of(b, rack, words, c, moves[i]);
            assert(longer[i] == moves[i]);
        }
    }
    assert forall|i: int| 0 <= i < longer.len() implies is_legal(b, rack, #[trigger] longer[i]) by {
        if i < moves.len() {
            assert(longer[i] == moves[i]);
        }
    }
}

/// The moves of two groups of candidates, one after the other.
proof fn lemma_cover_concat(
    b: BoardView,
    rack: Rack,
    words: Set<Seq<u8>>,
    first: Seq<Move>,
    second: Seq<Move>,
    only_first: spec_fn(Candidate) -> bool,
    only_second: spec_fn(Candidate) -> bool,
    both: spec_fn(Candidate) -> bool,
)
    requires
        moves_cover(b, rack, words, first, only_first),
        moves_cover(b, rack, words, second, only_second),
        forall|c: Candidate| only_first(c) || only_second(c) ==> #[trigger] both(c),
        forall|c: Candidate|
            both(c) && #[trigger] is_candidate(b, rack, words, c) ==> only_first(c) || only_second(
                c,
            ),
        forall|c: Candidate| !(#[trigger] only_first(c) && only_second(c)),
    ensures
        moves_cover(b, rack, words, first + second, both),
{
    let all = first + second;
    assert forall|i: int, j: int| 0 <= i < j < all.len() implies !same_placement(
        #[trigger] all[i],
        #[trigger] all[j],
    ) by {
        if j < first.len() {
            assert(all[i] == first[i] && all[j] == first[j]);
        } else if i >= first.len() {
            assert(all[i] == second[i - first.len()] && all[j] == second[j - first.len()]);
        } else {
            let k = j - first.len();
            assert(all[i] == first[i] && all[j] == second[k]);
            assert(move_has_candidate(b, rack, words, only_first, first[i]));
            assert(move_has_candidate(b, rack, words, only_second, second[k]));
            let c1 = choose|c: Candidate|
                only_first(c) && is_candidate(b, rack, words, c) && #[trigger] is_move_of(
                    b,
                    rack,
                    words,
                    c,
                    first[i],
                );
            let c2 = choose|c: Candidate|
                only_second(c) && is_candidate(b, rack, words, c) && #[trigger] is_move_of(
                    b,
                    rack,
                    words,
                    c,
                    second[k],
                );
            assert(!(only_first(c2) && only_second(c2)));
            lemma_candidates_differ(b, rack, words, c1, first[i], c2, second[k]);
        }
    }
    assert forall|i: int| 0 <= i < all.len() implies move_has_candidate(
        b,
        rack,
        words,
        both,
        #[trigger] all[i],
    ) && is_legal(b, rack, all[i]) by {
        if i < first.len() {
            assert(all[i] == first[i]);
            assert(move_has_candidate(b, rack, words, only_first, first[i]));
            let c = choose|c: Candidate|
                only_first(c) && is_candidate(b, rack, words, c) && #[trigger] is_move_of(
                    b,
                    rack,
                    words,
                    c,
                    first[i],
                );
            assert(both(c));
        } else {
            let k = i - first.len();
            assert(all[i] == second[k]);
            assert(move_has_candidate(b, rack, words, only_second, second[k]));
            let c = choose|c: Candidate|
                only_second(c) && is_candidate(b, rack, words, c) && #[trigger] is_move_of(
                    b,
                    rack,
                    words,
                    c,
                    second[k],
                );
            assert(both(c));
        }
    }
    assert forall|c: Candidate| both(c) && is_candidate(b, rack, words, c) implies #[trigger] candidate_has_move(
        b,
        rack,
        words,
        all,
        c,
    ) by {
        if only_first(c) {
            assert(candidate_has_move(b, rack, words, first, c));
            let i = choose|i: int|
                0 <= i < first.len() && #[trigger] is_move_of(b, rack, words, c, first[i]);
            assert(all[i] == first[i]);
        } else {
            assert(candidate_has_move(b, rack, words, second, c));
            let i = choose|i: int|
                0 <= i < second.len() && #[trigger] is_move_of(b, rack, words, c, second[i]);
            assert(all[i + first.len()] == second[i]);
        }
    }
}

fn to_lower(c: u8) -> (r: u8)
    ensures
        r == lower(c),
{
    if 65 <= c && c <= 90 {
        c + 32
    } else {
        c
    }
}

/// The word is written in capital ASCII letters.
fn is_capital(word: &Vec<u8>) -> (r: bool)
    ensures
        r == is_capital_word(word@),
{
    let mut i: usize = 0;
    while i < word.len()
        invariant
            i <= word@.len(),
            forall|k: int| 0 <= k < i ==> 65 <= #[trigger] word@[k] <= 90,
        decreases word@.len() - i,
    {
        if !(65 <= word[i] && word[i] <= 90) {
            return false;
        }
        i += 1;
    }
    true
}

/// The word with the letters that blanks stand for in lower case.
fn emit_word(word: &Vec<u8>, blanks: &BlankAssignmentList) -> (out: Vec<u8>)
    requires
        forall|k: int|
            0 <= k < blanks.entries().len() ==> (#[trigger] blanks.entries()[k]).position
                < word@.len(),
    ensures
        out@ == emitted(word@, *blanks),
    decreases blanks,
{
    match blanks {
        BlankAssignmentList::Empty => {
            let out = word.clone();
            assert(out@ =~= emitted(word@, *blanks));
            out
        },
        BlankAssignmentList::Elem(e, rest) => {
            let tail: &BlankAssignmentList = &**rest;
            proof {
                assert(blanks.entries() == seq![*e] + tail.entries());
                assert(blanks.entries()[0] == *e);
                assert forall|k: int| 0 <= k < tail.entries().len() implies (
                #[trigger] tail.entries()[k]).position < word@.len() by {
                    assert(blanks.entries()[k + 1] == tail.entries()[k]);
                }
            }
            let mut out = emit_word(word, tail);
            let c = out[e.position];
            out[e.position] = to_lower(c);
            proof {
                assert forall|i: int| 0 <= i < word@.len() implies (blanks.covers(i) <==> (i
                    == e.position || tail.covers(i))) by {
                    if blanks.covers(i) {
                        let k = choose|k: int|
                            0 <= k < blanks.entries().len() && (
                            #[trigger] blanks.entries()[k]).position == i;
                        if k > 0 {
                            assert(tail.entries()[k - 1].position == i);
                        }
                    }
                    if tail.covers(i) {
                        let k = choose|k: int|
                            0 <= k < tail.entries().len() && (#[trigger] tail.entries()[k]).position
                                == i;
                        assert(blanks.entries()[k + 1].position == i);
                    }
                }
                assert(out@ =~= emitted(word@, *blanks));
            }
            out
        },
    }
}

impl ScrabbleBoard {
    /// The moves that one search gives.
    fn moves_of_query(
        &self,
        query: &ConstraintQuery<'_>,
        rack: &Rack,
        vocab: &fst::Set<Vec<u8>>,
        bag: &Bag,
        sums: &[i32; 225],
        Ghost(cross): Ghost<Direction>,
        Ghost(j): Ghost<int>,
    ) -> (moves: Vec<Move>)
        requires
            rack.wf(),
            0 <= j < board_queries(self@, cross, lexicon_words(*vocab)).len(),
            query.dir == cross.flip_spec(),
            query.pos == grid_pos(
                cross,
                board_queries(self@, cross, lexicon_words(*vocab))[j].line,
                board_queries(self@, cross, lexicon_words(*vocab))[j].start,
            ),
            constraints_view(query.constraints@) == query_line(
                self@,
                lexicon_words(*vocab),
                cross,
                board_queries(self@, cross, lexicon_words(*vocab))[j],
            ),
            query.min_length == board_queries(self@, cross, lexicon_words(*vocab))[j].min_length,
            sums@ == cross_sum_table(self@, cross.flip_spec()),
        ensures
            moves_cover(
                self@,
                *rack,
                lexicon_words(*vocab),
                moves@,
                |c: Candidate| c.cross == cross && c.query == j,
            ),
    {
        let ghost b = self@;
        let ghost words = lexicon_words(*vocab);
        let ghost q = board_queries(b, cross, words)[j];
        let ghost line = query_line(b, words, cross, q);
        proof {
            use_type_invariant(self);
            lemma_board_queries_sound(b, cross, words, j);
            lemma_query_cells(b, words, cross, q, 0);
            super::scoring::lemma_table_bounds(b, cross.flip_spec());
        }
        let searcher = WordSearcher {
            line: query.constraints,
            min_length: query.min_length,
            rack: *rack,
        };
        let ghost m = searcher;
        let hits = search_lexicon(vocab, searcher);
        let mut moves: Vec<Move> = Vec::new();
        let mut h: usize = 0;
        assert(moves_cover(
            b,
            *rack,
            words,
            moves@,
            |c: Candidate|
                c.cross == cross && c.query == j && exists|k: int|
                    0 <= k < 0 && (#[trigger] hits@[k]).word@ == c.word,
        ));
        while h < hits.len()
            invariant
                h <= hits@.len(),
                b == self@,
                b.wf(),
                rack.wf(),
                words == lexicon_words(*vocab),
                0 <= j < board_queries(b, cross, words).len(),
                q == board_queries(b, cross, words)[j],
                line == query_line(b, words, cross, q),
                line.len() < usize::MAX,
                m.wf(),
                m.rack == *rack,
                m.min_length == q.min_length,
                constraints_view(m.line@) == line,
                query.pos.valid(),
                query.pos == grid_pos(cross, q.line, q.start),
                query.dir == cross.flip_spec(),
                sums@ == cross_sum_table(b, cross.flip_spec()),
                forall|i: int| 0 <= i < BOARD_CELLS ==> sums@[i] <= CROSS_SUM_MAX,
                forall|i: int|
                    0 <= i < hits@.len() ==> {
                        &&& words.contains(#[trigger] hits@[i].word@)
                        &&& hits@[i].state == run(&m, hits@[i].word@)
                        &&& m.is_match_spec(hits@[i].state)
                    },
                forall|i: int, k: int|
                    0 <= i < k < hits@.len() ==> #[trigger] hits@[i].word@ != #[trigger] hits@[k].word@,
                moves_cover(
                    b,
                    *rack,
                    words,
                    moves@,
                    |c: Candidate|
                        c.cross == cross && c.query == j && exists|k: int|
                            0 <= k < h && (#[trigger] hits@[k]).word@ == c.word,
                ),
            decreases hits@.len() - h,
        {
            let hit = &hits[h];
            let ghost w = hit.word@;
            let ghost before = |c: Candidate|
                c.cross == cross && c.query == j && exists|k: int|
                    0 <= k < h && (#[trigger] hits@[k]).word@ == c.word;
            let ghost after = |c: Candidate|
                c.cross == cross && c.query == j && exists|k: int|
                    0 <= k < h + 1 && (#[trigger] hits@[k]).word@ == c.word;
            let ghost added = Candidate { cross, query: j, word: w };
            proof {
                lemma_searcher_is_word_run(&m, w);
                assert(words.contains(hits@[h as int].word@));
                assert forall|c: Candidate| before(c) implies #[trigger] after(c) by {
                    let k = choose|k: int| 0 <= k < h && (#[trigger] hits@[k]).word@ == c.word;
                    assert(0 <= k < h + 1 && hits@[k].word@ == c.word);
                }
                assert forall|c: Candidate| #[trigger] after(c) implies before(c) || c == added by {
                    let k = choose|k: int| 0 <= k < h + 1 && (#[trigger] hits@[k]).word@ == c.word;
                    if k < h {
                        assert(before(c));
                    } else {
                        assert(c.word == w);
                    }
                }
                assert(after(added)) by {
                    assert(hits@[h as int].word@ == added.word);
                }
                assert(!before(added)) by {
                    if before(added) {
                        let k = choose|k: int| 0 <= k < h && (#[trigger] hits@[k]).word@ == added.word;
                        assert(hits@[k].word@ != hits@[h as int].word@);
                    }
                }
            }
            let capital = is_capital(&hit.word);
            let mut pushed = false;
            if capital {
                match &hit.state {
                    Some(state) => {
                        proof {
                            super::word_search::lemma_word_trace(line, *rack, w);
                            assert(is_candidate(b, *rack, words, added));
                        }
                        let out = emit_word(&hit.word, &state.blank_assignments);
                        let mut new_move = Move {
                            dir: query.dir,
                            pos: query.pos,
                            word: out,
                            score: 0,
                        };
                        let ghost unscored = new_move;
                        new_move.score = self.score(&new_move, sums, bag);
                        proof {
                            lemma_score_of_placement(b, unscored, new_move, sums@);
                            assert(is_move_of(b, *rack, words, added, new_move));
                            lemma_candidate_is_legal(b, *rack, words, added, new_move);
                            lemma_cover_push(
                                b,
                                *rack,
                                words,
                                moves@,
                                new_move,
                                added,
                                before,
                                after,
                            );
                        }
                        moves.push(new_move);
                        pushed = true;
                    },
                    None => {},
                }
            }
            proof {
                if !pushed {
                    assert(!is_candidate(b, *rack, words, added));
                    lemma_cover_same(b, *rack, words, moves@, before, after);
                }
            }
            h += 1;
        }
        proof {
            let last = |c: Candidate|
                c.cross == cross && c.query == j && exists|k: int|
                    0 <= k < h && (#[trigger] hits@[k]).word@ == c.word;
            let only = |c: Candidate| c.cross == cross && c.query == j;
            assert forall|c: Candidate| only(c) && #[trigger] is_candidate(
                b,
                *rack,
                words,
                c,
            ) implies last(c) by {
                lemma_searcher_is_word_run(&m, c.word);
                assert(m.is_match_spec(run(&m, c.word)));
                let k = choose|k: int| 0 <= k < hits@.len() && hits@[k].word@ == c.word;
                assert(0 <= k < h && hits@[k].word@ == c.word);
            }
            lemma_cover_same(b, *rack, words, moves@, last, only);
        }
        moves
    }

    /// What a search of a grid built from this board hands to the word
    /// search is the search of the board with the same number.
    proof fn lemma_query_of_grid(
        b: BoardView,
        grid: ConstraintGrid,
        words: Set<Seq<u8>>,
        query: ConstraintQuery<'_>,
        j: int,
    )
        requires
            grid.inv(),
            forall|p: Position|
                p.valid() ==> #[trigger] grid.cell(p) == board_constraint(
                    b,
                    grid.dir_spec(),
                    p,
                    words,
                ),
            0 <= j < grid.queries_upto(BOARD_SIZE as int).len(),
            grid.describes(query, grid.queries_upto(BOARD_SIZE as int)[j]),
        ensures
            0 <= j < board_queries(b, grid.dir_spec(), words).len(),
            query.dir == grid.dir_spec().flip_spec(),
            query.pos == grid_pos(
                grid.dir_spec(),
                board_queries(b, grid.dir_spec(), words)[j].line,
                board_queries(b, grid.dir_spec(), words)[j].start,
            ),
            constraints_view(query.constraints@) == query_line(
                b,
                words,
                grid.dir_spec(),
                board_queries(b, grid.dir_spec(), words)[j],
            ),
            query.min_length == board_queries(b, grid.dir_spec(), words)[j].min_length,
    {
        lemma_grid_of_board(grid, b, words);
        lemma_queries_sound(grid, BOARD_SIZE as int, j);
        let q = grid.queries_upto(BOARD_SIZE as int)[j];
        assert(constraints_view(grid.line(q.line)) == board_grid_line(
            b,
            grid.dir_spec(),
            q.line,
            words,
        ));
        assert(constraints_view(query.constraints@) =~= constraints_view(grid.line(q.line)).skip(
            q.start,
        ));
    }

    /// The moves that the searches of one grid give.
    fn moves_of_grid(
        &self,
        grid: &ConstraintGrid,
        rack: &Rack,
        vocab: &fst::Set<Vec<u8>>,
        bag: &Bag,
        sums: &[i32; 225],
    ) -> (moves: Vec<Move>)
        requires
            rack.wf(),
            forall|p: Position|
                p.valid() ==> #[trigger] grid.cell(p) == board_constraint(
                    self@,
                    grid.dir_spec(),
                    p,
                    lexicon_words(*vocab),
                ),
            sums@ == cross_sum_table(self@, grid.dir_spec().flip_spec()),
        ensures
            moves_cover(
                self@,
                *rack,
                lexicon_words(*vocab),
                moves@,
                |c: Candidate| c.cross == grid.dir_spec(),
            ),
    {
        let ghost b = self@;
        let ghost words = lexicon_words(*vocab);
        let ghost cross = grid.dir_spec();
        proof {
            use_type_invariant(grid);
            lemma_grid_of_board(*grid, b, words);
        }
        let queries = grid.compute_queries();
        let mut moves: Vec<Move> = Vec::new();
        let mut j: usize = 0;
        assert(moves_cover(b, *rack, words, moves@, |c: Candidate| c.cross == cross && c.query < 0));
        while j < queries.len()
            invariant
                j <= queries@.len(),
                b == self@,
                rack.wf(),
                words == lexicon_words(*vocab),
                cross == grid.dir_spec(),
                grid.inv(),
                forall|p: Position|
                    p.valid() ==> #[trigger] grid.cell(p) == board_constraint(b, cross, p, words),
                grid.describes_all(queries@, grid.queries_upto(BOARD_SIZE as int)),
                grid.queries_upto(BOARD_SIZE as int) == board_queries(b, cross, words),
                sums@ == cross_sum_table(b, cross.flip_spec()),
                moves_cover(
                    b,
                    *rack,
                    words,
                    moves@,
                    |c: Candidate| c.cross == cross && c.query < j,
                ),
            decreases queries@.len() - j,
        {
            proof {
                Self::lemma_query_of_grid(b, *grid, words, queries@[j as int], j as int);
            }
            let mut found = self.moves_of_query(
                &queries[j],
                rack,
                vocab,
                bag,
                sums,
                Ghost(cross),
                Ghost(j as int),
            );
            proof {
                lemma_cover_concat(
                    b,
                    *rack,
                    words,
                    moves@,
                    found@,
                    |c: Candidate| c.cross == cross && c.query < j,
                    |c: Candidate| c.cross == cross && c.query == j,
                    |c: Candidate| c.cross == cross && c.query < j + 1,
                );
            }
            moves.append(&mut found);
            j += 1;
        }
        proof {
            lemma_cover_same(
                b,
                *rack,
                words,
                moves@,
                |c: Candidate| c.cross == cross && c.query < j,
                |c: Candidate| c.cross == cross,
            );
        }
        moves
    }

    /// Calculates all possible moves: for each search that the board asks
    /// for, in either direction, and each word of the vocabulary in
    /// capital letters that the search accepts with the tiles of the
    /// rack, the move that lays the word, with its score. The moves come
    /// in no particular order.
    pub fn calculate_moves(&self, rack: &Rack, vocab: &fst::Set<Vec<u8>>, bag: &Bag) -> (moves: Vec<
        Move,
    >)
        requires
            rack.wf(),
        ensures
            all_moves(self@, *rack, lexicon_words(*vocab), moves@),
    {
        let ghost b = self@;
        let ghost words = lexicon_words(*vocab);
        let cross_sums = self.calculate_cross_sums(bag);
        let cb_across = ConstraintGrid::build(self, Direction::Across, vocab);
        let cb_down = ConstraintGrid::build(self, Direction::Down, vocab);
        // the searches of a grid run in the direction that it does not cross
        let mut moves = self.moves_of_grid(&cb_across, rack, vocab, bag, &cross_sums[1]);
        let mut down = self.moves_of_grid(&cb_down, rack, vocab, bag, &cross_sums[0]);
        proof {
            lemma_cover_concat(
                b,
                *rack,
                words,
                moves@,
                down@,
                |c: Candidate| c.cross == Direction::Across,
                |c: Candidate| c.cross == Direction::Down,
                |c: Candidate| true,
            );
        }
        moves.append(&mut down);
        moves
    }

    /// Some word of one search can be laid.
    fn query_has_move(
        &self,
        query: &ConstraintQuery<'_>,
        rack: &Rack,
        vocab: &fst::Set<Vec<u8>>,
        Ghost(cross): Ghost<Direction>,
        Ghost(j): Ghost<int>,
    ) -> (r: bool)
        requires
            rack.wf(),
            0 <= j < board_queries(self@, cross, lexicon_words(*vocab)).len(),
            constraints_view(query.constraints@) == query_line(
                self@,
                lexicon_words(*vocab),
                cross,
                board_queries(self@, cross, lexicon_words(*vocab))[j],
            ),
            query.min_length == board_queries(self@, cross, lexicon_words(*vocab))[j].min_length,
        ensures
            r == has_candidate(
                self@,
                *rack,
                lexicon_words(*vocab),
                |c: Candidate| c.cross == cross && c.query == j,
            ),
    {
        let ghost b = self@;
        let ghost words = lexicon_words(*vocab);
        let ghost q = board_queries(b, cross, words)[j];
        let ghost line = query_line(b, words, cross, q);
        let ghost only = |c: Candidate| c.cross == cross && c.query == j;
        proof {
            lemma_board_queries_sound(b, cross, words, j);
            lemma_query_cells(b, words, cross, q, 0);
        }
        let searcher = WordSearcher {
            line: query.constraints,
            min_length: query.min_length,
            rack: *rack,
        };
        let ghost m = searcher;
        let hits = search_lexicon(vocab, searcher);
        let mut h: usize = 0;
        while h < hits.len()
            invariant
                h <= hits@.len(),
                forall|k: int| 0 <= k < h ==> !is_capital_word(#[trigger] hits@[k].word@),
                words == lexicon_words(*vocab),
                b == self@,
                0 <= j < board_queries(b, cross, words).len(),
                q == board_queries(b, cross, words)[j],
                line == query_line(b, words, cross, q),
                constraints_view(m.line@) == line,
                m.rack == *rack,
                m.min_length == q.min_length,
                forall|i: int|
                    0 <= i < hits@.len() ==> {
                        &&& words.contains(#[trigger] hits@[i].word@)
                        &&& hits@[i].state == run(&m, hits@[i].word@)
                        &&& m.is_match_spec(hits@[i].state)
                    },
            decreases hits@.len() - h,
        {
            if is_capital(&hits[h].word) {
                proof {
                    let only = |c: Candidate| c.cross == cross && c.query == j;
                    let w = hits@[h as int].word@;
                    let c = Candidate { cross, query: j, word: w };
                    lemma_searcher_is_word_run(&m, w);
                    assert(words.contains(hits@[h as int].word@));
                    assert(only(c) && is_candidate(b, *rack, words, c));
                }
                return true;
            }
            h += 1;
        }
        proof {
            if has_candidate(b, *rack, words, only) {
                let c = choose|c: Candidate| only(c) && #[trigger] is_candidate(b, *rack, words, c);
                lemma_searcher_is_word_run(&m, c.word);
                assert(m.is_match_spec(run(&m, c.word)));
                let k = choose|k: int| 0 <= k < hits@.len() && hits@[k].word@ == c.word;
                assert(!is_capital_word(hits@[k].word@));
            }
        }
        false
    }

    /// Some word of the searches of one grid can be laid.
    fn grid_has_move(&self, grid: &ConstraintGrid, rack: &Rack, vocab: &fst::Set<Vec<u8>>) -> (r:
        bool)
        requires
            rack.wf(),
            forall|p: Position|
                p.valid() ==> #[trigger] grid.cell(p) == board_constraint(
                    self@,
                    grid.dir_spec(),
                    p,
                    lexicon_words(*vocab),
                ),
        ensures
            r == has_candidate(
                self@,
                *rack,
                lexicon_words(*vocab),
                |c: Candidate| c.cross == grid.dir_spec(),
            ),
    {
        let ghost b = self@;
        let ghost words = lexicon_words(*vocab);
        let ghost cross = grid.dir_spec();
        let ghost only = |c: Candidate| c.cross == cross;
        proof {
            use_type_invariant(grid);
            lemma_grid_of_board(*grid, b, words);
        }
        let queries = grid.compute_queries();
        let mut j: usize = 0;
        while j < queries.len()
            invariant
                j <= queries@.len(),
                b == self@,
                rack.wf(),
                words == lexicon_words(*vocab),
                cross == grid.dir_spec(),
                grid.inv(),
                forall|p: Position|
                    p.valid() ==> #[trigger] grid.cell(p) == board_constraint(b, cross, p, words),
                grid.describes_all(queries@, grid.queries_upto(BOARD_SIZE as int)),
                grid.queries_upto(BOARD_SIZE as int) == board_queries(b, cross, words),
                forall|c: Candidate|
                    c.cross == cross && c.query < j ==> !#[trigger] is_candidate(b, *rack, words, c),
            decreases queries@.len() - j,
        {
            proof {
                Self::lemma_query_of_grid(b, *grid, words, queries@[j as int], j as int);
            }
            if self.query_has_move(&queries[j], rack, vocab, Ghost(cross), Ghost(j as int)) {
                proof {
                    let only = |c: Candidate| c.cross == cross;
                    let one = |c: Candidate| c.cross == cross && c.query == j;
                    let c = choose|c: Candidate| one(c) && #[trigger] is_candidate(b, *rack, words, c);
                    assert(only(c) && is_candidate(b, *rack, words, c));
                }
                return true;
            }
            proof {
                let one = |c: Candidate| c.cross == cross && c.query == j;
                assert forall|c: Candidate| c.cross == cross && c.query < j + 1 implies !#[trigger] is_candidate(
                    b,
                    *rack,
                    words,
                    c,
                ) by {
                    if c.query == j && is_candidate(b, *rack, words, c) {
                        assert(one(c));
                        assert(has_candidate(b, *rack, words, one));
                    }
                }
            }
            j += 1;
        }
        proof {
            if has_candidate(b, *rack, words, only) {
                let c = choose|c: Candidate| only(c) && #[trigger] is_candidate(b, *rack, words, c);
                assert(c.query < j);
            }
        }
        false
    }

    /// Checks if any move can be played at all with the rack on the
    /// board.
    pub fn is_move_possible(&self, rack: &Rack, vocab: &fst::Set<Vec<u8>>) -> (r: bool)
        requires
            rack.wf(),
        ensures
            r == has_candidate(self@, *rack, lexicon_words(*vocab), |c: Candidate| true),
    {
        let ghost b = self@;
        let ghost words = lexicon_words(*vocab);
        let ghost any = |c: Candidate| true;
        let cb_across = ConstraintGrid::build(self, Direction::Across, vocab);
        if self.grid_has_move(&cb_across, rack, vocab) {
            proof {
                let one = |c: Candidate| c.cross == Direction::Across;
                let c = choose|c: Candidate| one(c) && #[trigger] is_candidate(b, *rack, words, c);
                assert(any(c) && is_candidate(b, *rack, words, c));
            }
            return true;
        }
        let cb_down = ConstraintGrid::build(self, Direction::Down, vocab);
        let r = self.grid_has_move(&cb_down, rack, vocab);
        proof {
            let across = |c: Candidate| c.cross == Direction::Across;
            let down = |c: Candidate| c.cross == Direction::Down;
            if r {
                let c = choose|c: Candidate| down(c) && #[trigger] is_candidate(b, *rack, words, c);
                assert(any(c) && is_candidate(b, *rack, words, c));
            } else if has_candidate(b, *rack, words, any) {
                let c = choose|c: Candidate| any(c) && #[trigger] is_candidate(b, *rack, words, c);
                if c.cross == Direction::Across {
                    assert(across(c));
                    assert(has_candidate(b, *rack, words, across));
                } else {
                    assert(down(c));
                    assert(has_candidate(b, *rack, words, down));
                }
            }
        }
        r
    }
}

} // verus!
