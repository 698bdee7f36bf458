//! The game itself: the moves open to the player to move, grouped into a
//! fixed set of actions, and the state of a game with its transitions.

use vstd::prelude::*;
use std::rc::Rc;
use super::bag::Bag;
use crate::cfr::state::{Game, GameState};
use super::board::{BoardView, ScrabbleBoard, Tile, BOARD_CELLS};
use super::lexicon::lexicon_words;
use super::movegen::{all_moves, is_legal};
use super::rack::Rack;
use super::util::{
    decimal, push_decimal, share, Direction, Letter, Move, Position, SquareEffect,
};
use super::BOARD_SIZE;

verus! {

/// Number of word lengths that have a bucket of their own: two to eight
/// letters.
pub const MAX_LENGTH: usize = 7;

/// Number of buckets: one for each cell and word length.
pub const NUM_BUCKETS: usize = 1575;

/// Number of actions: one for each bucket, and action 0 for the best move
/// of all.
pub const NUM_ACTIONS: usize = 1576;

/// The bucket of a move: its start and its length, flattened, for a move
/// of two to eight letters that starts on the board.
pub open spec fn bucket_of(m: Move) -> Option<int> {
    if m.pos.valid() && 2 <= m.word@.len() <= 8 {
        Some((m.pos.row * 15 + m.pos.col) * 7 + m.word@.len() - 2)
    } else {
        None
    }
}

/// Among the first `upto` moves, move `i` is the best of the bucket: it
/// scores most, and it is the first to do so.
pub open spec fn is_bucket_best(moves: Seq<Move>, bucket: int, i: int, upto: int) -> bool {
    &&& 0 <= i < upto
    &&& bucket_of(moves[i]) == Some(bucket)
    &&& forall|j: int|
        0 <= j < upto && bucket_of(#[trigger] moves[j]) == Some(bucket) ==> moves[j].score
            < moves[i].score || (moves[j].score == moves[i].score && i <= j)
}

/// None of the first `upto` moves falls into the bucket.
pub open spec fn bucket_unused(moves: Seq<Move>, bucket: int, upto: int) -> bool {
    forall|j: int| 0 <= j < upto ==> bucket_of(#[trigger] moves[j]) != Some(bucket)
}

/// Among the first `upto` moves, move `i` is the best of all: it scores
/// most, and it is the first to do so.
pub open spec fn is_best(moves: Seq<Move>, i: int, upto: int) -> bool {
    &&& 0 <= i < upto
    &&& forall|j: int|
        0 <= j < upto ==> (#[trigger] moves[j]).score < moves[i].score || (moves[j].score
            == moves[i].score && i <= j)
}

/// The actions of the buckets below `upto` that hold a move, ascending.
/// The action of bucket `b` is `b + 1`.
pub open spec fn used_actions(moves: Seq<Move>, upto: int) -> Seq<usize>
    decreases upto,
{
    if upto <= 0 {
        Seq::empty()
    } else if bucket_unused(moves, upto - 1, moves.len() as int) {
        used_actions(moves, upto - 1)
    } else {
        used_actions(moves, upto - 1).push(upto as usize)
    }
}

/// The bucket of a move, if it has one.
pub fn bucket_index(m: &Move) -> (r: Option<usize>)
    ensures
        r matches Some(b) ==> b < NUM_BUCKETS && bucket_of(*m) == Some(b as int),
        r is None ==> bucket_of(*m) is None,
{
    let len = m.word.len();
    if len < 2 || len - 2 >= MAX_LENGTH || m.pos.row >= BOARD_SIZE || m.pos.col >= BOARD_SIZE {
        return None;
    }
    let coord = [m.pos.row, m.pos.col, len - 2];
    let dims = [BOARD_SIZE, BOARD_SIZE, MAX_LENGTH];
    proof {
        lemma_grid_dims(coord@, dims@);
    }
    Some(super::util::coord_to_index(coord.as_slice(), dims.as_slice()))
}

/// The strides of the action grid are 105, 7 and 1, and a coordinate in
/// range has the index `(row * 15 + col) * 7 + k`.
proof fn lemma_grid_dims(coord: Seq<usize>, dims: Seq<usize>)
    requires
        dims == seq![15usize, 15usize, 7usize],
        coord.len() == 3,
    ensures
        super::util::dims_fit(dims),
        super::util::stride_spec(dims, 0) == 105,
        super::util::stride_spec(dims, 1) == 7,
        super::util::stride_spec(dims, 2) == 1,
        super::util::linear_index(coord, dims, 3) == (coord[0] * 15 + coord[1]) * 7 + coord[2],
        forall|i: int| 0 <= i < dims.len() ==> dims[i] > 0,
{
    reveal_with_fuel(super::util::dims_product, 5);
    reveal_with_fuel(super::util::linear_index, 5);
    assert(super::util::dims_product(dims, 3) == 1);
    assert(super::util::dims_product(dims, 2) == 7);
    assert(super::util::dims_product(dims, 1) == 105);
    assert(super::util::dims_product(dims, 0) == 1575);
    assert forall|i: int| 0 <= i <= dims.len() implies #[trigger] super::util::dims_product(dims, i)
        <= usize::MAX by {
        if i == 0 {
        } else if i == 1 {
        } else if i == 2 {
        } else {
        }
    }
}

/// The moves open to a player, grouped by where they start and how long
/// they are. Each group keeps its best move; action 0 stands for the best
/// move of all.
pub struct MoveGrid {
    /// For each bucket, the place of its best move among the moves
    move_ids: Vec<Option<usize>>,
    /// The place of the best move of all
    best_move_id: usize,
    /// The moves themselves
    moves: Vec<Move>,
}

impl MoveGrid {
    /// Each bucket names its best move, and the best move of all is
    /// named.
    #[verifier::type_invariant]
    pub closed spec fn inv(self) -> bool {
        &&& self.move_ids@.len() == NUM_BUCKETS
        &&& forall|b: int|
            0 <= b < NUM_BUCKETS ==> match #[trigger] self.move_ids@[b] {
                Some(i) => is_bucket_best(self.moves@, b, i as int, self.moves@.len() as int),
                None => bucket_unused(self.moves@, b, self.moves@.len() as int),
            }
        &&& self.moves@.len() > 0 ==> is_best(
            self.moves@,
            self.best_move_id as int,
            self.moves@.len() as int,
        )
        &&& self.moves@.len() == 0 ==> self.best_move_id == 0
    }

    /// All moves that the grid was built from.
    pub closed spec fn moves_view(&self) -> Seq<Move> {
        self.moves@
    }

    /// The place, among the moves, of the move that an action stands for.
    pub closed spec fn move_index(&self, action_id: usize) -> int {
        if action_id == 0 {
            self.best_move_id as int
        } else {
            self.move_ids@[action_id - 1]->0 as int
        }
    }

    /// The action stands for a move: action 0 where there is any move, and
    /// the action of a bucket where the bucket holds one.
    pub open spec fn has_action(&self, action_id: usize) -> bool {
        if action_id == 0 {
            self.moves_view().len() > 0
        } else {
            action_id <= NUM_BUCKETS && !bucket_unused(
                self.moves_view(),
                action_id - 1,
                self.moves_view().len() as int,
            )
        }
    }

    /// Groups the given moves.
    pub fn from_moves(moves: Vec<Move>) -> (grid: Self)
        ensures
            grid.moves_view() == moves@,
    {
        let mut move_ids: Vec<Option<usize>> = Vec::new();
        let mut b: usize = 0;
        while b < NUM_BUCKETS
            invariant
                b <= NUM_BUCKETS,
                move_ids@.len() == b,
                forall|k: int| 0 <= k < b ==> (#[trigger] move_ids@[k]) is None,
            decreases NUM_BUCKETS - b,
        {
            move_ids.push(None);
            b += 1;
        }
        let mut best_move_id: usize = 0;
        let mut i: usize = 0;
        while i < moves.len()
            invariant
                i <= moves@.len(),
                move_ids@.len() == NUM_BUCKETS,
                forall|b: int|
                    0 <= b < NUM_BUCKETS ==> match #[trigger] move_ids@[b] {
                        Some(k) => is_bucket_best(moves@, b, k as int, i as int),
                        None => bucket_unused(moves@, b, i as int),
                    },
                i > 0 ==> is_best(moves@, best_move_id as int, i as int),
                i == 0 ==> best_move_id == 0,
            decreases moves@.len() - i,
        {
            let m = &moves[i];
            let ghost ids_before = move_ids@;
            // Only the best move of each bucket is kept
            let bucket = bucket_index(m);
            if let Some(slot) = bucket {
                let better = match move_ids[slot] {
                    Some(k) => moves[k].score < m.score,
                    None => true,
                };
                if better {
                    move_ids[slot] = Some(i);
                }
            }
            // Track the best overall move
            if i == 0 || m.score > moves[best_move_id].score {
                best_move_id = i;
            }
            proof {
                assert forall|b: int| 0 <= b < NUM_BUCKETS implies match #[trigger] move_ids@[b] {
                    Some(k) => is_bucket_best(moves@, b, k as int, i as int + 1),
                    None => bucket_unused(moves@, b, i as int + 1),
                } by {
                    let before = ids_before[b];
                    match before {
                        Some(k) => {
                            assert(is_bucket_best(moves@, b, k as int, i as int));
                        },
                        None => {
                            assert(bucket_unused(moves@, b, i as int));
                        },
                    }
                }
            }
            i += 1;
        }
        MoveGrid { move_ids, best_move_id, moves }
    }

    /// Builds the grid of all moves that the rack allows on the board.
    pub fn build(bag: &Bag, curr_board: &ScrabbleBoard, vocab: &fst::Set<Vec<u8>>, rack: &Rack) -> (grid:
        Self)
        requires
            rack.wf(),
        ensures
            all_moves(curr_board@, *rack, lexicon_words(*vocab), grid.moves_view()),
    {
        let moves = curr_board.calculate_moves(rack, vocab, bag);
        Self::from_moves(moves)
    }

    /// All moves that the grid was built from.
    pub fn moves(&self) -> (r: &Vec<Move>)
        ensures
            r@ == self.moves_view(),
    {
        &self.moves
    }

    /// The grid holds no move.
    pub fn is_empty(&self) -> (r: bool)
        ensures
            r == (self.moves_view().len() == 0),
    {
        self.moves.len() == 0
    }

    /// The action stands for a move.
    pub fn is_valid_action(&self, action_id: usize) -> (r: bool)
        ensures
            r == self.has_action(action_id),
    {
        proof {
            use_type_invariant(self);
        }
        if action_id == 0 {
            self.moves.len() > 0
        } else if action_id > NUM_BUCKETS {
            false
        } else {
            match self.move_ids[action_id - 1] {
                Some(k) => {
                    assert(bucket_of(self.moves@[k as int]) == Some(action_id as int - 1));
                    true
                },
                None => false,
            }
        }
    }

    /// The move that an action stands for: the best move of all for
    /// action 0, else the best move of the bucket of the action.
    pub fn get_move(&self, action_id: usize) -> (m: &Move)
        requires
            self.has_action(action_id),
        ensures
            0 <= self.move_index(action_id) < self.moves_view().len(),
            *m == self.moves_view()[self.move_index(action_id)],
            action_id == 0 ==> is_best(
                self.moves_view(),
                self.move_index(action_id),
                self.moves_view().len() as int,
            ),
            action_id > 0 ==> is_bucket_best(
                self.moves_view(),
                action_id - 1,
                self.move_index(action_id),
                self.moves_view().len() as int,
            ),
    {
        proof {
            use_type_invariant(self);
        }
        // If 0 is passed, then return the best move
        if action_id == 0 {
            return &self.moves[self.best_move_id];
        }
        let idx = action_id - 1;
        let dims = [BOARD_SIZE, BOARD_SIZE, MAX_LENGTH];
        proof {
            lemma_grid_dims(seq![0usize, 0usize, 0usize], dims@);
        }
        let coord = super::util::index_to_coord(idx, dims.as_slice());
        proof {
            assert(coord@[0] == (idx as int / 105) % 15);
            assert(coord@[1] == (idx as int / 7) % 15);
            assert(coord@[2] == (idx as int / 1) % 7);
        }
        let slot = (coord[0] * BOARD_SIZE + coord[1]) * MAX_LENGTH + coord[2];
        assert(slot == idx);
        match self.move_ids[slot] {
            Some(k) => &self.moves[k],
            None => {
                proof {
                    assert(bucket_unused(self.moves@, idx as int, self.moves@.len() as int));
                }
                &self.moves[0]
            },
        }
    }

    /// The actions of the buckets that hold a move, ascending.
    pub fn get_valid_moves(&self) -> (result: Vec<usize>)
        ensures
            result@ == used_actions(self.moves_view(), NUM_BUCKETS as int),
            forall|i: int| 0 <= i < result@.len() ==> self.has_action(#[trigger] result@[i]),
    {
        proof {
            use_type_invariant(self);
        }
        let mut result: Vec<usize> = Vec::new();
        let mut b: usize = 0;
        while b < NUM_BUCKETS
            invariant
                b <= NUM_BUCKETS,
                self.move_ids@.len() == NUM_BUCKETS,
                forall|k: int|
                    0 <= k < NUM_BUCKETS ==> match #[trigger] self.move_ids@[k] {
                        Some(i) => is_bucket_best(self.moves@, k, i as int, self.moves@.len() as int),
                        None => bucket_unused(self.moves@, k, self.moves@.len() as int),
                    },
                result@ == used_actions(self.moves@, b as int),
                forall|i: int| 0 <= i < result@.len() ==> self.has_action(#[trigger] result@[i]),
            decreases NUM_BUCKETS - b,
        {
            match self.move_ids[b] {
                Some(k) => {
                    assert(bucket_of(self.moves@[k as int]) == Some(b as int));
                    // +1 because action 0 is the best move of all
                    result.push(b + 1);
                },
                None => {},
            }
            b += 1;
        }
        result
    }
}

/// Number of tiles that a full rack holds.
pub const RACK_SIZE: usize = 7;

/// Largest number of tiles, in the bag and on the racks together, for
/// which the scores of a game are sure to stay within `i32`.
pub const TILE_LIMIT: usize = 100000;

/// Number of times `tile` occurs among the first `upto` tiles.
pub open spec fn tile_count(tiles: Seq<Letter>, tile: Letter, upto: int) -> int
    decreases upto,
{
    if upto <= 0 {
        0
    } else {
        tile_count(tiles, tile, upto - 1) + if tiles[upto - 1] == tile {
            1int
        } else {
            0int
        }
    }
}

/// Number of tiles on the first `upto` racks.
pub open spec fn racks_total(racks: Seq<Rack>, upto: int) -> int
    decreases upto,
{
    if upto <= 0 {
        0
    } else {
        racks_total(racks, upto - 1) + racks[upto - 1].n_total
    }
}

proof fn lemma_tile_count_monotone(tiles: Seq<Letter>, tile: Letter, a: int, b: int)
    requires
        0 <= a <= b,
    ensures
        0 <= tile_count(tiles, tile, a) <= tile_count(tiles, tile, b),
    decreases b,
{
    if b > 0 {
        if a < b {
            lemma_tile_count_monotone(tiles, tile, a, b - 1);
        } else {
            lemma_tile_count_monotone(tiles, tile, 0, b - 1);
        }
    }
}

proof fn lemma_tile_count_prefix(s: Seq<Letter>, t: Seq<Letter>, tile: Letter, upto: int)
    requires
        0 <= upto <= s.len(),
        upto <= t.len(),
        forall|i: int| 0 <= i < upto ==> s[i] == t[i],
    ensures
        tile_count(s, tile, upto) == tile_count(t, tile, upto),
    decreases upto,
{
    if upto > 0 {
        lemma_tile_count_prefix(s, t, tile, upto - 1);
    }
}

/// The tiles that a placement costs hold each kind of tile as often as
/// the placement needs it.
pub proof fn lemma_used_tiles_count(
    b: BoardView,
    word: Seq<u8>,
    pos: Position,
    dir: Direction,
    tile: Letter,
    upto: int,
)
    requires
        0 <= upto,
    ensures
        tile_count(
            b.used_tiles(word, pos, dir, upto),
            tile,
            b.used_tiles(word, pos, dir, upto).len() as int,
        ) == b.tiles_needed(word, pos, dir, tile, upto),
    decreases upto,
{
    if upto > 0 {
        lemma_used_tiles_count(b, word, pos, dir, tile, upto - 1);
        let before = b.used_tiles(word, pos, dir, upto - 1);
        let now = b.used_tiles(word, pos, dir, upto);
        if now != before {
            lemma_tile_count_prefix(now, before, tile, before.len() as int);
        }
    }
}

proof fn lemma_racks_total_update(racks: Seq<Rack>, p: int, rack: Rack, upto: int)
    requires
        0 <= p < racks.len(),
        0 <= upto <= racks.len(),
    ensures
        racks_total(racks.update(p, rack), upto) == racks_total(racks, upto) + if p < upto {
            rack.n_total - racks[p].n_total
        } else {
            0
        },
        racks_total(racks, upto) >= 0,
    decreases upto,
{
    if upto > 0 {
        lemma_racks_total_update(racks, p, rack, upto - 1);
    }
}

/// The seat after `p` at a table of `n`.
pub open spec fn next_seat(p: int, n: int) -> int {
    if p + 1 >= n {
        0
    } else {
        p + 1
    }
}

/// The seat `k` places after the seat that follows `p`.
pub open spec fn seat_after(p: int, n: int, k: int) -> int
    decreases k,
{
    if k <= 0 {
        next_seat(p, n)
    } else {
        next_seat(seat_after(p, n, k - 1), n)
    }
}

/// How many seats lie between the seat after `me` and seat `p`, going
/// round the table.
pub open spec fn seat_distance(me: int, p: int, n: int) -> int {
    if p > me {
        p - me - 1
    } else {
        p + n - me - 1
    }
}

/// The rack allows a move on the board.
pub open spec fn can_move(b: BoardView, rack: Rack, words: Set<Seq<u8>>) -> bool {
    super::movegen::has_candidate(b, rack, words, |c: super::movegen::Candidate| true)
}

/// A grid of all moves is empty exactly where no move can be made.
pub proof fn lemma_moves_empty(b: BoardView, rack: Rack, words: Set<Seq<u8>>, moves: Seq<Move>)
    requires
        all_moves(b, rack, words, moves),
    ensures
        moves.len() > 0 <==> can_move(b, rack, words),
{
    let any = |c: super::movegen::Candidate| true;
    if moves.len() > 0 {
        assert(super::movegen::move_has_candidate(b, rack, words, any, moves[0]));
    }
    if can_move(b, rack, words) {
        let c = choose|c: super::movegen::Candidate|
            any(c) && #[trigger] super::movegen::is_candidate(b, rack, words, c);
        assert(super::movegen::candidate_has_move(b, rack, words, moves, c));
    }
}

/// A game in progress.
pub struct ScrabbleState {
    /// Current tile bag
    bag: Bag,
    /// Board state
    board: ScrabbleBoard,
    /// Current racks for each player
    player_racks: Vec<Rack>,
    /// Current scores for each player
    player_scores: Vec<i32>,
    /// Flag to show whether or not each player is active
    player_active: Vec<bool>,
    /// Currently active player
    curr_player: usize,
    /// The moves open to the current player
    curr_move_grid: MoveGrid,
    /// The vocabulary, shared by all states of a game
    vocab: Rc<fst::Set<Vec<u8>>>,
}

impl ScrabbleState {
    /// There is a rack, a score and a flag for each player; no rack holds
    /// more than seven tiles; the move grid is that of the player to
    /// move; and the scores are small enough never to overflow.
    #[verifier::type_invariant]
    pub closed spec fn inv(self) -> bool {
        let n = self.player_racks@.len();
        &&& n >= 1
        &&& self.player_scores@.len() == n
        &&& self.player_active@.len() == n
        &&& self.curr_player < n
        &&& forall|p: int|
            0 <= p < n ==> (#[trigger] self.player_racks@[p]).wf() && self.player_racks@[p].n_total
                <= RACK_SIZE
        &&& all_moves(
            self.board@,
            self.player_racks@[self.curr_player as int],
            lexicon_words(*self.vocab),
            self.curr_move_grid.moves_view(),
        )
        &&& self.tiles_left() <= TILE_LIMIT
        &&& forall|p: int|
            0 <= p < n ==> 0 <= #[trigger] self.player_scores@[p] <= 19850 * (TILE_LIMIT
                - self.tiles_left())
    }

    /// Number of tiles in the bag and on the racks.
    pub closed spec fn tiles_left(self) -> int {
        self.bag.distribution@.len() + racks_total(self.player_racks@, self.player_racks@.len() as int)
    }

    /// The number of players.
    pub closed spec fn num_players(&self) -> int {
        self.player_racks@.len() as int
    }

    /// The grid of the board.
    pub closed spec fn board_view(&self) -> BoardView {
        self.board@
    }

    /// The tiles left in the bag.
    pub closed spec fn bag_view(&self) -> Seq<Letter> {
        self.bag.distribution@
    }

    /// Tiles are drawn from the bag at random rather than from its front.
    pub closed spec fn bag_is_random(&self) -> bool {
        self.bag.random
    }

    /// The words laid so far, oldest first.
    pub closed spec fn board_log(&self) -> Seq<super::board::PlacementView> {
        self.board.log()
    }

    /// The rack of player `p`.
    pub closed spec fn rack_of(&self, p: int) -> Rack {
        self.player_racks@[p]
    }

    /// The score of player `p`.
    pub closed spec fn score_of(&self, p: int) -> int {
        self.player_scores@[p] as int
    }

    /// Player `p` had a move when last asked.
    pub closed spec fn is_active(&self, p: int) -> bool {
        self.player_active@[p]
    }

    /// The player to move.
    pub closed spec fn current(&self) -> int {
        self.curr_player as int
    }

    /// The moves open to the player to move.
    pub closed spec fn grid(&self) -> MoveGrid {
        self.curr_move_grid
    }

    /// The words of the vocabulary.
    pub closed spec fn words(&self) -> Set<Seq<u8>> {
        lexicon_words(*self.vocab)
    }

    /// The number of players.
    pub fn player_count(&self) -> (n: usize)
        ensures
            n == self.num_players(),
            n >= 1,
    {
        proof {
            use_type_invariant(self);
        }
        self.player_racks.len()
    }

    /// The board.
    pub fn board(&self) -> (b: &ScrabbleBoard)
        ensures
            b@ == self.board_view(),
            b.log() == self.board_log(),
    {
        &self.board
    }

    /// The bag.
    pub fn bag(&self) -> (b: &Bag)
        ensures
            b.distribution@ == self.bag_view(),
            b.is_random() == self.bag_is_random(),
    {
        &self.bag
    }

    /// The rack of a player.
    pub fn rack(&self, player: usize) -> (r: &Rack)
        requires
            player < self.num_players(),
        ensures
            *r == self.rack_of(player as int),
            r.wf(),
            r.n_total <= RACK_SIZE,
    {
        proof {
            use_type_invariant(self);
        }
        &self.player_racks[player]
    }

    /// The moves open to the player to move.
    pub fn move_grid(&self) -> (g: &MoveGrid)
        ensures
            *g == self.grid(),
            all_moves(
                self.board_view(),
                self.rack_of(self.current()),
                self.words(),
                g.moves_view(),
            ),
    {
        proof {
            use_type_invariant(self);
        }
        &self.curr_move_grid
    }

    /// The player is still in the game: at their last turn they had a
    /// move.
    pub fn player_is_active(&self, player: usize) -> (r: bool)
        requires
            player < self.num_players(),
        ensures
            r == self.is_active(player as int),
    {
        proof {
            use_type_invariant(self);
        }
        self.player_active[player]
    }

    /// The grid of the player to move holds a move.
    pub open spec fn has_moves(&self) -> bool {
        self.grid().moves_view().len() > 0
    }

    /// The move that an action stands for in this state.
    pub open spec fn chosen(&self, action: usize) -> Move {
        self.grid().moves_view()[self.grid().move_index(action)]
    }

    /// What a turn does to board, bag, racks and scores. Without a move
    /// nothing changes. Else the chosen move is laid, its score goes to
    /// the player who moved, the tiles that it costs leave that player's
    /// rack, and as many tiles as the bag still has, up to that number,
    /// go from the bag to the rack.
    pub open spec fn played(&self, before: Self, action: usize) -> bool {
        let me = before.current();
        &&& self.num_players() == before.num_players()
        &&& self.words() == before.words()
        &&& self.bag_is_random() == before.bag_is_random()
        &&& forall|p: int|
            0 <= p < before.num_players() && p != me ==> #[trigger] self.rack_of(p)
                == before.rack_of(p) && self.score_of(p) == before.score_of(p)
        &&& !before.has_moves() ==> {
            &&& self.board_view() == before.board_view()
            &&& self.board_log() == before.board_log()
            &&& self.bag_view() == before.bag_view()
            &&& self.rack_of(me) == before.rack_of(me)
            &&& self.score_of(me) == before.score_of(me)
        }
        &&& before.has_moves() ==> {
            let mv = before.chosen(action);
            let n = mv.word@.len() as int;
            let cost = before.board_view().used_tiles(mv.word@, mv.pos, mv.dir, n).len();
            &&& self.board_view() == before.board_view().place(mv.word@, mv.pos, mv.dir)
            &&& self.board_log() == before.board_log().push((mv.word@, mv.pos, mv.dir))
            &&& !before.bag_is_random() ==> self.bag_view() == before.bag_view().skip(
                before.bag_view().len() - self.bag_view().len(),
            )
            &&& self.score_of(me) == before.score_of(me) + mv.score
            &&& self.bag_view().len() == if cost <= before.bag_view().len() {
                before.bag_view().len() - cost
            } else {
                0
            }
            &&& self.bag_view().to_multiset().subset_of(before.bag_view().to_multiset())
            &&& forall|tile: Letter| #[trigger]
                self.rack_of(me).count(tile) == before.rack_of(me).count(tile)
                    - before.board_view().tiles_needed(mv.word@, mv.pos, mv.dir, tile, n)
                    + before.bag_view().to_multiset().count(tile)
                    - self.bag_view().to_multiset().count(tile)
        }
    }

    /// Whose turn it is after a turn: the first player after the one who
    /// moved, in the order of the seats, whose rack allows a move. The
    /// players passed over on the way are inactive. Where nobody can
    /// move, everybody has been passed over once, everybody is inactive,
    /// and the turn stays with the last one asked.
    pub open spec fn turn_passed(&self, before: Self) -> bool {
        let n = before.num_players();
        exists|k: int|
            {
                &&& 0 <= k < n
                &&& self.current() == #[trigger] seat_after(before.current(), n, k)
                &&& forall|j: int|
                    0 <= j < k ==> !can_move(
                        self.board_view(),
                        self.rack_of(#[trigger] seat_after(before.current(), n, j)),
                        self.words(),
                    ) && !self.is_active(seat_after(before.current(), n, j))
                &&& self.is_active(self.current()) == can_move(
                    self.board_view(),
                    self.rack_of(self.current()),
                    self.words(),
                )
                &&& !self.is_active(self.current()) ==> k == n - 1
                &&& forall|p: int|
                    0 <= p < n && seat_distance(before.current(), p, n) > k ==> #[trigger] self.is_active(
                        p,
                    ) == before.is_active(p)
            }
    }
}

impl GameState for ScrabbleState {
    type Key = Vec<u8>;

    /// Every state is one that the game accepts.
    open spec fn valid(&self) -> bool {
        true
    }

    open spec fn player_count_spec(&self) -> int {
        self.num_players()
    }

    /// Action 0 may always be taken: it plays the best move, or passes
    /// where there is no move. Any other action may be taken where its
    /// bucket holds a move.
    open spec fn allows(&self, action: usize) -> bool {
        action == 0 || self.grid().has_action(action)
    }

    /// Checks that the state is one that the game accepts.
    fn is_valid(&self) -> (r: bool) {
        true
    }

    /// Checks that the action may be taken in this state.
    fn allows_action(&self, action: usize) -> (r: bool) {
        action == 0 || self.curr_move_grid.is_valid_action(action)
    }

    /// Gets the active player: the one to move.
    fn active_player(&self) -> (p: usize)
        ensures
            p == self.current(),
    {
        proof {
            use_type_invariant(self);
        }
        self.curr_player
    }

    /// The actions open to the player to move: those of the buckets that
    /// hold a move, ascending, and at the end action 0, which plays the
    /// best move of all, or passes where there is no move.
    fn valid_actions(&self) -> (valid: Vec<usize>)
        ensures
            valid@ == used_actions(self.grid().moves_view(), NUM_BUCKETS as int).push(0),
            forall|i: int| 0 <= i < valid@.len() ==> self.allows(#[trigger] valid@[i]),
    {
        let mut valid = self.curr_move_grid.get_valid_moves();
        valid.push(0);
        valid
    }

    /// The key of the state: the number of the player to move in decimal
    /// digits, then the cells of the board row by row.
    fn state_key(&self) -> (key: Vec<u8>)
        ensures
            key@ == decimal(self.current() as nat) + board_key(self.board_view(), BOARD_CELLS as int),
    {
        let mut key: Vec<u8> = Vec::new();
        push_decimal(&mut key, self.curr_player);
        let ghost head = key@;
        let mut row: usize = 0;
        while row < BOARD_SIZE
            invariant
                row <= BOARD_SIZE,
                key@ == head + board_key(self.board@, row * 15),
            decreases BOARD_SIZE - row,
        {
            let mut col: usize = 0;
            while col < BOARD_SIZE
                invariant
                    row < BOARD_SIZE,
                    col <= BOARD_SIZE,
                    key@ == head + board_key(self.board@, row * 15 + col),
                decreases BOARD_SIZE - col,
            {
                let pos = Position { row, col };
                let ghost before = key@;
                let ghost idx = row * 15 + col;
                let tile = self.board.tile(pos);
                match tile {
                    Tile::Empty => key.push(32),
                    Tile::Letter(letter) => match letter {
                        Letter::Letter(l) => {
                            if self.board.is_blank(pos) {
                                key.push(45)
                            } else {
                                key.push(l)
                            }
                        },
                        Letter::Blank => key.push(45),
                    },
                    Tile::Special(effect) => match effect {
                        SquareEffect::Center => key.push(67),
                        SquareEffect::DoubleLetter => {
                            key.push(68);
                            key.push(76);
                        },
                        SquareEffect::DoubleWord => {
                            key.push(68);
                            key.push(87);
                        },
                        SquareEffect::TripleLetter => {
                            key.push(84);
                            key.push(76);
                        },
                        SquareEffect::TripleWord => {
                            key.push(84);
                            key.push(87);
                        },
                    },
                }
                proof {
                    assert(super::board::cell_index(pos) == idx);
                    assert(key@ =~= before + cell_key(self.board@, idx as int));
                    assert(board_key(self.board@, idx + 1) == board_key(self.board@, idx as int)
                        + cell_key(self.board@, idx as int));
                    assert(key@ =~= head + board_key(self.board@, idx + 1));
                }
                col += 1;
            }
            row += 1;
        }
        key
    }

    /// Applies the action for the player to move and hands the turn on.
    #[verifier::rlimit(40)]
    fn next_state(&self, action: usize) -> (next: Option<Self>)
        ensures
            next->0.played(*self, action),
            next->0.turn_passed(*self),
    {
        proof {
            use_type_invariant(self);
        }
        let n = self.player_racks.len();
        let me = self.curr_player;
        let ghost words = self.words();
        let mut next_bag = self.bag.duplicate();
        let mut next_board = self.board.duplicate();
        let mut next_racks: Vec<Rack> = Vec::new();
        let mut next_scores: Vec<i32> = Vec::new();
        let mut next_player_active: Vec<bool> = Vec::new();
        let mut p: usize = 0;
        while p < n
            invariant
                p <= n,
                n == self.player_racks@.len(),
                n == self.player_scores@.len(),
                n == self.player_active@.len(),
                next_racks@ == self.player_racks@.take(p as int),
                next_scores@ == self.player_scores@.take(p as int),
                next_player_active@ == self.player_active@.take(p as int),
            decreases n - p,
        {
            next_racks.push(self.player_racks[p]);
            next_scores.push(self.player_scores[p]);
            next_player_active.push(self.player_active[p]);
            p += 1;
            assert(next_racks@ =~= self.player_racks@.take(p as int));
            assert(next_scores@ =~= self.player_scores@.take(p as int));
            assert(next_player_active@ =~= self.player_active@.take(p as int));
        }
        assert(next_racks@ =~= self.player_racks@);
        assert(next_scores@ =~= self.player_scores@);
        assert(next_player_active@ =~= self.player_active@);

        // We can only do this if we have available moves
        if !self.curr_move_grid.is_empty() {
            let selected_move = self.curr_move_grid.get_move(action);
            let rack = apply_move(&mut next_board, &mut next_bag, next_racks[me], selected_move);
            proof {
                lemma_racks_total_update(next_racks@, me as int, rack, n as int);
            }
            next_racks[me] = rack;
            // Add to the current player's score
            next_scores[me] = next_scores[me] + selected_move.score;
        }
        let ghost active0 = next_player_active@;
        let (next_player, next_movegrid) = find_next_player(
            &next_board,
            &next_bag,
            &next_racks,
            &mut next_player_active,
            &*self.vocab,
            me,
        );
        let ghost board1 = next_board@;
        let ghost racks1 = next_racks@;
        let ghost active1 = next_player_active@;
        assert(lexicon_words(*(&*self.vocab)) == words);
        let ghost k = choose|k: int|
            turn_found(board1, racks1, active0, active1, words, me as int, next_player as int, k);
        assert(turn_found(board1, racks1, active0, active1, words, me as int, next_player as int, k));
        let next = ScrabbleState {
            bag: next_bag,
            board: next_board,
            curr_move_grid: next_movegrid,
            curr_player: next_player,
            player_racks: next_racks,
            player_scores: next_scores,
            player_active: next_player_active,
            vocab: share(&self.vocab),
        };
        proof {
            assert(next.words() == words);
            assert(next.board_view() == board1);
            assert(next.player_racks@ == racks1);
            assert(next.player_active@ == active1);
            assert(next.num_players() == n);
            assert(self.num_players() == n);
            assert(self.current() == me);
            assert(next.current() == seat_after(self.current(), n as int, k));
            assert forall|j: int| 0 <= j < k implies !can_move(
                next.board_view(),
                next.rack_of(#[trigger] seat_after(self.current(), n as int, j)),
                next.words(),
            ) && !next.is_active(seat_after(self.current(), n as int, j)) by {
                lemma_seats_in_range(me as int, n as int, j);
                assert(!can_move(board1, racks1[seat_after(me as int, n as int, j)], words));
            }
            assert(next.is_active(next.current()) == can_move(
                next.board_view(),
                next.rack_of(next.current()),
                next.words(),
            ));
            assert(!next.is_active(next.current()) ==> k == n - 1);
            assert forall|p: int|
                0 <= p < n && seat_distance(self.current(), p, n as int) > k implies #[trigger] next.is_active(
                p,
            ) == self.is_active(p) by {
                assert(active1[p] == active0[p]);
            }
            assert(next.turn_passed(*self));
        }
        Some(next)
    }

    /// The game is over: no player is active.
    fn is_terminal(&self) -> (r: bool)
        ensures
            r == (forall|p: int| 0 <= p < self.num_players() ==> !self.is_active(p)),
    {
        let mut p: usize = 0;
        while p < self.player_active.len()
            invariant
                p <= self.player_active@.len(),
                forall|k: int| 0 <= k < p ==> !self.player_active@[k],
            decreases self.player_active@.len() - p,
        {
            if self.player_active[p] {
                proof {
                    use_type_invariant(self);
                    assert(self.is_active(p as int));
                }
                return false;
            }
            p += 1;
        }
        proof {
            use_type_invariant(self);
        }
        true
    }

    /// The payout of a player: the score.
    fn get_reward(&self, player: usize) -> (r: i32)
        ensures
            r == self.score_of(player as int),
            r >= 0,
    {
        proof {
            use_type_invariant(self);
        }
        self.player_scores[player]
    }
}

/// The turn went to `found`, the seat `k` places after the seat that
/// follows `me`: the players passed over cannot move and are inactive,
/// and `found` is active exactly if they can move. Everybody was asked
/// where `found` cannot move either.
pub open spec fn turn_found(
    b: BoardView,
    racks: Seq<Rack>,
    before: Seq<bool>,
    active: Seq<bool>,
    words: Set<Seq<u8>>,
    me: int,
    found: int,
    k: int,
) -> bool {
    let n = racks.len() as int;
    &&& 0 <= k < n
    &&& found == seat_after(me, n, k)
    &&& forall|j: int|
        0 <= j < k ==> !can_move(b, racks[#[trigger] seat_after(me, n, j)], words)
            && !active[seat_after(me, n, j)]
    &&& active[found] == can_move(b, racks[found], words)
    &&& !active[found] ==> k == n - 1
    &&& forall|p: int| 0 <= p < n && seat_distance(me, p, n) > k ==> #[trigger] active[p] == before[p]
}

/// Lays a move of a player: the word goes on the board, the tiles that
/// it costs leave the rack, and the rack is filled up from the bag as far
/// as the bag goes. Returns the rack after the move.
fn apply_move(board: &mut ScrabbleBoard, bag: &mut Bag, rack0: Rack, mv: &Move) -> (rack: Rack)
    requires
        rack0.wf(),
        rack0.n_total <= RACK_SIZE,
        is_legal(old(board)@, rack0, *mv),
    ensures
        final(board)@ == old(board)@.place(mv.word@, mv.pos, mv.dir),
        final(board).log() == old(board).log().push((mv.word@, mv.pos, mv.dir)),
        rack.wf(),
        rack.n_total <= RACK_SIZE,
        final(bag).is_random() == old(bag).is_random(),
        !old(bag).is_random() ==> final(bag).distribution@ == old(bag).distribution@.skip(
            old(bag).distribution@.len() - final(bag).distribution@.len(),
        ),
        final(bag).distribution@.len() == if old(board)@.used_tiles(
            mv.word@,
            mv.pos,
            mv.dir,
            mv.word@.len() as int,
        ).len() <= old(bag).distribution@.len() {
            old(bag).distribution@.len() - old(board)@.used_tiles(
                mv.word@,
                mv.pos,
                mv.dir,
                mv.word@.len() as int,
            ).len()
        } else {
            0
        },
        final(bag).distribution@.to_multiset().subset_of(old(bag).distribution@.to_multiset()),
        rack.n_total + final(bag).distribution@.len() + old(board)@.used_tiles(
            mv.word@,
            mv.pos,
            mv.dir,
            mv.word@.len() as int,
        ).len() == rack0.n_total + old(bag).distribution@.len(),
        forall|tile: Letter| #[trigger]
            rack.count(tile) == rack0.count(tile) - old(board)@.tiles_needed(
                mv.word@,
                mv.pos,
                mv.dir,
                tile,
                mv.word@.len() as int,
            ) + old(bag).distribution@.to_multiset().count(tile)
                - final(bag).distribution@.to_multiset().count(tile),
{
    let ghost board0 = board@;
    let ghost bag0 = bag.distribution@;
    let ghost len = mv.word@.len() as int;
    // Place the word
    let used_letters = board.place_word(mv.word.as_slice(), mv.pos, mv.dir);
    // Remove all the letters used to place the word
    let taken = take_tiles(rack0, &used_letters, Ghost(board0), Ghost(*mv));
    // Replenish the rack with new letters
    let drawn = bag.draw_tiles(used_letters.len());
    let rack = add_tiles(taken, &drawn);
    proof {
        assert forall|tile: Letter| #[trigger]
            rack.count(tile) == rack0.count(tile) - board0.tiles_needed(
                mv.word@,
                mv.pos,
                mv.dir,
                tile,
                len,
            ) + bag0.to_multiset().count(tile) - bag.distribution@.to_multiset().count(tile) by {
            lemma_used_tiles_count(board0, mv.word@, mv.pos, mv.dir, tile, len);
            lemma_tile_count_is_multiset(drawn@, tile, drawn@.len() as int);
            assert(drawn@.take(drawn@.len() as int) =~= drawn@);
            assert(bag.distribution@.to_multiset().add(drawn@.to_multiset()).count(tile)
                == bag0.to_multiset().count(tile));
        }
        assert forall|tile: Letter|
            bag.distribution@.to_multiset().count(tile) <= bag0.to_multiset().count(tile) by {
            assert(bag.distribution@.to_multiset().add(drawn@.to_multiset()).count(tile)
                == bag0.to_multiset().count(tile));
        }
    }
    rack
}

/// The rack without the tiles that a move costs.
fn take_tiles(rack0: Rack, used: &Vec<Letter>, Ghost(b): Ghost<BoardView>, Ghost(mv): Ghost<Move>) -> (rack:
    Rack)
    requires
        rack0.wf(),
        used@ == b.used_tiles(mv.word@, mv.pos, mv.dir, mv.word@.len() as int),
        forall|tile: Letter| #[trigger]
            b.tiles_needed(mv.word@, mv.pos, mv.dir, tile, mv.word@.len() as int) <= rack0.count(
                tile,
            ),
    ensures
        rack.wf(),
        rack.n_total == rack0.n_total - used@.len(),
        forall|tile: Letter| #[trigger]
            rack.count(tile) == rack0.count(tile) - tile_count(used@, tile, used@.len() as int),
{
    let ghost len = mv.word@.len() as int;
    let mut rack = rack0;
    let mut i: usize = 0;
    while i < used.len()
        invariant
            i <= used@.len(),
            len == mv.word@.len(),
            rack0.wf(),
            rack.wf(),
            used@ == b.used_tiles(mv.word@, mv.pos, mv.dir, len),
            forall|tile: Letter| #[trigger]
                b.tiles_needed(mv.word@, mv.pos, mv.dir, tile, len) <= rack0.count(tile),
            forall|tile: Letter| #[trigger]
                rack.count(tile) == rack0.count(tile) - tile_count(used@, tile, i as int),
            rack.n_total == rack0.n_total - i,
        decreases used@.len() - i,
    {
        let l = used[i];
        proof {
            lemma_used_tiles_count(b, mv.word@, mv.pos, mv.dir, l, len);
            lemma_tile_count_monotone(used@, l, i as int + 1, used@.len() as int);
            assert(rack.count(l) == rack0.count(l) - tile_count(used@, l, i as int));
            assert(b.tiles_needed(mv.word@, mv.pos, mv.dir, l, len) <= rack0.count(l));
            lemma_letters_bound(rack);
        }
        let ghost prev = rack;
        rack.remove_inplace(l);
        proof {
            assert forall|tile: Letter| #[trigger]
                rack.count(tile) == rack0.count(tile) - tile_count(used@, tile, i as int + 1) by {
                assert(prev.count(tile) == rack0.count(tile) - tile_count(used@, tile, i as int));
            }
        }
        i += 1;
    }
    rack
}

/// The rack with the tiles drawn from the bag.
fn add_tiles(rack0: Rack, drawn: &Vec<Letter>) -> (rack: Rack)
    requires
        rack0.wf(),
        rack0.n_total + drawn@.len() <= RACK_SIZE,
    ensures
        rack.wf(),
        rack.n_total == rack0.n_total + drawn@.len(),
        forall|tile: Letter| #[trigger]
            rack.count(tile) == rack0.count(tile) + tile_count(drawn@, tile, drawn@.len() as int),
{
    let mut rack = rack0;
    let mut d: usize = 0;
    while d < drawn.len()
        invariant
            d <= drawn@.len(),
            rack.wf(),
            rack0.n_total + drawn@.len() <= RACK_SIZE,
            rack.n_total == rack0.n_total + d,
            forall|tile: Letter| #[trigger]
                rack.count(tile) == rack0.count(tile) + tile_count(drawn@, tile, d as int),
        decreases drawn@.len() - d,
    {
        let l = drawn[d];
        proof {
            lemma_letters_bound(rack);
        }
        let ghost prev = rack;
        rack.add_inplace(l);
        proof {
            assert forall|tile: Letter| #[trigger]
                rack.count(tile) == rack0.count(tile) + tile_count(drawn@, tile, d as int + 1) by {
                assert(prev.count(tile) == rack0.count(tile) + tile_count(drawn@, tile, d as int));
            }
        }
        d += 1;
    }
    rack
}

/// Finds the next player who has a move, asking each player once,
/// starting with the one after `me`. Each player found without a move is
/// marked inactive; a player found with a move is marked active.
fn find_next_player(
    board: &ScrabbleBoard,
    bag: &Bag,
    racks: &Vec<Rack>,
    active: &mut Vec<bool>,
    vocab: &fst::Set<Vec<u8>>,
    me: usize,
) -> (r: (usize, MoveGrid))
    requires
        me < racks@.len(),
        old(active)@.len() == racks@.len(),
        forall|p: int| 0 <= p < racks@.len() ==> (#[trigger] racks@[p]).wf(),
    ensures
        r.0 < racks@.len(),
        final(active)@.len() == racks@.len(),
        all_moves(board@, racks@[r.0 as int], lexicon_words(*vocab), r.1.moves_view()),
        exists|k: int|
            turn_found(
                board@,
                racks@,
                old(active)@,
                final(active)@,
                lexicon_words(*vocab),
                me as int,
                r.0 as int,
                k,
            ),
{
    let n = racks.len();
    let ghost words = lexicon_words(*vocab);
    let ghost b = board@;
    let mut next_player = if me + 1 >= n {
        0
    } else {
        me + 1
    };
    let mut next_movegrid = MoveGrid::build(bag, board, vocab, &racks[next_player]);
    let mut passed: usize = 0;
    loop
        invariant_except_break
            passed < n,
            me < n,
            n == racks@.len(),
            active@.len() == n,
            b == board@,
            words == lexicon_words(*vocab),
            next_player == seat_after(me as int, n as int, passed as int),
            next_player < n,
            forall|p: int| 0 <= p < n ==> (#[trigger] racks@[p]).wf(),
            all_moves(b, racks@[next_player as int], words, next_movegrid.moves_view()),
            forall|j: int|
                0 <= j < passed ==> !can_move(
                    b,
                    racks@[#[trigger] seat_after(me as int, n as int, j)],
                    words,
                ) && !active@[seat_after(me as int, n as int, j)],
            forall|p: int|
                0 <= p < n && seat_distance(me as int, p, n as int) >= passed ==> #[trigger] active@[p]
                    == old(active)@[p],
        ensures
            active@.len() == n,
            next_player < n,
            all_moves(b, racks@[next_player as int], words, next_movegrid.moves_view()),
            turn_found(
                b,
                racks@,
                old(active)@,
                active@,
                words,
                me as int,
                next_player as int,
                passed as int,
            ),
        decreases n - passed,
    {
        proof {
            lemma_moves_empty(b, racks@[next_player as int], words, next_movegrid.moves_view());
            lemma_seats_in_range(me as int, n as int, passed as int);
            lemma_seat_number(me as int, n as int, passed as int);
        }
        let ghost flags = active@;
        if !next_movegrid.is_empty() {
            active[next_player] = true;
            proof {
                assert forall|j: int| 0 <= j < passed implies !active@[#[trigger] seat_after(
                    me as int,
                    n as int,
                    j,
                )] by {
                    lemma_seats_differ(me as int, n as int, j, passed as int);
                    lemma_seats_in_range(me as int, n as int, j);
                    assert(!flags[seat_after(me as int, n as int, j)]);
                }
            }
            break ;
        }
        active[next_player] = false;
        proof {
            assert forall|j: int| 0 <= j < passed + 1 implies !active@[#[trigger] seat_after(
                me as int,
                n as int,
                j,
            )] by {
                if j < passed {
                    lemma_seats_in_range(me as int, n as int, j);
                    assert(!flags[seat_after(me as int, n as int, j)]);
                }
            }
        }
        if passed + 1 >= n {
            break ;
        }
        passed += 1;
        next_player = if next_player + 1 >= n {
            0
        } else {
            next_player + 1
        };
        next_movegrid = MoveGrid::build(bag, board, vocab, &racks[next_player]);
    }
    (next_player, next_movegrid)
}

/// No kind of tile is on a rack more often than the rack has tiles.
proof fn lemma_letters_bound(rack: Rack)
    requires
        rack.wf(),
    ensures
        forall|tile: Letter| 0 <= #[trigger] rack.count(tile) <= rack.n_total,
{
    super::rack::lemma_letters_sum_bounds(rack.letters@, 256);
}

proof fn lemma_tile_count_is_multiset(tiles: Seq<Letter>, tile: Letter, upto: int)
    requires
        0 <= upto <= tiles.len(),
    ensures
        tile_count(tiles, tile, upto) == tiles.take(upto).to_multiset().count(tile),
    decreases upto,
{
    broadcast use vstd::seq_lib::group_to_multiset_ensures;

    if upto > 0 {
        lemma_tile_count_is_multiset(tiles, tile, upto - 1);
        assert(tiles.take(upto) =~= tiles.take(upto - 1).push(tiles[upto - 1]));
    } else {
        assert(tiles.take(0) =~= Seq::<Letter>::empty());
    }
}

proof fn lemma_seats_in_range(p: int, n: int, k: int)
    requires
        0 <= p < n,
        0 <= k,
    ensures
        0 <= seat_after(p, n, k) < n,
    decreases k,
{
    if k > 0 {
        lemma_seats_in_range(p, n, k - 1);
    }
}

/// The seat `k` places after the next one, by its number.
proof fn lemma_seat_number(p: int, n: int, k: int)
    requires
        0 <= p < n,
        0 <= k < n,
    ensures
        seat_after(p, n, k) == if p + 1 + k < n {
            p + 1 + k
        } else {
            p + 1 + k - n
        },
    decreases k,
{
    if k > 0 {
        lemma_seat_number(p, n, k - 1);
    }
}

/// Two of the first `n` seats after a player are different seats.
proof fn lemma_seats_differ(p: int, n: int, j: int, k: int)
    requires
        0 <= p < n,
        0 <= j < k < n,
    ensures
        seat_after(p, n, j) != seat_after(p, n, k),
{
    lemma_seat_number(p, n, j);
    lemma_seat_number(p, n, k);
}

/// How a cell is written in the key of a state: a space for a plain
/// square, the letter for a letter, `-` for a blank tile, and `C`, `DL`,
/// `DW`, `TL` or `TW` for a premium square not yet covered.
pub open spec fn cell_key(b: BoardView, idx: int) -> Seq<u8> {
    match b.tiles[idx] {
        Tile::Empty => seq![32u8],
        Tile::Letter(Letter::Letter(l)) => if b.blanks[idx] {
            seq![45u8]
        } else {
            seq![l]
        },
        Tile::Letter(Letter::Blank) => seq![45u8],
        Tile::Special(SquareEffect::Center) => seq![67u8],
        Tile::Special(SquareEffect::DoubleLetter) => seq![68u8, 76u8],
        Tile::Special(SquareEffect::DoubleWord) => seq![68u8, 87u8],
        Tile::Special(SquareEffect::TripleLetter) => seq![84u8, 76u8],
        Tile::Special(SquareEffect::TripleWord) => seq![84u8, 87u8],
    }
}

/// The first `upto` cells of the board, row by row, as written in the
/// key of a state.
pub open spec fn board_key(b: BoardView, upto: int) -> Seq<u8>
    decreases upto,
{
    if upto <= 0 {
        Seq::empty()
    } else {
        board_key(b, upto - 1) + cell_key(b, upto - 1)
    }
}

/// The crossword game for a number of players and a vocabulary.
pub struct ScrabbleGame {
    /// Number of players in the game
    n_players: usize,
    /// Number of valid actions
    n_actions: usize,
    /// Vocabulary tied to the game
    vocab: Rc<fst::Set<Vec<u8>>>,
}

impl ScrabbleGame {
    /// There is at least one player.
    #[verifier::type_invariant]
    pub closed spec fn inv(self) -> bool {
        self.n_players >= 1 && self.n_actions == NUM_ACTIONS
    }

    /// The number of players.
    pub closed spec fn players(&self) -> int {
        self.n_players as int
    }

    /// The words of the vocabulary.
    pub closed spec fn words(&self) -> Set<Seq<u8>> {
        lexicon_words(*self.vocab)
    }

    /// A game for `n_players` players, at least one.
    pub fn new(n_players: usize, vocab: Rc<fst::Set<Vec<u8>>>) -> (game: Self)
        requires
            n_players >= 1,
        ensures
            game.players() == n_players,
            game.words() == lexicon_words(*vocab),
    {
        Self { n_actions: BOARD_SIZE * BOARD_SIZE * MAX_LENGTH + 1, n_players, vocab }
    }

    /// Deals the racks from the bag, in the order of the seats, and
    /// builds the moves of the first player.
    fn deal(&self, bag: Bag) -> (state: ScrabbleState)
        requires
            bag.distribution@.len() <= TILE_LIMIT,
        ensures
            state.opens(*self, bag),
    {
        proof {
            use_type_invariant(self);
        }
        let ghost bag0 = bag.distribution@;
        let ghost random = bag.random;
        let ghost n0 = bag0.len() as int;
        let mut bag = bag;
        let mut racks: Vec<Rack> = Vec::new();
        let mut scores: Vec<i32> = Vec::new();
        let mut active: Vec<bool> = Vec::new();
        let mut p: usize = 0;
        while p < self.n_players
            invariant
                p <= self.n_players,
                n0 == bag0.len(),
                racks@.len() == p,
                scores@.len() == p,
                active@.len() == p,
                bag.random == random,
                forall|k: int| 0 <= k < p ==> (#[trigger] racks@[k]).wf() && racks@[k].n_total <= RACK_SIZE,
                forall|k: int|
                    0 <= k < p ==> (#[trigger] racks@[k]).n_total == dealt_before(n0, k + 1)
                        - dealt_before(n0, k),
                forall|k: int| 0 <= k < p ==> #[trigger] scores@[k] == 0,
                forall|k: int| 0 <= k < p ==> #[trigger] active@[k],
                bag.distribution@.len() == n0 - dealt_before(n0, p as int),
                bag.distribution@.len() + racks_total(racks@, p as int) == n0,
                bag.distribution@.to_multiset().subset_of(bag0.to_multiset()),
                !random ==> bag.distribution@ == bag0.skip(dealt_before(n0, p as int)),
                !random ==> forall|k: int, tile: Letter|
                    0 <= k < p ==> #[trigger] racks@[k].count(tile) == tile_count(
                        bag0,
                        tile,
                        dealt_before(n0, k + 1),
                    ) - tile_count(bag0, tile, dealt_before(n0, k)),
            decreases self.n_players - p,
        {
            let ghost before = racks@;
            let ghost bag_before = bag.distribution@;
            let drawn = bag.draw_tiles(RACK_SIZE);
            let rack = add_tiles(Rack::empty(), &drawn);
            racks.push(rack);
            scores.push(0);
            active.push(true);
            proof {
                lemma_racks_total_prefix(racks@, before, p as int);
                assert forall|tile: Letter|
                    bag.distribution@.to_multiset().count(tile) <= bag0.to_multiset().count(tile) by {
                    assert(bag.distribution@.to_multiset().add(drawn@.to_multiset()).count(tile)
                        == bag_before.to_multiset().count(tile));
                    assert(bag_before.to_multiset().count(tile) <= bag0.to_multiset().count(tile));
                }
                if !random {
                    let from = dealt_before(n0, p as int);
                    let len = drawn@.len() as int;
                    assert(from + len == dealt_before(n0, p as int + 1));
                    assert(bag.distribution@ =~= bag0.skip(from + len));
                    assert(drawn@ == bag0.skip(from).take(len));
                    assert forall|k: int, tile: Letter| 0 <= k < p + 1 implies #[trigger] racks@[k].count(
                        tile,
                    ) == tile_count(bag0, tile, dealt_before(n0, k + 1)) - tile_count(
                        bag0,
                        tile,
                        dealt_before(n0, k),
                    ) by {
                        if k < p {
                            assert(racks@[k] == before[k]);
                        } else {
                            lemma_tile_count_segment(bag0, tile, from, len);
                        }
                    }
                }
            }
            p += 1;
        }
        // Compute the initial move grid for the first player
        let board = ScrabbleBoard::empty();
        let move_grid = MoveGrid::build(&bag, &board, &*self.vocab, &racks[0]);
        ScrabbleState {
            bag,
            curr_move_grid: move_grid,
            curr_player: 0,
            player_racks: racks,
            player_scores: scores,
            player_active: active,
            board,
            vocab: share(&self.vocab),
        }
    }

    /// Starts the game with the given bag, provided that it does not hold
    /// more tiles than `TILE_LIMIT`.
    pub fn start_with_bag(&self, bag: Bag) -> (state: Option<ScrabbleState>)
        ensures
            state is Some <==> bag.distribution@.len() <= TILE_LIMIT,
            state matches Some(s) ==> s.opens(*self, bag),
    {
        if bag.distribution.len() <= TILE_LIMIT {
            Some(self.deal(bag))
        } else {
            None
        }
    }

}

/// The bag is drawn from at random and holds the hundred tiles of the
/// game, of each kind as many as the game has.
pub open spec fn is_full_bag(bag: Bag) -> bool {
    &&& bag.is_random()
    &&& bag.distribution@.len() == 100
    &&& forall|l: Letter| #[trigger]
        bag.distribution@.to_multiset().count(l) == super::bag::standard_amount(l)
}

/// How many tiles of a bag of `n` have been dealt before player `p` gets
/// a rack: seven for each earlier player, as far as the bag goes.
pub open spec fn dealt_before(n: int, p: int) -> int {
    if 7 * p <= n {
        7 * p
    } else {
        n
    }
}

/// A stretch of tiles holds a kind of tile as often as the tiles up to
/// its end hold it more often than the tiles up to its start.
proof fn lemma_tile_count_segment(tiles: Seq<Letter>, tile: Letter, from: int, len: int)
    requires
        0 <= from,
        0 <= len,
        from + len <= tiles.len(),
    ensures
        tile_count(tiles.skip(from).take(len), tile, len) == tile_count(tiles, tile, from + len)
            - tile_count(tiles, tile, from),
    decreases len,
{
    if len > 0 {
        lemma_tile_count_segment(tiles, tile, from, len - 1);
        lemma_tile_count_prefix(
            tiles.skip(from).take(len),
            tiles.skip(from).take(len - 1),
            tile,
            len - 1,
        );
    }
}

impl Game for ScrabbleGame {
    type State = ScrabbleState;

    /// Every game is one that can be played.
    open spec fn valid(&self) -> bool {
        true
    }

    open spec fn player_count_spec(&self) -> int {
        self.players()
    }

    /// Checks that the game is one that can be played.
    fn is_valid(&self) -> (r: bool) {
        true
    }

    /// The number of players.
    fn num_players(&self) -> (n: usize)
        ensures
            n >= 1,
    {
        proof {
            use_type_invariant(self);
        }
        self.n_players
    }

    /// The number of actions of the game, whether or not a state allows
    /// them: one for each cell and word length, and the action for the
    /// best move.
    fn num_actions(&self) -> (n: usize)
        ensures
            n == NUM_ACTIONS,
    {
        proof {
            use_type_invariant(self);
        }
        self.n_actions
    }

    /// Starts the game with a full bag in random order: the hundred tiles
    /// of the game.
    fn start(&self) -> (state: ScrabbleState)
        ensures
            exists|bag: Bag| #[trigger] state.opens(*self, bag) && is_full_bag(bag),
    {
        let bag = Bag::default();
        let ghost full = bag;
        let state = self.deal(bag);
        assert(state.opens(*self, full));
        state
    }

    /// Resets the game. A game keeps nothing between two starts.
    fn reset(&mut self)
        ensures
            *final(self) == *old(self),
    {
    }
}

proof fn lemma_racks_total_prefix(longer: Seq<Rack>, shorter: Seq<Rack>, upto: int)
    requires
        0 <= upto <= shorter.len(),
        shorter.len() <= longer.len(),
        forall|i: int| 0 <= i < upto ==> longer[i] == shorter[i],
    ensures
        racks_total(longer, upto) == racks_total(shorter, upto),
    decreases upto,
{
    if upto > 0 {
        lemma_racks_total_prefix(longer, shorter, upto - 1);
    }
}

impl ScrabbleState {
    /// The state opens a game with the given bag: the board has no
    /// letter, every score is 0, every player is active, the first player
    /// is to move, and the racks hold tiles of the bag, seven each as far
    /// as the bag goes; what is left is the bag of the state.
    pub open spec fn opens(&self, game: ScrabbleGame, bag: Bag) -> bool {
        let tiles = bag.distribution@;
        &&& self.num_players() == game.players()
        &&& self.words() == game.words()
        &&& self.current() == 0
        &&& self.board_log() == Seq::<super::board::PlacementView>::empty()
        &&& forall|i: int|
            0 <= i < BOARD_CELLS ==> #[trigger] self.board_view().tiles[i]
                == super::board::standard_tile(i / 15, i % 15) && !self.board_view().blanks[i]
        &&& forall|p: int|
            0 <= p < self.num_players() ==> self.score_of(p) == 0 && #[trigger] self.is_active(p)
                && self.rack_of(p).n_total == dealt_before(tiles.len() as int, p + 1) - dealt_before(
                tiles.len() as int,
                p,
            )
        &&& self.bag_is_random() == bag.is_random()
        &&& self.bag_view().len() == tiles.len() - dealt_before(
            tiles.len() as int,
            self.num_players(),
        )
        &&& self.bag_view().to_multiset().subset_of(tiles.to_multiset())
        &&& !bag.is_random() ==> {
            &&& self.bag_view() == tiles.skip(dealt_before(tiles.len() as int, self.num_players()))
            &&& forall|p: int, tile: Letter|
                0 <= p < self.num_players() ==> #[trigger] self.rack_of(p).count(tile) == tile_count(
                    tiles,
                    tile,
                    dealt_before(tiles.len() as int, p + 1),
                ) - tile_count(tiles, tile, dealt_before(tiles.len() as int, p))
        }
    }
}

} // verus!
