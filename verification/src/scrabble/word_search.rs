//! The matcher that finds the words of the vocabulary that can be laid
//! on a stretch of the board with the tiles of a rack.

use vstd::prelude::*;
use std::rc::Rc;
use super::board::{is_lower, rack_tile};
use super::constraint::{constraints_view, Constraint, ConstraintView};
use super::lexicon::{run, LineMatcher};
use super::rack::Rack;
use super::util::{share, Letter};

verus! {

/// A blank tile laid as `letter` at place `position` of a word.
#[derive(Debug, Clone, Copy, PartialEq, Eq, Structural)]
pub struct BlankAssignment {
    pub letter: u8,
    pub position: usize,
}

/// Which places of a word were filled with a blank tile, and with which
/// letter: a list that grows at the front and shares its tail.
#[derive(Debug, Clone, PartialEq)]
pub enum BlankAssignmentList {
    Empty,
    Elem(BlankAssignment, Rc<BlankAssignmentList>),
}

impl BlankAssignmentList {
    /// The entries, the latest first: the letter and the place in the
    /// word.
    pub open spec fn entries(self) -> Seq<BlankAssignment>
        decreases self,
    {
        match self {
            BlankAssignmentList::Empty => Seq::empty(),
            BlankAssignmentList::Elem(e, rest) => seq![e] + (*rest).entries(),
        }
    }

    /// A blank was laid at place `i`.
    pub open spec fn covers(self, i: int) -> bool {
        exists|k: int| 0 <= k < self.entries().len() && (#[trigger] self.entries()[k]).position == i
    }

    /// Another handle on the same list.
    pub fn share(&self) -> (r: Self)
        ensures
            r == *self,
    {
        match self {
            BlankAssignmentList::Empty => BlankAssignmentList::Empty,
            BlankAssignmentList::Elem(e, rest) => BlankAssignmentList::Elem(*e, share(rest)),
        }
    }
}

/// How far a word has been laid along the line.
#[derive(Debug, Clone)]
pub struct WordSearcherState {
    /// Position on the line
    pub position: usize,
    /// Blank tiles that have been given a letter
    pub blank_assignments: BlankAssignmentList,
    /// Remaining tiles in the rack
    pub rack: Rack,
}

/// Finds words for one stretch of the board.
#[derive(Debug, Clone)]
pub struct WordSearcher<'a> {
    /// The line we are searching for words on with constraints
    pub line: &'a [Constraint],
    /// The tiles that the player holds
    pub rack: Rack,
    /// Minimum length for anything to be considered a word
    pub min_length: usize,
}

/// The state one place further, with the rack and the blanks given.
pub open spec fn advanced(
    state: WordSearcherState,
    rack: Rack,
    blanks: BlankAssignmentList,
) -> WordSearcherState {
    WordSearcherState { position: (state.position + 1) as usize, blank_assignments: blanks, rack }
}

/// The state before any byte: at the start of the line, with the whole
/// rack and no blank laid.
pub open spec fn word_start(rack: Rack) -> Option<WordSearcherState> {
    Some(WordSearcherState { position: 0, rack, blank_assignments: BlankAssignmentList::Empty })
}

/// The state after one more byte. A letter on the board must agree with
/// the byte, a blank on the board agrees with every byte, and neither
/// costs a tile. On a free cell that takes any letter at all, the byte
/// costs its tile from the rack or, where the rack has none, a blank,
/// which is noted with its place. Everything else fails.
pub open spec fn word_step(
    line: Seq<ConstraintView>,
    state: Option<WordSearcherState>,
    byte: u8,
) -> Option<WordSearcherState> {
    match state {
        None => None,
        Some(s) => if s.position >= line.len() {
            None
        } else {
            match line[s.position as int] {
                ConstraintView::Filled(Letter::Blank) => Some(
                    advanced(s, s.rack, s.blank_assignments),
                ),
                ConstraintView::Filled(Letter::Letter(l)) => if l == byte {
                    Some(advanced(s, s.rack, s.blank_assignments))
                } else {
                    None
                },
                ConstraintView::Empty(set) => if set == Set::<u8>::empty() {
                    None
                } else if s.rack.count(Letter::Letter(byte)) > 0 {
                    Some(advanced(s, s.rack.without(Letter::Letter(byte)), s.blank_assignments))
                } else if s.rack.count(Letter::Blank) > 0 {
                    Some(
                        advanced(
                            s,
                            s.rack.without(Letter::Blank),
                            BlankAssignmentList::Elem(
                                BlankAssignment { letter: byte, position: s.position },
                                Rc::new(s.blank_assignments),
                            ),
                        ),
                    )
                } else {
                    None
                },
            }
        },
    }
}

/// The state after a whole word.
pub open spec fn word_run(line: Seq<ConstraintView>, rack: Rack, word: Seq<u8>) -> Option<
    WordSearcherState,
>
    decreases word.len(),
{
    if word.len() == 0 {
        word_start(rack)
    } else {
        word_step(line, word_run(line, rack, word.drop_last()), word.last())
    }
}

/// A word may end in this state: it does not stop in front of a letter,
/// at least one tile of the rack has been laid, and the word has the
/// least length.
pub open spec fn word_match(
    line: Seq<ConstraintView>,
    rack: Rack,
    min_length: int,
    state: Option<WordSearcherState>,
) -> bool {
    match state {
        None => false,
        Some(s) => {
            &&& !(s.position < line.len() && line[s.position as int] is Filled)
            &&& rack.n_total != s.rack.n_total
            &&& s.position >= min_length
        },
    }
}

/// The word can be laid from the start of the line with tiles of the
/// rack.
pub open spec fn word_accepts(
    line: Seq<ConstraintView>,
    rack: Rack,
    min_length: int,
    word: Seq<u8>,
) -> bool {
    word_match(line, rack, min_length, word_run(line, rack, word))
}

impl<'a> LineMatcher for WordSearcher<'a> {
    type State = Option<WordSearcherState>;

    open spec fn wf(&self) -> bool {
        self.rack.wf() && self.line@.len() < usize::MAX
    }

    open spec fn state_ok(&self, state: Self::State) -> bool {
        state matches Some(s) ==> s.rack.wf() && s.position <= self.line@.len()
    }

    open spec fn start_spec(&self) -> Self::State {
        word_start(self.rack)
    }

    open spec fn accept_spec(&self, state: Self::State, byte: u8) -> Self::State {
        word_step(constraints_view(self.line@), state, byte)
    }

    open spec fn is_match_spec(&self, state: Self::State) -> bool {
        word_match(constraints_view(self.line@), self.rack, self.min_length as int, state)
    }

    open spec fn can_match_spec(&self, state: Self::State) -> bool {
        state is Some
    }

    fn start(&self) -> (r: Self::State) {
        Some(
            WordSearcherState {
                position: 0,
                rack: self.rack,
                blank_assignments: BlankAssignmentList::Empty,
            },
        )
    }

    fn is_match(&self, state: &Self::State) -> (r: bool) {
        match state {
            Some(state) => {
                // The word must not stop in front of a letter
                let before_letter = if state.position < self.line.len() {
                    match self.line[state.position] {
                        Constraint::Filled(_) => true,
                        _ => false,
                    }
                } else {
                    false
                };
                if before_letter {
                    false
                } else if self.rack.n_total == state.rack.n_total {
                    // Cannot match if no tile of the rack has been laid
                    false
                } else {
                    // Must have a word at least as long as the min length
                    state.position >= self.min_length
                }
            },
            None => false,
        }
    }

    fn accept(&self, curr_state: &Self::State, byte: u8) -> (r: Self::State) {
        match curr_state {
            None => None,
            Some(state) => {
                if state.position >= self.line.len() {
                    return None;
                }
                match self.line[state.position] {
                    // Blanks on the board match any letter
                    Constraint::Filled(Letter::Blank) => Some(
                        WordSearcherState {
                            position: state.position + 1,
                            blank_assignments: state.blank_assignments.share(),
                            rack: state.rack,
                        },
                    ),
                    // The letter must match the tile on the board
                    Constraint::Filled(Letter::Letter(l)) => {
                        if l == byte {
                            Some(
                                WordSearcherState {
                                    position: state.position + 1,
                                    blank_assignments: state.blank_assignments.share(),
                                    rack: state.rack,
                                },
                            )
                        } else {
                            None
                        }
                    },
                    // Take the letter from the rack, or else a blank
                    Constraint::Empty(letter_set) => {
                        if letter_set.is_empty() {
                            None
                        } else {
                            match state.rack.remove(byte) {
                                Some(rack) => Some(
                                    WordSearcherState {
                                        position: state.position + 1,
                                        blank_assignments: state.blank_assignments.share(),
                                        rack,
                                    },
                                ),
                                None => match state.rack.remove_wildcard() {
                                    Some(rack) => Some(
                                        WordSearcherState {
                                            position: state.position + 1,
                                            blank_assignments: BlankAssignmentList::Elem(
                                                BlankAssignment {
                                                    letter: byte,
                                                    position: state.position,
                                                },
                                                Rc::new(state.blank_assignments.share()),
                                            ),
                                            rack,
                                        },
                                    ),
                                    None => None,
                                },
                            }
                        }
                    },
                }
            },
        }
    }

    fn can_match(&self, state: &Self::State) -> (r: bool) {
        state.is_some()
    }

    proof fn lemma_start_ok(&self) {
    }

    proof fn lemma_accept_ok(&self, state: Self::State, byte: u8) {
        match state {
            Some(s) => {
                if s.position < self.line@.len() {
                    if s.rack.count(Letter::Letter(byte)) > 0 {
                        super::rack::lemma_without_wf(s.rack, Letter::Letter(byte));
                    } else if s.rack.count(Letter::Blank) > 0 {
                        super::rack::lemma_without_wf(s.rack, Letter::Blank);
                    }
                }
            },
            None => {},
        }
    }

    proof fn lemma_dead_state(&self, state: Self::State, byte: u8) {
    }
}

/// The matcher runs as `word_run` says.
pub proof fn lemma_searcher_is_word_run(m: &WordSearcher<'_>, word: Seq<u8>)
    ensures
        run(m, word) == word_run(constraints_view(m.line@), m.rack, word),
    decreases word.len(),
{
    if word.len() > 0 {
        lemma_searcher_is_word_run(m, word.drop_last());
    }
}

/// The lower-case form of a capital ASCII letter; every other byte is
/// left as it is.
pub open spec fn lower(c: u8) -> u8 {
    if 65 <= c <= 90 {
        (c + 32) as u8
    } else {
        c
    }
}

/// The word is written in capital ASCII letters.
pub open spec fn is_capital_word(word: Seq<u8>) -> bool {
    forall|i: int| 0 <= i < word.len() ==> 65 <= #[trigger] word[i] <= 90
}

/// The word as it is handed out: in lower case at the places where a
/// blank was laid.
pub open spec fn emitted(word: Seq<u8>, blanks: BlankAssignmentList) -> Seq<u8> {
    Seq::new(
        word.len(),
        |i: int|
            if blanks.covers(i) {
                lower(word[i])
            } else {
                word[i]
            },
    )
}

/// The tile laid at place `i`: a blank where one is noted, else the
/// letter of the word.
pub open spec fn laid_tile(word: Seq<u8>, blanks: BlankAssignmentList, i: int) -> Letter {
    if blanks.covers(i) {
        Letter::Blank
    } else {
        Letter::Letter(word[i])
    }
}

/// Number of free cells among the first `upto` of the line on which the
/// tile `tile` was laid.
pub open spec fn laid_count(
    line: Seq<ConstraintView>,
    word: Seq<u8>,
    blanks: BlankAssignmentList,
    tile: Letter,
    upto: int,
) -> int
    decreases upto,
{
    if upto <= 0 {
        0
    } else {
        laid_count(line, word, blanks, tile, upto - 1) + if line[upto - 1] is Empty && laid_tile(
            word,
            blanks,
            upto - 1,
        ) == tile {
            1int
        } else {
            0int
        }
    }
}

/// Number of free cells among the first `upto` of the line.
pub open spec fn free_cells(line: Seq<ConstraintView>, upto: int) -> int
    decreases upto,
{
    if upto <= 0 {
        0
    } else {
        free_cells(line, upto - 1) + if line[upto - 1] is Empty {
            1int
        } else {
            0int
        }
    }
}

/// Number of free cells among the first `upto` of the line on which the
/// word, as handed out, costs the tile `tile`.
pub open spec fn tiles_needed(line: Seq<ConstraintView>, out: Seq<u8>, tile: Letter, upto: int) -> int
    decreases upto,
{
    if upto <= 0 {
        0
    } else {
        tiles_needed(line, out, tile, upto - 1) + if line[upto - 1] is Empty && rack_tile(
            out[upto - 1],
        ) == tile {
            1int
        } else {
            0int
        }
    }
}

/// Number of lower-case bytes among the first `upto` of a word.
pub open spec fn lower_case_count(out: Seq<u8>, upto: int) -> int
    decreases upto,
{
    if upto <= 0 {
        0
    } else {
        lower_case_count(out, upto - 1) + if is_lower(out[upto - 1]) {
            1int
        } else {
            0int
        }
    }
}

/// What holds of a state that a word has led to.
pub open spec fn trace_ok(
    line: Seq<ConstraintView>,
    rack: Rack,
    word: Seq<u8>,
    s: WordSearcherState,
) -> bool {
    &&& s.position == word.len()
    &&& word.len() <= line.len()
    &&& s.rack.wf()
    &&& forall|i: int|
        0 <= i < word.len() ==> (#[trigger] line[i] matches ConstraintView::Filled(Letter::Letter(l))
            ==> l == word[i])
    &&& forall|k: int|
        0 <= k < s.blank_assignments.entries().len() ==> {
            let e = #[trigger] s.blank_assignments.entries()[k];
            e.position < word.len() && line[e.position as int] is Empty && e.letter
                == word[e.position as int]
        }
    &&& forall|tile: Letter|
        rack.count(tile) == s.rack.count(tile) + #[trigger] laid_count(
            line,
            word,
            s.blank_assignments,
            tile,
            word.len() as int,
        )
    &&& rack.n_total == s.rack.n_total + free_cells(line, word.len() as int)
    &&& s.blank_assignments.entries().len() == laid_count(
        line,
        word,
        s.blank_assignments,
        Letter::Blank,
        word.len() as int,
    )
}

proof fn lemma_laid_count_same(
    line: Seq<ConstraintView>,
    w1: Seq<u8>,
    b1: BlankAssignmentList,
    w2: Seq<u8>,
    b2: BlankAssignmentList,
    tile: Letter,
    upto: int,
)
    requires
        forall|i: int| 0 <= i < upto ==> laid_tile(w1, b1, i) == laid_tile(w2, b2, i),
    ensures
        laid_count(line, w1, b1, tile, upto) == laid_count(line, w2, b2, tile, upto),
    decreases upto,
{
    if upto > 0 {
        lemma_laid_count_same(line, w1, b1, w2, b2, tile, upto - 1);
    }
}

/// A state that a word has led to accounts for every tile that left the
/// rack.
pub proof fn lemma_word_trace(line: Seq<ConstraintView>, rack: Rack, word: Seq<u8>)
    requires
        rack.wf(),
        line.len() < usize::MAX,
    ensures
        word_run(line, rack, word) matches Some(s) ==> trace_ok(line, rack, word, s),
    decreases word.len(),
{
    if word.len() == 0 {
    } else {
        let shorter = word.drop_last();
        let byte = word.last();
        let n = shorter.len() as int;
        lemma_word_trace(line, rack, shorter);
        match word_run(line, rack, shorter) {
            None => {},
            Some(s0) => {
                match word_step(line, Some(s0), byte) {
                    None => {},
                    Some(s) => {
                        let b0 = s0.blank_assignments;
                        let b = s.blank_assignments;
                        assert(forall|i: int| 0 <= i < n ==> shorter[i] == word[i]);
                        assert(!b0.covers(n)) by {
                            if b0.covers(n) {
                                let k = choose|k: int|
                                    0 <= k < b0.entries().len() && (#[trigger] b0.entries()[k]).position
                                        == n;
                                assert(b0.entries()[k].position < n);
                            }
                        }
                        let took_blank = b != b0;
                        if took_blank {
                            let e = BlankAssignment { letter: byte, position: n as usize };
                            assert(b.entries() == seq![e] + b0.entries());
                            assert(b.entries()[0] == e);
                            assert(b.covers(n));
                            assert forall|i: int| 0 <= i < n implies (b.covers(i) <==> b0.covers(i)) by {
                                if b.covers(i) {
                                    let k = choose|k: int|
                                        0 <= k < b.entries().len() && (#[trigger] b.entries()[k]).position
                                            == i;
                                    assert(k > 0);
                                    assert(b0.entries()[k - 1].position == i);
                                }
                                if b0.covers(i) {
                                    let k = choose|k: int|
                                        0 <= k < b0.entries().len() && (
                                        #[trigger] b0.entries()[k]).position == i;
                                    assert(b.entries()[k + 1].position == i);
                                }
                            }
                            assert forall|k: int| 0 <= k < b.entries().len() implies {
                                let e = #[trigger] b.entries()[k];
                                e.position < word.len() && line[e.position as int] is Empty
                                    && e.letter == word[e.position as int]
                            } by {
                                if k > 0 {
                                    let e0 = b0.entries()[k - 1];
                                    assert(e0.position < n);
                                }
                            }
                        } else {
                            assert forall|k: int| 0 <= k < b.entries().len() implies {
                                let e = #[trigger] b.entries()[k];
                                e.position < word.len() && line[e.position as int] is Empty
                                    && e.letter == word[e.position as int]
                            } by {
                                let e0 = b0.entries()[k];
                                assert(e0.position < n);
                            }
                        }
                        assert forall|i: int| 0 <= i < n implies laid_tile(word, b, i) == laid_tile(
                            shorter,
                            b0,
                            i,
                        ) by {}
                        assert forall|tile: Letter|
                            rack.count(tile) == s.rack.count(tile) + #[trigger] laid_count(
                                line,
                                word,
                                b,
                                tile,
                                word.len() as int,
                            ) by {
                            lemma_laid_count_same(line, word, b, shorter, b0, tile, n);
                            assert(rack.count(tile) == s0.rack.count(tile) + laid_count(
                                line,
                                shorter,
                                b0,
                                tile,
                                n,
                            ));
                            if line[n] is Empty {
                                if s0.rack.count(Letter::Letter(byte)) > 0 {
                                    super::rack::lemma_without_wf(s0.rack, Letter::Letter(byte));
                                } else {
                                    super::rack::lemma_without_wf(s0.rack, Letter::Blank);
                                }
                            }
                        }
                        lemma_laid_count_same(line, word, b, shorter, b0, Letter::Blank, n);
                        if line[n] is Empty {
                            if s0.rack.count(Letter::Letter(byte)) > 0 {
                                super::rack::lemma_without_wf(s0.rack, Letter::Letter(byte));
                            } else {
                                super::rack::lemma_without_wf(s0.rack, Letter::Blank);
                            }
                        }
                        assert forall|i: int| 0 <= i < word.len() implies (
                        #[trigger] line[i] matches ConstraintView::Filled(Letter::Letter(l)) ==> l
                            == word[i]) by {
                            if i < n {
                                assert(shorter[i] == word[i]);
                            }
                        }
                    },
                }
            },
        }
    }
}

proof fn lemma_emitted_tiles(
    line: Seq<ConstraintView>,
    word: Seq<u8>,
    blanks: BlankAssignmentList,
    tile: Letter,
    upto: int,
)
    requires
        is_capital_word(word),
        0 <= upto <= word.len(),
        forall|i: int| 0 <= i < word.len() && blanks.covers(i) ==> line[i] is Empty,
    ensures
        tiles_needed(line, emitted(word, blanks), tile, upto) == laid_count(
            line,
            word,
            blanks,
            tile,
            upto,
        ),
        lower_case_count(emitted(word, blanks), upto) == laid_count(
            line,
            word,
            blanks,
            Letter::Blank,
            upto,
        ),
    decreases upto,
{
    if upto > 0 {
        lemma_emitted_tiles(line, word, blanks, tile, upto - 1);
        let i = upto - 1;
        assert(65 <= word[i] <= 90);
        assert(emitted(word, blanks)[i] == if blanks.covers(i) {
            lower(word[i])
        } else {
            word[i]
        });
    }
}

/// A word that the search accepts is paid for by the rack. Written in
/// capital letters and handed out with a lower-case letter wherever a
/// blank was laid, the word costs, on the free cells it covers, exactly
/// the tiles that left the rack: for every kind of tile the rack lost as
/// many as the word needs, it lost as many blanks as the word has
/// lower-case letters, and it lost at least one tile. On the cells that
/// hold a letter the word agrees with the board.
pub proof fn lemma_accepted_word_accounts(
    line: Seq<ConstraintView>,
    rack: Rack,
    min_length: int,
    word: Seq<u8>,
)
    requires
        rack.wf(),
        line.len() < usize::MAX,
        is_capital_word(word),
        word_accepts(line, rack, min_length, word),
    ensures
        ({
            let s = word_run(line, rack, word)->0;
            let out = emitted(word, s.blank_assignments);
            let n = word.len() as int;
            &&& out.len() == n
            &&& min_length <= n <= line.len()
            &&& forall|tile: Letter|
                rack.count(tile) - s.rack.count(tile) == #[trigger] tiles_needed(line, out, tile, n)
            &&& forall|tile: Letter| 0 <= #[trigger] tiles_needed(line, out, tile, n) <= rack.count(tile)
            &&& lower_case_count(out, n) == rack.count(Letter::Blank) - s.rack.count(Letter::Blank)
            &&& free_cells(line, n) == rack.n_total - s.rack.n_total
            &&& free_cells(line, n) >= 1
            &&& forall|i: int|
                0 <= i < n ==> (#[trigger] line[i] matches ConstraintView::Filled(Letter::Letter(l))
                    ==> l == out[i] && !is_lower(out[i]))
            &&& !(n < line.len() && line[n] is Filled)
        }),
{
    lemma_word_trace(line, rack, word);
    let s = word_run(line, rack, word)->0;
    let blanks = s.blank_assignments;
    let out = emitted(word, blanks);
    let n = word.len() as int;
    assert forall|i: int| 0 <= i < word.len() && blanks.covers(i) implies line[i] is Empty by {
        let k = choose|k: int|
            0 <= k < blanks.entries().len() && (#[trigger] blanks.entries()[k]).position == i;
        assert(line[blanks.entries()[k].position as int] is Empty);
    }
    assert forall|tile: Letter|
        rack.count(tile) - s.rack.count(tile) == #[trigger] tiles_needed(line, out, tile, n) && 0
            <= tiles_needed(line, out, tile, n) <= rack.count(tile) by {
        lemma_emitted_tiles(line, word, blanks, tile, n);
        assert(rack.count(tile) == s.rack.count(tile) + laid_count(line, word, blanks, tile, n));
        lemma_laid_count_nonneg(line, word, blanks, tile, n);
    }
    lemma_emitted_tiles(line, word, blanks, Letter::Blank, n);
    lemma_free_cells_nonneg(line, n);
    assert forall|i: int| 0 <= i < n implies (#[trigger] line[i] matches ConstraintView::Filled(
        Letter::Letter(l),
    ) ==> l == out[i] && !is_lower(out[i])) by {
        assert(65 <= word[i] <= 90);
        if line[i] is Filled {
            assert(!blanks.covers(i));
        }
    }
}

proof fn lemma_laid_count_nonneg(
    line: Seq<ConstraintView>,
    word: Seq<u8>,
    blanks: BlankAssignmentList,
    tile: Letter,
    upto: int,
)
    ensures
        laid_count(line, word, blanks, tile, upto) >= 0,
    decreases upto,
{
    if upto > 0 {
        lemma_laid_count_nonneg(line, word, blanks, tile, upto - 1);
    }
}

proof fn lemma_free_cells_nonneg(line: Seq<ConstraintView>, upto: int)
    ensures
        free_cells(line, upto) >= 0,
    decreases upto,
{
    if upto > 0 {
        lemma_free_cells_nonneg(line, upto - 1);
    }
}

} // verus!
