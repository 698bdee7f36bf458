//! The vocabulary: a set of byte strings held by the `fst` crate, and the
//! search of it with a matcher that reads a word byte by byte.

use vstd::prelude::*;
use fst::{IntoStreamer, Streamer};

verus! {

/// The set type of the `fst` crate, carried around as an opaque value.
#[verifier::external_type_specification]
#[verifier::external_body]
#[verifier::reject_recursive_types(D)]
pub struct ExLexiconSet<D>(fst::Set<D>);

/// The byte strings that a vocabulary holds.
pub uninterp spec fn lexicon_words(vocab: fst::Set<Vec<u8>>) -> Set<Seq<u8>>;

/// A matcher that reads a word one byte at a time, as the vocabulary
/// search drives it. A state from which `can_match` is false is dead: no
/// further byte leads to a match.
pub trait LineMatcher {
    /// What the matcher remembers between two bytes.
    type State;

    /// The matcher itself is usable.
    spec fn wf(&self) -> bool;

    /// What holds of every state that the matcher reaches.
    spec fn state_ok(&self, state: Self::State) -> bool;

    spec fn start_spec(&self) -> Self::State;

    spec fn accept_spec(&self, state: Self::State, byte: u8) -> Self::State;

    spec fn is_match_spec(&self, state: Self::State) -> bool;

    spec fn can_match_spec(&self, state: Self::State) -> bool;

    /// The state before any byte.
    fn start(&self) -> (r: Self::State)
        requires
            self.wf(),
        ensures
            r == self.start_spec(),
            self.state_ok(r),
    ;

    /// The word read so far is accepted.
    fn is_match(&self, state: &Self::State) -> (r: bool)
        requires
            self.wf(),
            self.state_ok(*state),
        ensures
            r == self.is_match_spec(*state),
    ;

    /// The state after one more byte.
    fn accept(&self, state: &Self::State, byte: u8) -> (r: Self::State)
        requires
            self.wf(),
            self.state_ok(*state),
        ensures
            r == self.accept_spec(*state, byte),
            self.state_ok(r),
    ;

    /// Some continuation of the word read so far may still be accepted.
    fn can_match(&self, state: &Self::State) -> (r: bool)
        requires
            self.wf(),
            self.state_ok(*state),
        ensures
            r == self.can_match_spec(*state),
    ;

    /// The first state satisfies `state_ok`.
    proof fn lemma_start_ok(&self)
        requires
            self.wf(),
        ensures
            self.state_ok(self.start_spec()),
    ;

    /// A byte leads from a state that satisfies `state_ok` to another.
    proof fn lemma_accept_ok(&self, state: Self::State, byte: u8)
        requires
            self.wf(),
            self.state_ok(state),
        ensures
            self.state_ok(self.accept_spec(state, byte)),
    ;

    /// A dead state stays dead and is never a match once left.
    proof fn lemma_dead_state(&self, state: Self::State, byte: u8)
        requires
            self.wf(),
            self.state_ok(state),
            !self.can_match_spec(state),
        ensures
            !self.can_match_spec(self.accept_spec(state, byte)),
            !self.is_match_spec(self.accept_spec(state, byte)),
    ;
}

/// The state that a matcher is in after it has read `word`.
pub open spec fn run<M: LineMatcher>(m: &M, word: Seq<u8>) -> M::State
    decreases word.len(),
{
    if word.len() == 0 {
        m.start_spec()
    } else {
        m.accept_spec(run(m, word.drop_last()), word.last())
    }
}

/// Every state that a usable matcher runs into satisfies `state_ok`.
pub proof fn lemma_run_ok<M: LineMatcher>(m: &M, word: Seq<u8>)
    requires
        m.wf(),
    ensures
        m.state_ok(run(m, word)),
    decreases word.len(),
{
    if word.len() == 0 {
        m.lemma_start_ok();
    } else {
        lemma_run_ok(m, word.drop_last());
        m.lemma_accept_ok(run(m, word.drop_last()), word.last());
    }
}

/// Hands a matcher to the `fst` crate as one of its automata.
pub struct Driver<M>(pub M);

impl<M: LineMatcher> fst::Automaton for Driver<M> {
    type State = M::State;

    fn start(&self) -> (r: M::State)
        requires
            self.0.wf(),
        ensures
            r == self.0.start_spec(),
            self.0.state_ok(r),
    {
        self.0.start()
    }

    fn is_match(&self, state: &M::State) -> (r: bool)
        requires
            self.0.wf(),
            self.0.state_ok(*state),
        ensures
            r == self.0.is_match_spec(*state),
    {
        self.0.is_match(state)
    }

    fn accept(&self, state: &M::State, byte: u8) -> (r: M::State)
        requires
            self.0.wf(),
            self.0.state_ok(*state),
        ensures
            r == self.0.accept_spec(*state, byte),
            self.0.state_ok(r),
    {
        self.0.accept(state, byte)
    }

    fn can_match(&self, state: &M::State) -> (r: bool)
        requires
            self.0.wf(),
            self.0.state_ok(*state),
        ensures
            r == self.0.can_match_spec(*state),
    {
        self.0.can_match(state)
    }
}

/// One word that a search found, with the state that the matcher was in
/// at its end.
pub struct Hit<S> {
    pub word: Vec<u8>,
    pub state: S,
}

/// Runs `fst`'s `Set::search_with_state` with the matcher as automaton and
/// collects the stream that it gives. Assumed, from the crate's traversal:
/// the stream holds each word of the set once, and exactly those words
/// after which the matcher is in a matching state; with each word comes a
/// clone of that state, taken to be equal to it; the matcher is started
/// once and fed only states that it returned itself.
#[verifier::external_body]
pub(crate) fn search_lexicon<M: LineMatcher>(vocab: &fst::Set<Vec<u8>>, matcher: M) -> (hits: Vec<
    Hit<M::State>,
>) where M::State: Clone
    requires
        matcher.wf(),
    ensures
        forall|i: int|
            0 <= i < hits@.len() ==> {
                &&& lexicon_words(*vocab).contains(#[trigger] hits@[i].word@)
                &&& hits@[i].state == run(&matcher, hits@[i].word@)
                &&& matcher.is_match_spec(hits@[i].state)
            },
        forall|w: Seq<u8>|
            lexicon_words(*vocab).contains(w) && matcher.is_match_spec(#[trigger] run(&matcher, w))
                ==> exists|i: int| 0 <= i < hits@.len() && hits@[i].word@ == w,
        forall|i: int, j: int|
            0 <= i < j < hits@.len() ==> #[trigger] hits@[i].word@ != #[trigger] hits@[j].word@,
{
    let mut stream = vocab.search_with_state(Driver(matcher)).into_stream();
    let mut hits = Vec::new();
    while let Some((word, state)) = stream.next() {
        hits.push(Hit { word: word.to_vec(), state });
    }
    hits
}

/// The error type of the `fst` crate, carried around as an opaque value.
#[verifier::external_type_specification]
#[verifier::external_body]
pub struct ExLexiconBuildError(fst::Error);

/// Why a vocabulary could not be built.
#[derive(Debug, Clone, Copy, PartialEq, Eq, Structural)]
pub enum LexiconError {
    /// A word is smaller than the word before it.
    OutOfOrder,
}

/// `a` is not greater than `b` in the order of byte strings: the first
/// byte that differs decides, and a prefix comes before what it starts.
pub open spec fn bytes_le(a: Seq<u8>, b: Seq<u8>) -> bool
    decreases a.len(),
{
    if a.len() == 0 {
        true
    } else if b.len() == 0 {
        false
    } else {
        a[0] < b[0] || (a[0] == b[0] && bytes_le(a.skip(1), b.skip(1)))
    }
}

/// No word is smaller than the word before it.
pub open spec fn in_order(words: Seq<Seq<u8>>) -> bool {
    forall|i: int| 0 < i < words.len() ==> bytes_le(words[i - 1], #[trigger] words[i])
}

/// The words as plain values.
pub open spec fn words_of(words: Seq<Vec<u8>>) -> Seq<Seq<u8>> {
    Seq::new(words.len(), |i: int| words[i]@)
}

/// Builds a vocabulary with `fst`'s `Set::from_iter`, which keeps the
/// whole set in memory. Assumed, from the crate's builder: the call fails
/// exactly if some word is smaller than the word before it, and else
/// gives the set of the words handed in.
#[verifier::external_body]
fn set_from_iter(words: &Vec<Vec<u8>>) -> (r: Result<fst::Set<Vec<u8>>, fst::Error>)
    ensures
        r is Ok <==> in_order(words_of(words@)),
        r matches Ok(set) ==> lexicon_words(set) == words_of(words@).to_set(),
{
    fst::Set::from_iter(words.iter())
}

/// Sorts byte strings with the standard library's `sort_unstable`.
/// Assumed: afterwards the vector holds the same words, each as often as
/// before, and no word is smaller than the word before it.
#[verifier::external_body]
pub(crate) fn sort_words(words: &mut Vec<Vec<u8>>)
    ensures
        in_order(words_of(final(words)@)),
        words_of(final(words)@).to_multiset() == words_of(old(words)@).to_multiset(),
{
    words.sort_unstable();
}

/// The vocabulary of the given words, which must come in order: no word
/// may be smaller than the word before it.
pub fn lexicon_from_sorted(words: &Vec<Vec<u8>>) -> (r: Result<fst::Set<Vec<u8>>, LexiconError>)
    ensures
        r is Ok <==> in_order(words_of(words@)),
        r matches Ok(set) ==> lexicon_words(set) == words_of(words@).to_set(),
        r matches Err(e) ==> e == LexiconError::OutOfOrder,
{
    match set_from_iter(words) {
        Ok(set) => Ok(set),
        Err(_) => Err(LexiconError::OutOfOrder),
    }
}

/// A line of a word list in upper case.
pub open spec fn upper_word(line: Seq<u8>) -> Seq<u8> {
    Seq::new(line.len(), |i: int| crate::scrabble::board::upper(line[i]))
}

/// The words that a word list gives: its lines of at least two bytes, in
/// upper case.
pub open spec fn vocabulary_of(lines: Seq<Seq<u8>>) -> Set<Seq<u8>> {
    Set::new(
        |w: Seq<u8>|
            exists|i: int|
                0 <= i < lines.len() && (#[trigger] lines[i]).len() >= 2 && w == upper_word(lines[i]),
    )
}

/// Builds the vocabulary of a word list: every line of at least two
/// bytes, in upper case. The lines may come in any order.
pub fn build_vocabulary(lines: &Vec<Vec<u8>>) -> (set: fst::Set<Vec<u8>>)
    ensures
        lexicon_words(set) == vocabulary_of(words_of(lines@)),
{
    broadcast use vstd::seq_lib::group_to_multiset_ensures;

    let mut words: Vec<Vec<u8>> = Vec::new();
    let mut i: usize = 0;
    assert(words_of(words@).to_set() =~= vocabulary_of(words_of(lines@.take(0))));
    while i < lines.len()
        invariant
            i <= lines@.len(),
            words_of(words@).to_set() == vocabulary_of(words_of(lines@.take(i as int))),
        decreases lines@.len() - i,
    {
        let line = &lines[i];
        let ghost before = words_of(words@);
        let ghost seen = words_of(lines@.take(i as int));
        let ghost now = words_of(lines@.take(i as int + 1));
        proof {
            assert(now.len() == i + 1);
            assert(forall|k: int| 0 <= k < i ==> now[k] == seen[k]);
            assert(now[i as int] == line@);
        }
        if line.len() >= 2 {
            let mut word: Vec<u8> = Vec::with_capacity(line.len());
            let mut k: usize = 0;
            while k < line.len()
                invariant
                    k <= line@.len(),
                    word@ == upper_word(line@).take(k as int),
                decreases line@.len() - k,
            {
                word.push(crate::scrabble::board::to_upper(line[k]));
                k += 1;
                assert(word@ =~= upper_word(line@).take(k as int));
            }
            assert(word@ =~= upper_word(line@));
            words.push(word);
            proof {
                let after = words_of(words@);
                assert(after =~= before.push(upper_word(line@)));
                assert forall|w: Seq<u8>| after.contains(w) <==> vocabulary_of(now).contains(w) by {
                    if after.contains(w) {
                        let j = choose|j: int| 0 <= j < after.len() && after[j] == w;
                        if j < before.len() {
                            assert(before[j] == w);
                            assert(before.contains(w));
                            assert(before.to_set().contains(w));
                            let a = choose|a: int|
                                0 <= a < seen.len() && (#[trigger] seen[a]).len() >= 2 && w
                                    == upper_word(seen[a]);
                            assert(now[a].len() >= 2 && w == upper_word(now[a]));
                        } else {
                            assert(now[i as int].len() >= 2 && w == upper_word(now[i as int]));
                        }
                    }
                    if vocabulary_of(now).contains(w) {
                        let a = choose|a: int|
                            0 <= a < now.len() && (#[trigger] now[a]).len() >= 2 && w == upper_word(
                                now[a],
                            );
                        if a < i {
                            assert(seen[a].len() >= 2 && w == upper_word(seen[a]));
                            assert(vocabulary_of(seen).contains(w));
                            assert(before.to_set().contains(w));
                            let j = choose|j: int| 0 <= j < before.len() && before[j] == w;
                            assert(after[j] == w);
                        } else {
                            assert(after[before.len() as int] == w);
                        }
                    }
                }
                assert(after.to_set() =~= vocabulary_of(now));
            }
        } else {
            proof {
                assert forall|w: Seq<u8>| before.contains(w) <==> vocabulary_of(now).contains(w) by {
                    if before.contains(w) {
                        assert(before.to_set().contains(w));
                        let a = choose|a: int|
                            0 <= a < seen.len() && (#[trigger] seen[a]).len() >= 2 && w
                                == upper_word(seen[a]);
                        assert(now[a].len() >= 2 && w == upper_word(now[a]));
                    }
                    if vocabulary_of(now).contains(w) {
                        let a = choose|a: int|
                            0 <= a < now.len() && (#[trigger] now[a]).len() >= 2 && w == upper_word(
                                now[a],
                            );
                        assert(a < i);
                        assert(seen[a].len() >= 2 && w == upper_word(seen[a]));
                        assert(vocabulary_of(seen).contains(w));
                        assert(before.to_set().contains(w));
                    }
                }
                assert(before.to_set() =~= vocabulary_of(now));
            }
        }
        i += 1;
    }
    let ghost unsorted = words_of(words@);
    sort_words(&mut words);
    proof {
        assert(lines@.take(lines@.len() as int) =~= lines@);
        let sorted = words_of(words@);
        assert forall|w: Seq<u8>| sorted.contains(w) <==> unsorted.contains(w) by {
            assert(sorted.to_multiset().count(w) == unsorted.to_multiset().count(w));
        }
        assert(sorted.to_set() =~= vocabulary_of(words_of(lines@)));
    }
    match set_from_iter(&words) {
        Ok(set) => set,
        Err(_) => vstd::pervasive::unreached(),
    }
}

} // verus!
