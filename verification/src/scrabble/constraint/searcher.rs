//! The matcher that finds which letters fit between the letters before
//! and after a free cell.

use vstd::prelude::*;
use crate::scrabble::lexicon::{run, LineMatcher};
use crate::scrabble::util::Letter;

verus! {

/// How far a word has been read against the letters around a free cell.
#[derive(Clone, Copy, Debug)]
pub enum ConstraintSearcherState {
    /// That many letters of the prefix have been read.
    Prefix(usize),
    /// The whole prefix has been read; the byte for the free cell is next.
    Mid,
    /// That many letters of the suffix have been read, after this byte on
    /// the free cell.
    Suffix(usize, u8),
    /// Prefix, free cell and suffix have been read, with this byte on the
    /// free cell.
    Done(u8),
}

/// The letters directly before and after a free cell, in reading order.
pub struct ConstraintSearcher<'a> {
    pub prefix: &'a [Letter],
    pub suffix: &'a [Letter],
}

/// A tile on the board agrees with a byte of a word: a blank with every
/// byte, a letter with itself.
pub open spec fn letter_matches(l: Letter, b: u8) -> bool {
    l is Blank || l == Letter::Letter(b)
}

/// The first `n` bytes of `word`, read from place `from` on, agree with
/// the first `n` letters.
pub open spec fn agrees(letters: Seq<Letter>, word: Seq<u8>, from: int, n: int) -> bool {
    forall|i: int| 0 <= i < n ==> letter_matches(#[trigger] letters[i], word[from + i])
}

/// The word is the prefix, then `x`, then the suffix.
pub open spec fn completes(prefix: Seq<Letter>, suffix: Seq<Letter>, x: u8, word: Seq<u8>) -> bool {
    &&& word.len() == prefix.len() + 1 + suffix.len()
    &&& agrees(prefix, word, 0, prefix.len() as int)
    &&& word[prefix.len() as int] == x
    &&& agrees(suffix, word, prefix.len() as int + 1, suffix.len() as int)
}

/// The letters that some word of the vocabulary puts between the prefix
/// and the suffix.
pub open spec fn cross_check_set(prefix: Seq<Letter>, suffix: Seq<Letter>, words: Set<Seq<u8>>) -> Set<
    u8,
> {
    Set::new(|x: u8| exists|w: Seq<u8>| words.contains(w) && completes(prefix, suffix, x, w))
}

/// The state in which the matcher is after `word`, said directly.
pub open spec fn state_after(prefix: Seq<Letter>, suffix: Seq<Letter>, word: Seq<u8>) -> Option<
    ConstraintSearcherState,
> {
    let n = word.len() as int;
    let p = prefix.len() as int;
    let s = suffix.len() as int;
    if n <= p {
        if agrees(prefix, word, 0, n) {
            if n < p {
                Some(ConstraintSearcherState::Prefix(n as usize))
            } else {
                Some(ConstraintSearcherState::Mid)
            }
        } else {
            None
        }
    } else if n <= p + 1 + s {
        if agrees(prefix, word, 0, p) && agrees(suffix, word, p + 1, n - p - 1) {
            if n == p + 1 + s {
                Some(ConstraintSearcherState::Done(word[p]))
            } else {
                Some(ConstraintSearcherState::Suffix((n - p - 1) as usize, word[p]))
            }
        } else {
            None
        }
    } else {
        None
    }
}

fn tile_matches(l: Letter, byte: u8) -> (r: bool)
    ensures
        r == letter_matches(l, byte),
{
    match l {
        Letter::Blank => true,
        Letter::Letter(c) => c == byte,
    }
}

impl<'a> LineMatcher for ConstraintSearcher<'a> {
    type State = Option<ConstraintSearcherState>;

    open spec fn wf(&self) -> bool {
        self.prefix@.len() <= usize::MAX && self.suffix@.len() <= usize::MAX
    }

    open spec fn state_ok(&self, state: Self::State) -> bool {
        match state {
            Some(ConstraintSearcherState::Prefix(i)) => i < self.prefix@.len(),
            Some(ConstraintSearcherState::Suffix(i, _)) => i < self.suffix@.len(),
            _ => true,
        }
    }

    open spec fn start_spec(&self) -> Self::State {
        if self.prefix@.len() == 0 {
            Some(ConstraintSearcherState::Mid)
        } else {
            Some(ConstraintSearcherState::Prefix(0))
        }
    }

    open spec fn accept_spec(&self, state: Self::State, byte: u8) -> Self::State {
        match state {
            None => None,
            Some(ConstraintSearcherState::Prefix(i)) => {
                if letter_matches(self.prefix@[i as int], byte) {
                    if i + 1 == self.prefix@.len() {
                        Some(ConstraintSearcherState::Mid)
                    } else {
                        Some(ConstraintSearcherState::Prefix((i + 1) as usize))
                    }
                } else {
                    None
                }
            },
            Some(ConstraintSearcherState::Mid) => {
                if self.suffix@.len() == 0 {
                    Some(ConstraintSearcherState::Done(byte))
                } else {
                    Some(ConstraintSearcherState::Suffix(0, byte))
                }
            },
            Some(ConstraintSearcherState::Suffix(i, letter)) => {
                if i < self.suffix@.len() && letter_matches(self.suffix@[i as int], byte) {
                    if i + 1 == self.suffix@.len() {
                        Some(ConstraintSearcherState::Done(letter))
                    } else {
                        Some(ConstraintSearcherState::Suffix((i + 1) as usize, letter))
                    }
                } else {
                    None
                }
            },
            Some(ConstraintSearcherState::Done(_)) => None,
        }
    }

    open spec fn is_match_spec(&self, state: Self::State) -> bool {
        state matches Some(ConstraintSearcherState::Done(_))
    }

    open spec fn can_match_spec(&self, state: Self::State) -> bool {
        state is Some
    }

    fn start(&self) -> (r: Self::State) {
        if self.prefix.len() == 0 {
            Some(ConstraintSearcherState::Mid)
        } else {
            Some(ConstraintSearcherState::Prefix(0))
        }
    }

    fn is_match(&self, state: &Self::State) -> (r: bool) {
        match state {
            Some(ConstraintSearcherState::Done(_)) => true,
            _ => false,
        }
    }

    fn accept(&self, state: &Self::State, byte: u8) -> (r: Self::State) {
        match state {
            None => None,
            Some(ConstraintSearcherState::Prefix(i)) => {
                let i = *i;
                if tile_matches(self.prefix[i], byte) {
                    if i + 1 == self.prefix.len() {
                        Some(ConstraintSearcherState::Mid)
                    } else {
                        Some(ConstraintSearcherState::Prefix(i + 1))
                    }
                } else {
                    None
                }
            },
            Some(ConstraintSearcherState::Mid) => {
                if self.suffix.len() == 0 {
                    Some(ConstraintSearcherState::Done(byte))
                } else {
                    Some(ConstraintSearcherState::Suffix(0, byte))
                }
            },
            Some(ConstraintSearcherState::Suffix(i, letter)) => {
                let i = *i;
                if i < self.suffix.len() && tile_matches(self.suffix[i], byte) {
                    if i + 1 == self.suffix.len() {
                        Some(ConstraintSearcherState::Done(*letter))
                    } else {
                        Some(ConstraintSearcherState::Suffix(i + 1, *letter))
                    }
                } else {
                    None
                }
            },
            Some(ConstraintSearcherState::Done(_)) => None,
        }
    }

    fn can_match(&self, state: &Self::State) -> (r: bool) {
        state.is_some()
    }

    proof fn lemma_start_ok(&self) {
    }

    proof fn lemma_accept_ok(&self, state: Self::State, byte: u8) {
    }

    proof fn lemma_dead_state(&self, state: Self::State, byte: u8) {
    }
}

/// Reading one byte more of a word extends an agreement by one letter.
proof fn lemma_agrees_step(letters: Seq<Letter>, word: Seq<u8>, from: int, n: int)
    requires
        word.len() > 0,
        0 <= from,
        0 <= n,
        from + n <= word.len() - 1,
    ensures
        agrees(letters, word, from, n) <==> agrees(letters, word.drop_last(), from, n),
        from + n == word.len() - 1 ==> (agrees(letters, word, from, n + 1) <==> agrees(
            letters,
            word.drop_last(),
            from,
            n,
        ) && letter_matches(letters[n], word.last())),
{
    let shorter = word.drop_last();
    assert forall|i: int| 0 <= i < n implies (letter_matches(#[trigger] letters[i], word[from + i])
        <==> letter_matches(letters[i], shorter[from + i])) by {
        assert(shorter[from + i] == word[from + i]);
    }
    if from + n == word.len() - 1 {
        if agrees(letters, word, from, n + 1) {
            assert(letter_matches(letters[n], word[from + n]));
            assert forall|i: int| 0 <= i < n implies letter_matches(
                #[trigger] letters[i],
                shorter[from + i],
            ) by {
                assert(letter_matches(letters[i], word[from + i]));
            }
        }
        if agrees(letters, shorter, from, n) && letter_matches(letters[n], word.last()) {
            assert forall|i: int| 0 <= i < n + 1 implies letter_matches(
                #[trigger] letters[i],
                word[from + i],
            ) by {
                if i < n {
                    assert(letter_matches(letters[i], shorter[from + i]));
                }
            }
        }
    }
}

/// The matcher is, after every word, in the state that `state_after`
/// names.
pub proof fn lemma_searcher_run(m: &ConstraintSearcher<'_>, word: Seq<u8>)
    requires
        m.wf(),
    ensures
        run(m, word) == state_after(m.prefix@, m.suffix@, word),
    decreases word.len(),
{
    let prefix = m.prefix@;
    let suffix = m.suffix@;
    let p = prefix.len() as int;
    let s = suffix.len() as int;
    if word.len() == 0 {
    } else {
        let shorter = word.drop_last();
        let n = shorter.len() as int;
        let b = word.last();
        lemma_searcher_run(m, shorter);
        assert(run(m, word) == m.accept_spec(run(m, shorter), b));
        if n < p {
            lemma_agrees_step(prefix, word, 0, n);
        } else if n == p {
            lemma_agrees_step(prefix, word, 0, p);
            assert(word[p] == b);
        } else if n < p + 1 + s {
            lemma_agrees_step(prefix, word, 0, p);
            lemma_agrees_step(suffix, word, p + 1, n - p - 1);
            assert(word[p] == shorter[p]);
        } else if n == p + 1 + s {
            lemma_agrees_step(prefix, word, 0, p);
            lemma_agrees_step(suffix, word, p + 1, s);
        } else {
        }
    }
}

/// The words that the matcher accepts are those made of the prefix, one
/// byte and the suffix, and it ends in `Done` with that byte.
pub proof fn lemma_searcher_accepts(m: &ConstraintSearcher<'_>, word: Seq<u8>)
    requires
        m.wf(),
    ensures
        m.is_match_spec(run(m, word)) <==> word.len() > m.prefix@.len() && completes(
            m.prefix@,
            m.suffix@,
            word[m.prefix@.len() as int],
            word,
        ),
        m.is_match_spec(run(m, word)) ==> run(m, word) == Some(
            ConstraintSearcherState::Done(word[m.prefix@.len() as int]),
        ),
{
    lemma_searcher_run(m, word);
}

} // verus!
