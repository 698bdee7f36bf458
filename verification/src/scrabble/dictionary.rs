//! A word list that is searched by the letters at hand, and a prefix tree
//! of words.

use vstd::prelude::*;
use std::collections::HashMap;
use super::rack::occurrences;

verus! {

broadcast use vstd::std_specs::hash::group_hash_axioms;

/// Prefix tree node
#[derive(Debug)]
pub struct TrieNode {
    pub letter: u8,
    pub next: HashMap<u8, TrieNode>,
    pub terminal: bool,
}

/// The byte string can be read along the tree, starting below `node`.
pub open spec fn has_path(node: TrieNode, word: Seq<u8>) -> bool
    decreases word.len(),
{
    word.len() == 0 || (node.next@.contains_key(word[0]) && has_path(
        node.next@[word[0]],
        word.skip(1),
    ))
}

/// The node that is reached along the byte string, starting below
/// `node`.
pub open spec fn node_at(node: TrieNode, word: Seq<u8>) -> TrieNode
    decreases word.len(),
{
    if word.len() == 0 {
        node
    } else {
        node_at(node.next@[word[0]], word.skip(1))
    }
}

/// How the nodes along `w` are marked after a word of `rest` bytes went
/// in below `before`: a node that was there keeps its letter and its
/// mark; a new node has the byte that leads to it as its letter, and is
/// marked as the end of a word exactly if it is the end of this word.
pub open spec fn marks_kept(before: TrieNode, after: TrieNode, rest: int, w: Seq<u8>) -> bool {
    let node = node_at(after, w);
    if has_path(before, w) {
        node.terminal == node_at(before, w).terminal && node.letter == node_at(before, w).letter
    } else {
        node.terminal == (w.len() == rest) && node.letter == w.last()
    }
}

/// `w` is the beginning of `word`, read from place `from` on.
pub open spec fn is_prefix_from(word: Seq<u8>, from: int, w: Seq<u8>) -> bool {
    from + w.len() <= word.len() && w == word.subrange(from, from + w.len())
}

impl TrieNode {
    /// Adds a word to the trie node
    pub fn add_word(&mut self, word: &[u8])
        ensures
            final(self).letter == old(self).letter,
            final(self).terminal == old(self).terminal,
            forall|w: Seq<u8>|
                #![trigger has_path(*final(self), w)]
                #![trigger is_prefix_from(word@, 0, w)]
                has_path(*final(self), w) <==> has_path(*old(self), w) || is_prefix_from(word@, 0, w),
            forall|w: Seq<u8>|
                w.len() > 0 && has_path(*final(self), w) ==> #[trigger] marks_kept(
                    *old(self),
                    *final(self),
                    word@.len() as int,
                    w,
                ),
    {
        if word.len() == 0 {
            assert forall|w: Seq<u8>| #[trigger] is_prefix_from(word@, 0, w) implies has_path(*self, w) by {
                assert(w.len() == 0);
            }
            assert forall|w: Seq<u8>| w.len() > 0 && has_path(*self, w) implies #[trigger] marks_kept(
                *self,
                *self,
                word@.len() as int,
                w,
            ) by {}
            return ;
        }
        self.add_word_internal(word, 0);
        assert forall|w: Seq<u8>| w.len() > 0 && has_path(*self, w) implies #[trigger] marks_kept(
            *old(self),
            *self,
            word@.len() as int,
            w,
        ) by {
            assert(marks_kept(*old(self), *self, word@.len() - 0, w));
        }
    }

    /// The node below this one for a letter, if there is one.
    pub fn next_node(&self, c: u8) -> (r: Option<&TrieNode>)
        ensures
            r is Some <==> self.next@.contains_key(c),
            r matches Some(node) ==> *node == self.next@[c],
    {
        self.next.get(&c)
    }

    /// Adds the word from place `pos` on below this node. A node that is
    /// there already is kept as it is.
    pub fn add_word_internal(&mut self, word: &[u8], pos: usize)
        requires
            pos < word@.len(),
        ensures
            final(self).letter == old(self).letter,
            final(self).terminal == old(self).terminal,
            forall|w: Seq<u8>|
                #![trigger has_path(*final(self), w)]
                #![trigger is_prefix_from(word@, pos as int, w)]
                has_path(*final(self), w) <==> has_path(*old(self), w) || is_prefix_from(
                    word@,
                    pos as int,
                    w,
                ),
            forall|w: Seq<u8>|
                w.len() > 0 && has_path(*final(self), w) ==> #[trigger] marks_kept(
                    *old(self),
                    *final(self),
                    word@.len() - pos,
                    w,
                ),
        decreases word@.len() - pos,
    {
        let terminal = pos == word.len() - 1;
        let curr_char = word[pos];
        let ghost before = *self;
        let ghost was_there = self.next@.contains_key(curr_char);
        let mut node = match self.next.remove(&curr_char) {
            Some(node) => node,
            None => TrieNode { letter: curr_char, next: HashMap::new(), terminal },
        };
        let ghost child0 = node;
        proof {
            if !was_there {
                assert forall|v: Seq<u8>| has_path(child0, v) <==> v.len() == 0 by {
                    if v.len() > 0 {
                        assert(!child0.next@.contains_key(v[0]));
                    }
                }
            } else {
                assert(child0 == before.next@[curr_char]);
            }
        }
        if !terminal {
            node.add_word_internal(word, pos + 1);
        }
        let ghost child1 = node;
        self.next.insert(curr_char, node);
        proof {
            assert forall|w: Seq<u8>|
                #![trigger has_path(*self, w)]
                #![trigger is_prefix_from(word@, pos as int, w)]
                has_path(*self, w) <==> has_path(before, w) || is_prefix_from(word@, pos as int, w) by {
                if w.len() > 0 {
                    let v = w.skip(1);
                    if w[0] == curr_char {
                        assert(self.next@[curr_char] == child1);
                        // what the node below holds after the word went in
                        assert(has_path(child1, v) <==> has_path(child0, v) || is_prefix_from(
                            word@,
                            pos + 1,
                            v,
                        )) by {
                            if terminal {
                                assert(child1 == child0);
                                if is_prefix_from(word@, pos + 1, v) {
                                    assert(v.len() == 0);
                                }
                            }
                        }
                        assert(is_prefix_from(word@, pos as int, w) <==> is_prefix_from(
                            word@,
                            pos + 1,
                            v,
                        )) by {
                            if is_prefix_from(word@, pos as int, w) {
                                assert(v =~= word@.subrange(pos + 1, pos + 1 + v.len()));
                            }
                            if is_prefix_from(word@, pos + 1, v) {
                                let target = word@.subrange(pos as int, pos + w.len());
                                assert forall|a: int| 0 <= a < w.len() implies w[a] == target[a] by {
                                    if a > 0 {
                                        assert(v[a - 1] == word@.subrange(
                                            pos + 1,
                                            pos + 1 + v.len(),
                                        )[a - 1]);
                                    }
                                }
                                assert(w =~= target);
                            }
                        }
                        if was_there {
                            assert(has_path(before, w) <==> has_path(child0, v));
                        } else {
                            assert(!has_path(before, w));
                            assert(has_path(child0, v) <==> v.len() == 0);
                            if v.len() == 0 {
                                assert(is_prefix_from(word@, pos + 1, v)) by {
                                    assert(v =~= word@.subrange(pos + 1, pos + 1));
                                }
                            }
                        }
                    } else {
                        assert(self.next@.contains_key(w[0]) <==> before.next@.contains_key(w[0]));
                        if before.next@.contains_key(w[0]) {
                            assert(self.next@[w[0]] == before.next@[w[0]]);
                        }
                        if is_prefix_from(word@, pos as int, w) {
                            assert(w[0] == word@.subrange(pos as int, pos + w.len())[0]);
                        }
                    }
                } else {
                    assert(w =~= word@.subrange(pos as int, pos as int));
                }
            }
            assert forall|w: Seq<u8>| w.len() > 0 && has_path(*self, w) implies #[trigger] marks_kept(
                before,
                *self,
                word@.len() - pos,
                w,
            ) by {
                let v = w.skip(1);
                if w[0] == curr_char {
                    assert(self.next@[curr_char] == child1);
                    assert(node_at(*self, w) == node_at(child1, v));
                    if was_there {
                        assert(has_path(before, w) <==> has_path(child0, v));
                        assert(node_at(before, w) == node_at(child0, v));
                    } else {
                        assert(!has_path(before, w));
                        assert(has_path(child0, v) <==> v.len() == 0);
                    }
                    if v.len() == 0 {
                        assert(node_at(child1, v) == child1);
                        assert(node_at(child0, v) == child0);
                        assert(child1.terminal == child0.terminal && child1.letter == child0.letter);
                    } else {
                        assert(has_path(child1, v));
                        if !terminal {
                            assert(marks_kept(child0, child1, word@.len() - (pos + 1), v));
                        }
                        assert(v.last() == w.last());
                    }
                } else {
                    assert(self.next@[w[0]] == before.next@[w[0]]);
                    assert(has_path(before, w));
                    lemma_node_at_same(self.next@[w[0]], before.next@[w[0]], v);
                }
            }
        }
    }
}

proof fn lemma_node_at_same(a: TrieNode, b: TrieNode, w: Seq<u8>)
    requires
        a == b,
    ensures
        node_at(a, w) == node_at(b, w),
{
}

/// The bytes of `s` without those equal to `b`.
pub open spec fn without(s: Seq<u8>, b: u8) -> Seq<u8>
    decreases s.len(),
{
    if s.len() == 0 {
        Seq::empty()
    } else if s.last() == b {
        without(s.drop_last(), b)
    } else {
        without(s.drop_last(), b).push(s.last())
    }
}

/// The bytes of `s` below `upto` in ascending order, each as often as it
/// occurs in `s`.
pub open spec fn sorted_upto(s: Seq<u8>, upto: int) -> Seq<u8>
    decreases upto,
{
    if upto <= 0 {
        Seq::empty()
    } else {
        sorted_upto(s, upto - 1) + Seq::new(
            occurrences(s, (upto - 1) as u8, s.len() as int) as nat,
            |k: int| (upto - 1) as u8,
        )
    }
}

/// The bytes of `s` in ascending order.
pub open spec fn sorted_bytes(s: Seq<u8>) -> Seq<u8> {
    sorted_upto(s, 256)
}

/// The length of the longest byte string that can be had from `a` and
/// from `b` by leaving bytes out.
pub open spec fn lcs_len(a: Seq<u8>, b: Seq<u8>) -> nat
    decreases a.len() + b.len(),
{
    if a.len() == 0 || b.len() == 0 {
        0
    } else if a.last() == b.last() {
        lcs_len(a.drop_last(), b.drop_last()) + 1
    } else if lcs_len(a.drop_last(), b) >= lcs_len(a, b.drop_last()) {
        lcs_len(a.drop_last(), b)
    } else {
        lcs_len(a, b.drop_last())
    }
}

proof fn lemma_lcs_bound(a: Seq<u8>, b: Seq<u8>)
    ensures
        lcs_len(a, b) <= a.len(),
        lcs_len(a, b) <= b.len(),
    decreases a.len() + b.len(),
{
    if a.len() > 0 && b.len() > 0 {
        lemma_lcs_bound(a.drop_last(), b.drop_last());
        lemma_lcs_bound(a.drop_last(), b);
        lemma_lcs_bound(a, b.drop_last());
    }
}

proof fn lemma_occurrences_bound(s: Seq<u8>, b: u8, upto: int)
    requires
        0 <= upto,
    ensures
        0 <= occurrences(s, b, upto) <= upto,
    decreases upto,
{
    if upto > 0 {
        lemma_occurrences_bound(s, b, upto - 1);
    }
}

/// The bytes in ascending order.
pub fn sort_bytes(word: &Vec<u8>) -> (sorted: Vec<u8>)
    ensures
        sorted@ == sorted_bytes(word@),
{
    let n = word.len();
    let mut counts: Vec<usize> = Vec::new();
    let mut b: usize = 0;
    while b < 256
        invariant
            b <= 256,
            counts@.len() == b,
            forall|k: int| 0 <= k < b ==> #[trigger] counts@[k] == 0,
        decreases 256 - b,
    {
        counts.push(0);
        b += 1;
    }
    let mut i: usize = 0;
    while i < n
        invariant
            i <= n,
            n == word@.len(),
            counts@.len() == 256,
            forall|k: int| 0 <= k < 256 ==> #[trigger] counts@[k] == occurrences(word@, k as u8, i as int),
        decreases n - i,
    {
        let c = word[i] as usize;
        proof {
            lemma_occurrences_bound(word@, c as u8, i as int);
        }
        counts[c] = counts[c] + 1;
        i += 1;
    }
    let mut sorted: Vec<u8> = Vec::with_capacity(n);
    let mut b: usize = 0;
    while b < 256
        invariant
            b <= 256,
            n == word@.len(),
            counts@.len() == 256,
            forall|k: int| 0 <= k < 256 ==> #[trigger] counts@[k] == occurrences(word@, k as u8, n as int),
            sorted@ == sorted_upto(word@, b as int),
        decreases 256 - b,
    {
        let ghost before = sorted@;
        let mut j: usize = 0;
        while j < counts[b]
            invariant
                b < 256,
                counts@.len() == 256,
                j <= counts@[b as int],
                sorted@ == before + Seq::new(j as nat, |k: int| b as u8),
            decreases counts@[b as int] - j,
        {
            sorted.push(b as u8);
            j += 1;
            assert(sorted@ =~= before + Seq::new(j as nat, |k: int| b as u8));
        }
        b += 1;
    }
    sorted
}

/// A word list that can be asked which of its words a hand of letters
/// can spell.
pub struct ScrabbleDictionary {
    // The words as they were handed in
    words: Vec<Vec<u8>>,
    // The same words with their letters in ascending order
    words_cannon: Vec<Vec<u8>>,
}

/// The byte that stands for a blank tile in a hand of letters.
pub const FREE_TILE: u8 = 95;

/// The hand can spell the word: the letters that the hand and the word
/// share, both read in ascending order, and the blanks of the hand
/// together are at least as many as the letters of the word.
pub open spec fn can_spell(hand: Seq<u8>, word: Seq<u8>) -> bool {
    lcs_len(sorted_bytes(without(hand, FREE_TILE)), sorted_bytes(word)) + occurrences(
        hand,
        FREE_TILE,
        hand.len() as int,
    ) >= word.len()
}

/// The words among the first `upto` that the hand can spell, in the order
/// of the list.
pub open spec fn spelled(words: Seq<Seq<u8>>, hand: Seq<u8>, upto: int) -> Seq<Seq<u8>>
    decreases upto,
{
    if upto <= 0 {
        Seq::empty()
    } else if can_spell(hand, words[upto - 1]) {
        spelled(words, hand, upto - 1).push(words[upto - 1])
    } else {
        spelled(words, hand, upto - 1)
    }
}

impl ScrabbleDictionary {
    /// Each word is kept with its letters in ascending order.
    #[verifier::type_invariant]
    pub closed spec fn inv(self) -> bool {
        self.words@.len() == self.words_cannon@.len() && forall|i: int|
            0 <= i < self.words@.len() ==> (#[trigger] self.words_cannon@[i])@ == sorted_bytes(
                self.words@[i]@,
            )
    }

    /// The words of the list.
    pub closed spec fn words_view(&self) -> Seq<Seq<u8>> {
        Seq::new(self.words@.len(), |i: int| self.words@[i]@)
    }

    /// The word list of the given words.
    pub fn new(words: Vec<Vec<u8>>) -> (dict: Self)
        ensures
            dict.words_view() == Seq::new(words@.len(), |i: int| words@[i]@),
    {
        // All words are brought into their sorted form up front
        let mut words_cannon: Vec<Vec<u8>> = Vec::new();
        let mut i: usize = 0;
        while i < words.len()
            invariant
                i <= words@.len(),
                words_cannon@.len() == i,
                forall|k: int|
                    0 <= k < i ==> (#[trigger] words_cannon@[k])@ == sorted_bytes(words@[k]@),
            decreases words@.len() - i,
        {
            words_cannon.push(sort_bytes(&words[i]));
            i += 1;
        }
        Self { words, words_cannon }
    }

    /// Finds the words of the list that the given letters can spell.
    /// Blank tiles that can be used as any letter are marked with `_`.
    pub fn find_valid_words(&self, letters: &[u8]) -> (valid_words: Vec<Vec<u8>>)
        ensures
            Seq::new(valid_words@.len(), |i: int| valid_words@[i]@) == spelled(
                self.words_view(),
                letters@,
                self.words_view().len() as int,
            ),
    {
        proof {
            use_type_invariant(self);
        }
        let mut valid_words: Vec<Vec<u8>> = Vec::new();
        // Count the number of free tiles that can stand for anything
        let mut free_count: usize = 0;
        let mut plain: Vec<u8> = Vec::new();
        let mut k: usize = 0;
        while k < letters.len()
            invariant
                k <= letters@.len(),
                free_count == occurrences(letters@, FREE_TILE, k as int),
                plain@ == without(letters@.take(k as int), FREE_TILE),
            decreases letters@.len() - k,
        {
            proof {
                lemma_occurrences_bound(letters@, FREE_TILE, k as int);
                assert(letters@.take(k as int + 1).drop_last() =~= letters@.take(k as int));
            }
            if letters[k] == FREE_TILE {
                free_count = free_count + 1;
            } else {
                plain.push(letters[k]);
            }
            k += 1;
        }
        assert(letters@.take(letters@.len() as int) =~= letters@);
        let hand = sort_bytes(&plain);

        let ghost list = self.words_view();
        let mut i: usize = 0;
        while i < self.words_cannon.len()
            invariant
                i <= self.words@.len(),
                self.words@.len() == self.words_cannon@.len(),
                list == self.words_view(),
                forall|a: int|
                    0 <= a < self.words@.len() ==> (#[trigger] self.words_cannon@[a])@
                        == sorted_bytes(self.words@[a]@),
                hand@ == sorted_bytes(without(letters@, FREE_TILE)),
                free_count == occurrences(letters@, FREE_TILE, letters@.len() as int),
                Seq::new(valid_words@.len(), |a: int| valid_words@[a]@) == spelled(
                    list,
                    letters@,
                    i as int,
                ),
            decreases self.words@.len() - i,
        {
            let lcs = self.longest_common_subsequence(hand.as_slice(), self.words_cannon[i].as_slice());
            let ghost before = Seq::new(valid_words@.len(), |a: int| valid_words@[a]@);
            proof {
                lemma_lcs_bound(hand@, self.words_cannon@[i as int]@);
                assert(list[i as int] == self.words@[i as int]@);
            }
            let enough = match lcs.checked_add(free_count) {
                Some(sum) => sum >= self.words[i].len(),
                None => true,
            };
            if enough {
                let word = self.words[i].clone();
                assert(word@ =~= self.words@[i as int]@);
                valid_words.push(word);
                assert(Seq::new(valid_words@.len(), |a: int| valid_words@[a]@) =~= before.push(
                    list[i as int],
                ));
            }
            i += 1;
        }
        valid_words
    }

    /// Given a list of sorted letters and a word (also sorted), determines
    /// how many letters the two have in common: the length of their
    /// longest common subsequence.
    pub fn longest_common_subsequence(&self, letters: &[u8], word: &[u8]) -> (lcs: usize)
        ensures
            lcs == lcs_len(letters@, word@),
    {
        let n = letters.len();
        let m = word.len();
        if m == 0 {
            return 0;
        }
        // one row of the table at a time: entry `c` of a row is for the
        // first `c + 1` letters of the word
        let mut prev: Vec<usize> = Vec::new();
        let mut c: usize = 0;
        while c < m
            invariant
                c <= m,
                m == word@.len(),
                prev@.len() == c,
                forall|b: int|
                    0 <= b < c ==> #[trigger] prev@[b] == lcs_len(letters@.take(0), word@.take(b + 1)),
            decreases m - c,
        {
            prev.push(0);
            c += 1;
        }
        let mut i: usize = 0;
        while i < n
            invariant
                i <= n,
                n == letters@.len(),
                m == word@.len(),
                m > 0,
                prev@.len() == m,
                forall|b: int|
                    0 <= b < m ==> #[trigger] prev@[b] == lcs_len(
                        letters@.take(i as int),
                        word@.take(b + 1),
                    ),
            decreases n - i,
        {
            let mut row: Vec<usize> = Vec::new();
            let mut c: usize = 0;
            while c < m
                invariant
                    c <= m,
                    i < n,
                    n == letters@.len(),
                    m == word@.len(),
                    prev@.len() == m,
                    forall|b: int|
                        0 <= b < m ==> #[trigger] prev@[b] == lcs_len(
                            letters@.take(i as int),
                            word@.take(b + 1),
                        ),
                    row@.len() == c,
                    forall|b: int|
                        0 <= b < c ==> #[trigger] row@[b] == lcs_len(
                            letters@.take(i + 1),
                            word@.take(b + 1),
                        ),
                decreases m - c,
            {
                proof {
                    let a = letters@.take(i + 1);
                    let w = word@.take(c + 1);
                    assert(a.drop_last() =~= letters@.take(i as int));
                    assert(w.drop_last() =~= word@.take(c as int));
                    assert(a.last() == letters@[i as int]);
                    assert(w.last() == word@[c as int]);
                    lemma_lcs_bound(a.drop_last(), w.drop_last());
                    assert(prev@[c as int] == lcs_len(letters@.take(i as int), word@.take(c + 1)));
                    if c > 0 {
                        assert(prev@[c - 1] == lcs_len(
                            letters@.take(i as int),
                            word@.take((c - 1) + 1),
                        ));
                        assert(row@[c - 1] == lcs_len(letters@.take(i + 1), word@.take((c - 1) + 1)));
                    } else {
                        assert(lcs_len(a.drop_last(), w.drop_last()) == 0);
                        assert(lcs_len(a, w.drop_last()) == 0);
                    }
                    assert(lcs_len(a, w) == if a.last() == w.last() {
                        lcs_len(a.drop_last(), w.drop_last()) + 1
                    } else if lcs_len(a.drop_last(), w) >= lcs_len(a, w.drop_last()) {
                        lcs_len(a.drop_last(), w)
                    } else {
                        lcs_len(a, w.drop_last())
                    });
                }
                let diagonal = if c == 0 {
                    0
                } else {
                    prev[c - 1]
                };
                let left = if c == 0 {
                    0
                } else {
                    row[c - 1]
                };
                let cell = if letters[i] == word[c] {
                    diagonal + 1
                } else if prev[c] >= left {
                    prev[c]
                } else {
                    left
                };
                row.push(cell);
                c += 1;
            }
            prev = row;
            i += 1;
        }
        proof {
            assert(letters@.take(n as int) =~= letters@);
            assert(word@.take((m - 1) + 1) =~= word@);
        }
        prev[m - 1]
    }
}

} // verus!
