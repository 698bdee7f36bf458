//! A set of byte-valued letters stored as 256 bits.

use vstd::prelude::*;

verus! {

/// Bit `k` of `word` is set.
pub open spec fn bit_is_set(word: u128, k: u128) -> bool {
    word & (1u128 << k) != 0
}

proof fn lemma_bits_of_zero(k: u128)
    requires
        k < 128,
    ensures
        !bit_is_set(0, k),
{
    assert(0u128 & (1u128 << k) == 0) by (bit_vector);
}

proof fn lemma_bits_of_max(k: u128)
    requires
        k < 128,
    ensures
        bit_is_set(u128::MAX, k),
{
    assert(0xffff_ffff_ffff_ffff_ffff_ffff_ffff_ffffu128 & (1u128 << k) != 0) by (bit_vector)
        requires
            k < 128,
    ;
}

proof fn lemma_bits_after_or(word: u128, k: u128, j: u128)
    requires
        k < 128,
        j < 128,
    ensures
        bit_is_set(word | (1u128 << k), j) <==> (j == k || bit_is_set(word, j)),
{
    assert(((word | (1u128 << k)) & (1u128 << j) != 0) <==> (j == k || word & (1u128 << j) != 0))
        by (bit_vector)
        requires
            k < 128,
            j < 128,
    ;
}

/// A word whose part from bit `k` upwards is not zero has a set bit at or
/// above `k`.
proof fn lemma_nonzero_has_bit(word: u128, k: u128) -> (j: u128)
    requires
        k < 128,
        word >> k != 0,
    ensures
        k <= j < 128,
        bit_is_set(word, j),
    decreases 128 - k,
{
    if bit_is_set(word, k) {
        k
    } else {
        assert(k < 127 && word >> ((k + 1) as u128) != 0) by (bit_vector)
            requires
                k < 128,
                word >> k != 0,
                word & (1u128 << k) == 0,
        ;
        lemma_nonzero_has_bit(word, (k + 1) as u128)
    }
}

/// Dense membership set over byte values.
#[derive(Copy, Clone, PartialEq, Eq, Debug)]
pub struct LetterSet {
    accepted: [u128; 2],
}

impl View for LetterSet {
    type V = Set<u8>;

    closed spec fn view(&self) -> Set<u8> {
        Set::new(|b: u8| bit_is_set(self.accepted[b as int / 128], (b % 128) as u128))
    }
}

impl LetterSet {
    /// The set without any letter.
    pub fn empty() -> (r: Self)
        ensures
            r@ == Set::<u8>::empty(),
    {
        let r = Self { accepted: [0; 2] };
        proof {
            assert forall|b: u8| !r@.contains(b) by {
                lemma_bits_of_zero((b % 128) as u128);
            }
            assert(r@ =~= Set::<u8>::empty());
        }
        r
    }

    /// The set of all 256 byte values: no restriction.
    pub fn any() -> (r: Self)
        ensures
            r@ == Set::<u8>::full(),
    {
        let r = Self { accepted: [u128::MAX; 2] };
        proof {
            assert forall|b: u8| r@.contains(b) by {
                lemma_bits_of_max((b % 128) as u128);
            }
            assert(r@ =~= Set::<u8>::full());
        }
        r
    }

    /// Membership test.
    pub fn contains(&self, letter: u8) -> (r: bool)
        ensures
            r == self@.contains(letter),
    {
        let i = letter as usize;
        (self.accepted[i / 128] & (1u128 << ((i % 128) as u128))) != 0
    }

    /// Adds a letter to the set.
    pub fn insert(&mut self, letter: u8)
        ensures
            final(self)@ == old(self)@.insert(letter),
    {
        let i = letter as usize;
        let word = self.accepted[i / 128];
        self.accepted[i / 128] = word | (1u128 << ((i % 128) as u128));
        proof {
            assert forall|b: u8| self@.contains(b) <==> old(self)@.insert(letter).contains(b) by {
                if b as int / 128 == letter as int / 128 {
                    lemma_bits_after_or(word, (letter % 128) as u128, (b % 128) as u128);
                }
            }
            assert(self@ =~= old(self)@.insert(letter));
        }
    }

    /// The set of the letters listed.
    pub fn from_many(letters: &[u8]) -> (r: Self)
        ensures
            r@ == letters@.to_set(),
    {
        let mut tmp = Self::empty();
        let mut i: usize = 0;
        while i < letters.len()
            invariant
                i <= letters@.len(),
                forall|b: u8|
                    tmp@.contains(b) <==> exists|k: int| 0 <= k < i && letters@[k] == b,
            decreases letters@.len() - i,
        {
            tmp.insert(letters[i]);
            i += 1;
        }
        assert(tmp@ =~= letters@.to_set());
        tmp
    }

    /// No letter is in the set.
    pub fn is_empty(&self) -> (r: bool)
        ensures
            r <==> self@ == Set::<u8>::empty(),
    {
        let r = self.accepted[0] == 0 && self.accepted[1] == 0;
        proof {
            if r {
                assert forall|b: u8| !self@.contains(b) by {
                    lemma_bits_of_zero((b % 128) as u128);
                }
                assert(self@ =~= Set::<u8>::empty());
            } else {
                let half: int = if self.accepted[0] != 0 {
                    0
                } else {
                    1
                };
                let word = self.accepted[half];
                assert(word >> 0u128 == word) by (bit_vector);
                let j = lemma_nonzero_has_bit(word, 0);
                let b = (half * 128 + j) as u8;
                assert(self@.contains(b));
            }
        }
        r
    }

    /// Every byte value is in the set.
    pub fn is_any(&self) -> (r: bool)
        ensures
            r <==> self@ == Set::<u8>::full(),
    {
        let r = self.accepted[0] == u128::MAX && self.accepted[1] == u128::MAX;
        proof {
            if r {
                assert forall|b: u8| self@.contains(b) by {
                    lemma_bits_of_max((b % 128) as u128);
                }
                assert(self@ =~= Set::<u8>::full());
            } else {
                let half: int = if self.accepted[0] != u128::MAX {
                    0
                } else {
                    1
                };
                let word = self.accepted[half];
                let inv = !word;
                assert(inv != 0 && inv >> 0u128 == inv) by (bit_vector)
                    requires
                        inv == !word,
                        word != 0xffff_ffff_ffff_ffff_ffff_ffff_ffff_ffffu128,
                ;
                let j = lemma_nonzero_has_bit(inv, 0);
                assert(word & (1u128 << j) == 0) by (bit_vector)
                    requires
                        inv == !word,
                        inv & (1u128 << j) != 0,
                ;
                let b = (half * 128 + j) as u8;
                assert(!self@.contains(b));
                assert(Set::<u8>::full().contains(b));
            }
        }
        r
    }
}

impl Default for LetterSet {
    fn default() -> (r: Self)
        ensures
            r@ == Set::<u8>::empty(),
    {
        Self::empty()
    }
}

} // verus!
