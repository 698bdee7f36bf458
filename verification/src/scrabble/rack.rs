//! The tiles a player holds, kept as a histogram.

use vstd::prelude::*;
use super::util::Letter;

verus! {

/// Sum of the first `upto` counts.
pub open spec fn letters_sum(counts: Seq<u8>, upto: int) -> int
    decreases upto,
{
    if upto <= 0 {
        0
    } else {
        letters_sum(counts, upto - 1) + counts[upto - 1]
    }
}

/// Number of times `b` occurs among the first `upto` bytes of `s`.
pub open spec fn occurrences(s: Seq<u8>, b: u8, upto: int) -> int
    decreases upto,
{
    if upto <= 0 {
        0
    } else {
        occurrences(s, b, upto - 1) + if s[upto - 1] == b {
            1int
        } else {
            0int
        }
    }
}

/// A sum of counts is at least each of them and at most 255 for each.
pub proof fn lemma_letters_sum_bounds(counts: Seq<u8>, upto: int)
    requires
        0 <= upto <= counts.len(),
    ensures
        0 <= letters_sum(counts, upto) <= 255 * upto,
        forall|i: int| 0 <= i < upto ==> counts[i] <= letters_sum(counts, upto),
    decreases upto,
{
    if upto > 0 {
        lemma_letters_sum_bounds(counts, upto - 1);
    }
}

/// Changing one count changes the sum by as much.
pub proof fn lemma_letters_sum_update(counts: Seq<u8>, i: int, v: u8, upto: int)
    requires
        0 <= i < counts.len(),
        0 <= upto <= counts.len(),
    ensures
        letters_sum(counts.update(i, v), upto) == letters_sum(counts, upto) + if i < upto {
            v - counts[i]
        } else {
            0
        },
    decreases upto,
{
    if upto > 0 {
        lemma_letters_sum_update(counts, i, v, upto - 1);
    }
}

/// A byte occurs in a longer prefix at least as often as in a shorter
/// one.
pub proof fn lemma_occurrences_monotone(s: Seq<u8>, b: u8, a: int, upto: int)
    requires
        0 <= a <= upto,
    ensures
        0 <= occurrences(s, b, a) <= occurrences(s, b, upto),
    decreases upto,
{
    if upto > 0 {
        if a < upto {
            lemma_occurrences_monotone(s, b, a, upto - 1);
        } else {
            lemma_occurrences_monotone(s, b, 0, upto - 1);
        }
    }
}

/// The byte that stands for a blank tile in a rack listing.
pub const RACK_BLANK: u8 = 45;

/// A player's tiles: how many of each letter byte, and how many blanks.
#[derive(Debug, Clone, Copy)]
pub struct Rack {
    /// Histogram count of each letter in the rack
    pub letters: [u8; 256],
    /// Number of blanks in the rack
    pub n_blanks: u8,
    /// The total number of remaining letters and blanks
    pub n_total: u32,
}

impl Rack {
    /// `n_total` is the number of tiles that the histogram holds.
    pub open spec fn wf(&self) -> bool {
        self.n_total == letters_sum(self.letters@, 256) + self.n_blanks
    }

    /// Number of tiles of one kind in the rack.
    pub open spec fn count(&self, letter: Letter) -> int {
        match letter {
            Letter::Blank => self.n_blanks as int,
            Letter::Letter(l) => self.letters@[l as int] as int,
        }
    }

    /// The rack with one tile of the given kind less.
    pub open spec fn without(&self, letter: Letter) -> Rack {
        match letter {
            Letter::Blank => Rack {
                letters: self.letters,
                n_blanks: (self.n_blanks - 1) as u8,
                n_total: (self.n_total - 1) as u32,
            },
            Letter::Letter(l) => Rack {
                letters: vstd::array::spec_array_update(
                    self.letters,
                    l as int,
                    (self.letters@[l as int] - 1) as u8,
                ),
                n_blanks: self.n_blanks,
                n_total: (self.n_total - 1) as u32,
            },
        }
    }

    /// A rack with the given histogram and number of blanks.
    pub fn new(letters: [u8; 256], n_blanks: u8) -> (r: Self)
        ensures
            r.letters == letters,
            r.n_blanks == n_blanks,
            r.wf(),
    {
        let mut sum: u32 = 0;
        let mut i: usize = 0;
        while i < 256
            invariant
                i <= 256,
                sum == letters_sum(letters@, i as int),
            decreases 256 - i,
        {
            proof {
                lemma_letters_sum_bounds(letters@, i as int);
            }
            sum = sum + letters[i] as u32;
            i += 1;
        }
        proof {
            lemma_letters_sum_bounds(letters@, 256);
        }
        let n_total = sum + n_blanks as u32;
        Self { letters, n_blanks, n_total }
    }

    /// The rack without tiles.
    pub fn empty() -> (r: Self)
        ensures
            r.wf(),
            r.n_total == 0,
            r.n_blanks == 0,
            forall|i: int| 0 <= i < 256 ==> r.letters@[i] == 0,
    {
        let r = Self::new([0; 256], 0);
        proof {
            lemma_sum_of_zeros(r.letters@, 256);
        }
        r
    }

    /// Adds one tile in place.
    pub fn add_inplace(&mut self, letter: Letter)
        requires
            old(self).count(letter) < 255,
            old(self).n_total < u32::MAX,
        ensures
            final(self).count(letter) == old(self).count(letter) + 1,
            final(self).n_total == old(self).n_total + 1,
            forall|other: Letter| other != letter ==> final(self).count(other) == old(self).count(other),
            old(self).wf() ==> final(self).wf(),
    {
        match letter {
            Letter::Blank => {
                self.n_blanks += 1;
            },
            Letter::Letter(l) => {
                proof {
                    lemma_letters_sum_update(
                        self.letters@,
                        l as int,
                        (self.letters@[l as int] + 1) as u8,
                        256,
                    );
                }
                self.letters[l as usize] += 1;
            },
        };
        self.n_total += 1;
    }

    /// Takes one tile out in place.
    pub fn remove_inplace(&mut self, letter: Letter)
        requires
            old(self).count(letter) > 0,
            old(self).n_total > 0,
        ensures
            final(self).count(letter) == old(self).count(letter) - 1,
            final(self).n_total == old(self).n_total - 1,
            forall|other: Letter| other != letter ==> final(self).count(other) == old(self).count(other),
            old(self).wf() ==> final(self).wf(),
            final(self).letters@ == old(self).without(letter).letters@,
            final(self).n_blanks == old(self).without(letter).n_blanks,
    {
        match letter {
            Letter::Blank => {
                self.n_blanks -= 1;
            },
            Letter::Letter(l) => {
                proof {
                    lemma_letters_sum_update(
                        self.letters@,
                        l as int,
                        (self.letters@[l as int] - 1) as u8,
                        256,
                    );
                }
                self.letters[l as usize] -= 1;
            },
        };
        self.n_total -= 1;
    }

    /// The rack without one tile of the given letter, if it holds one.
    /// The rack itself is left as it is.
    pub fn remove(&self, letter: u8) -> (r: Option<Self>)
        requires
            self.wf(),
        ensures
            r is Some <==> self.count(Letter::Letter(letter)) > 0,
            r matches Some(rack) ==> rack == self.without(Letter::Letter(letter)),
            r matches Some(rack) ==> {
                &&& rack.wf()
                &&& rack.count(Letter::Letter(letter)) == self.count(Letter::Letter(letter)) - 1
                &&& rack.n_total == self.n_total - 1
                &&& forall|other: Letter|
                    other != Letter::Letter(letter) ==> rack.count(other) == self.count(other)
            },
    {
        if self.letters[letter as usize] > 0 {
            let mut tmp = *self;
            proof {
                lemma_letters_sum_bounds(self.letters@, 256);
            }
            tmp.remove_inplace(Letter::Letter(letter));
            assert(tmp.letters =~= self.without(Letter::Letter(letter)).letters);
            Some(tmp)
        } else {
            None
        }
    }

    /// The rack without one blank, if it holds one. The rack itself is
    /// left as it is.
    pub fn remove_wildcard(&self) -> (r: Option<Self>)
        requires
            self.wf(),
        ensures
            r is Some <==> self.count(Letter::Blank) > 0,
            r matches Some(rack) ==> rack == self.without(Letter::Blank),
            r matches Some(rack) ==> {
                &&& rack.wf()
                &&& rack.count(Letter::Blank) == self.count(Letter::Blank) - 1
                &&& rack.n_total == self.n_total - 1
                &&& forall|other: Letter| other != Letter::Blank ==> rack.count(other) == self.count(other)
            },
    {
        if self.n_blanks > 0 {
            let mut tmp = *self;
            proof {
                lemma_letters_sum_bounds(self.letters@, 256);
            }
            tmp.remove_inplace(Letter::Blank);
            assert(tmp.letters =~= self.without(Letter::Blank).letters);
            Some(tmp)
        } else {
            None
        }
    }

    /// The tiles in listing order: the blanks, then the letters by
    /// ascending byte value up to but not including `upto`.
    pub open spec fn tiles_upto(&self, upto: int) -> Seq<Letter>
        decreases upto,
    {
        if upto <= 0 {
            Seq::new(self.n_blanks as nat, |k: int| Letter::Blank)
        } else {
            self.tiles_upto(upto - 1) + Seq::new(
                self.letters@[upto - 1] as nat,
                |k: int| Letter::Letter((upto - 1) as u8),
            )
        }
    }

    /// All tiles of the rack, blanks first, then letters by byte value.
    pub fn get_letters(&self) -> (r: Vec<Letter>)
        ensures
            r@ == self.tiles_upto(256),
            self.wf() ==> r@.len() == self.n_total,
    {
        let mut letters: Vec<Letter> = Vec::new();
        let mut b: u8 = 0;
        while b < self.n_blanks
            invariant
                b <= self.n_blanks,
                letters@ == Seq::new(b as nat, |k: int| Letter::Blank),
            decreases self.n_blanks - b,
        {
            letters.push(Letter::Blank);
            b += 1;
            assert(letters@ =~= Seq::new(b as nat, |k: int| Letter::Blank));
        }
        let mut i: usize = 0;
        while i < 256
            invariant
                i <= 256,
                letters@ == self.tiles_upto(i as int),
                letters@.len() == self.n_blanks + letters_sum(self.letters@, i as int),
            decreases 256 - i,
        {
            let ghost before = letters@;
            let mut j: u8 = 0;
            while j < self.letters[i]
                invariant
                    i < 256,
                    j <= self.letters@[i as int],
                    letters@ == before + Seq::new(j as nat, |k: int| Letter::Letter(i as u8)),
                decreases self.letters@[i as int] - j,
            {
                letters.push(Letter::Letter(i as u8));
                j += 1;
                assert(letters@ =~= before + Seq::new(j as nat, |k: int| Letter::Letter(i as u8)));
            }
            i += 1;
        }
        letters
    }

    /// The rack that a listing of tiles describes, where the byte `-`
    /// stands for a blank and every other byte for itself.
    pub fn from_tiles(tiles: &[u8]) -> (r: Self)
        requires
            forall|b: u8| occurrences(tiles@, b, tiles@.len() as int) <= 255,
        ensures
            r.wf(),
            r.n_blanks == occurrences(tiles@, RACK_BLANK, tiles@.len() as int),
            forall|b: u8|
                b != RACK_BLANK ==> r.letters@[b as int] == occurrences(
                    tiles@,
                    b,
                    tiles@.len() as int,
                ),
            r.letters@[RACK_BLANK as int] == 0,
    {
        let mut chars: [u8; 256] = [0; 256];
        let mut n_blanks: u8 = 0;
        let mut i: usize = 0;
        while i < tiles.len()
            invariant
                i <= tiles@.len(),
                forall|b: u8| occurrences(tiles@, b, tiles@.len() as int) <= 255,
                n_blanks == occurrences(tiles@, RACK_BLANK, i as int),
                forall|b: u8|
                    b != RACK_BLANK ==> chars@[b as int] == occurrences(tiles@, b, i as int),
                chars@[RACK_BLANK as int] == 0,
            decreases tiles@.len() - i,
        {
            let x = tiles[i];
            proof {
                lemma_occurrences_monotone(tiles@, x, i as int + 1, tiles@.len() as int);
            }
            if x != RACK_BLANK {
                chars[x as usize] += 1;
            } else {
                n_blanks += 1;
            }
            i += 1;
        }
        Self::new(chars, n_blanks)
    }
}

/// Taking out a tile that the rack holds leaves a well-formed rack with
/// one tile of that kind less and all other kinds as they were.
pub proof fn lemma_without_wf(rack: Rack, letter: Letter)
    requires
        rack.wf(),
        rack.count(letter) > 0,
    ensures
        rack.without(letter).wf(),
        rack.n_total > 0,
        rack.without(letter).n_total == rack.n_total - 1,
        rack.without(letter).count(letter) == rack.count(letter) - 1,
        forall|other: Letter| other != letter ==> rack.without(letter).count(other) == rack.count(other),
{
    lemma_letters_sum_bounds(rack.letters@, 256);
    match letter {
        Letter::Blank => {},
        Letter::Letter(l) => {
            lemma_letters_sum_update(
                rack.letters@,
                l as int,
                (rack.letters@[l as int] - 1) as u8,
                256,
            );
        },
    }
}

/// Counts that are all zero sum up to zero.
pub proof fn lemma_sum_of_zeros(counts: Seq<u8>, upto: int)
    requires
        0 <= upto <= counts.len(),
        forall|i: int| 0 <= i < upto ==> counts[i] == 0,
    ensures
        letters_sum(counts, upto) == 0,
    decreases upto,
{
    if upto > 0 {
        lemma_sum_of_zeros(counts, upto - 1);
    }
}

} // verus!
