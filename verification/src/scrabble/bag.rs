//! The bag of tiles that racks are filled from.

use vstd::prelude::*;
use rand::seq::SliceRandom;
use super::util::Letter;

verus! {

broadcast use vstd::seq_lib::group_to_multiset_ensures;

/// Number of different tiles: the 26 letters and the blank.
pub const ALPHABET_SIZE: usize = 27;

/// Number of tiles in a full bag.
pub const BAG_SIZE: usize = 100;

/// The tile at a place of the alphabet table: `A` to `Z`, then the blank.
pub open spec fn alphabet(i: int) -> Letter {
    if 0 <= i < 26 {
        Letter::Letter((65 + i) as u8)
    } else {
        Letter::Blank
    }
}

/// The place of a tile in the alphabet table, for the tiles that the game
/// has.
pub open spec fn alphabet_index(l: Letter) -> Option<int> {
    match l {
        Letter::Blank => Some(26),
        Letter::Letter(b) => if 65 <= b <= 90 {
            Some(b - 65)
        } else {
            None
        },
    }
}

/// How many tiles of each kind a full bag holds, in alphabet order.
pub open spec fn tile_amounts() -> Seq<usize> {
    seq![9, 2, 2, 4, 12, 2, 3, 2, 9, 1, 1, 4, 2, 6, 8, 2, 1, 6, 4, 6, 4, 2, 2, 1, 2, 1, 2]
}

/// The points of each kind of tile, in alphabet order.
pub open spec fn tile_values() -> Seq<i32> {
    seq![1, 3, 3, 2, 1, 4, 2, 4, 1, 8, 5, 1, 3, 1, 1, 3, 10, 1, 1, 1, 1, 4, 4, 8, 4, 10, 0]
}

/// Number of tiles of one kind in a full bag.
pub open spec fn standard_amount(l: Letter) -> nat {
    match alphabet_index(l) {
        Some(i) => tile_amounts()[i] as nat,
        None => 0,
    }
}

/// Points of a tile; 0 for the blank and for bytes that are no capital
/// letter.
pub open spec fn letter_value(l: Letter) -> int {
    match alphabet_index(l) {
        Some(i) => tile_values()[i] as int,
        None => 0,
    }
}

/// Number of tiles in a full bag of the kinds before place `upto`.
pub open spec fn amounts_before(upto: int) -> int
    decreases upto,
{
    if upto <= 0 {
        0
    } else {
        amounts_before(upto - 1) + tile_amounts()[upto - 1]
    }
}

proof fn lemma_amounts_total()
    ensures
        amounts_before(27) == 100,
        forall|i: int| 0 <= i <= 27 ==> 0 <= #[trigger] amounts_before(i) <= 100,
{
    reveal_with_fuel(amounts_before, 28);
    assert(amounts_before(27) == 100);
    assert forall|i: int| 0 <= i <= 27 implies 0 <= #[trigger] amounts_before(i) <= 100 by {
        lemma_amounts_monotone(0, i);
        lemma_amounts_monotone(i, 27);
    }
}

proof fn lemma_amounts_monotone(a: int, b: int)
    requires
        0 <= a <= b <= 27,
    ensures
        amounts_before(a) <= amounts_before(b),
        amounts_before(0) == 0,
    decreases b - a,
{
    if a < b {
        lemma_amounts_monotone(a, b - 1);
    }
}

/// The tile at a place of the alphabet table.
fn alphabet_tile(i: usize) -> (l: Letter)
    requires
        i < ALPHABET_SIZE,
    ensures
        l == alphabet(i as int),
        alphabet_index(l) == Some(i as int),
{
    if i < 26 {
        Letter::Letter(65u8 + i as u8)
    } else {
        Letter::Blank
    }
}

fn amounts_table() -> (r: [usize; 27])
    ensures
        r@ == tile_amounts(),
{
    let r: [usize; 27] = [
        9, 2, 2, 4, 12, 2, 3, 2, 9, 1, 1, 4, 2, 6, 8, 2, 1, 6, 4, 6, 4, 2, 2, 1, 2, 1, 2,
    ];
    assert(r@ =~= tile_amounts());
    r
}

fn values_table() -> (r: [i32; 27])
    ensures
        r@ == tile_values(),
{
    let r: [i32; 27] = [
        1, 3, 3, 2, 1, 4, 2, 4, 1, 8, 5, 1, 3, 1, 1, 3, 10, 1, 1, 1, 1, 4, 4, 8, 4, 10, 0,
    ];
    assert(r@ =~= tile_values());
    r
}

/// Reorders the tiles with `rand`'s `SliceRandom::shuffle`, driven by the
/// thread-local generator of `rand::thread_rng`. Assumed: the call only
/// swaps elements of the vector, so the tiles it holds, counted by kind,
/// are the same before and after. Nothing is assumed of the order. The
/// generator is seeded by the system, and `rand` stops the program where
/// the system gives it no seed.
#[verifier::external_body]
fn shuffle_tiles(tiles: &mut Vec<Letter>)
    ensures
        final(tiles)@.to_multiset() == old(tiles)@.to_multiset(),
{
    tiles.shuffle(&mut rand::thread_rng());
}

/// Picks tiles with `rand`'s `SliceRandom::choose_multiple`, driven by the
/// thread-local generator of `rand::thread_rng`. Assumed: the call yields
/// the elements at `min(n, len)` distinct indices of the slice, so the
/// result has that length and holds no kind of tile more often than the
/// slice does. Nothing is assumed of which tiles are picked.
#[verifier::external_body]
fn choose_tiles(tiles: &Vec<Letter>, n: usize) -> (r: Vec<Letter>)
    ensures
        r@.len() == if n <= tiles@.len() {
            n as int
        } else {
            tiles@.len() as int
        },
        r@.to_multiset().subset_of(tiles@.to_multiset()),
{
    tiles.choose_multiple(&mut rand::thread_rng(), n).cloned().collect()
}

/// Index of the first tile equal to `tile`.
fn find_tile(tiles: &Vec<Letter>, tile: Letter) -> (r: Option<usize>)
    ensures
        r matches Some(i) ==> i < tiles@.len() && tiles@[i as int] == tile && forall|k: int|
            0 <= k < i ==> tiles@[k] != tile,
        r is None ==> !tiles@.contains(tile),
{
    let mut i: usize = 0;
    while i < tiles.len()
        invariant
            i <= tiles@.len(),
            forall|k: int| 0 <= k < i ==> tiles@[k] != tile,
        decreases tiles@.len() - i,
    {
        if tiles[i] == tile {
            return Some(i);
        }
        i += 1;
    }
    None
}

/// The tiles not yet drawn, in drawing order when the bag is not random.
#[derive(Debug, Clone)]
pub struct Bag {
    /// Draws are made at random rather than from the front.
    pub random: bool,
    /// The tiles left in the bag.
    pub distribution: Vec<Letter>,
}

impl Bag {
    /// Draws are made at random rather than from the front.
    pub open spec fn is_random(&self) -> bool {
        self.random
    }

    /// A full bag in random order: 100 tiles, of each kind as many as the
    /// game has, drawn from at random.
    pub fn default() -> (bag: Bag)
        ensures
            bag.is_random(),
            bag.distribution@.len() == BAG_SIZE,
            forall|l: Letter| #[trigger]
                bag.distribution@.to_multiset().count(l) == standard_amount(l),
    {
        let amts = amounts_table();
        let mut distribution: Vec<Letter> = Vec::new();
        let mut i: usize = 0;
        while i < ALPHABET_SIZE
            invariant
                i <= ALPHABET_SIZE,
                amts@ == tile_amounts(),
                distribution@.len() == amounts_before(i as int),
                forall|l: Letter| #[trigger]
                    distribution@.to_multiset().count(l) == (match alphabet_index(l) {
                        Some(k) => if k < i {
                            tile_amounts()[k] as nat
                        } else {
                            0
                        },
                        None => 0,
                    }),
            decreases ALPHABET_SIZE - i,
        {
            let c = alphabet_tile(i);
            let ghost before = distribution@;
            let mut j: usize = 0;
            while j < amts[i]
                invariant
                    i < ALPHABET_SIZE,
                    j <= amts@[i as int],
                    c == alphabet(i as int),
                    alphabet_index(c) == Some(i as int),
                    distribution@.len() == before.len() + j,
                    forall|l: Letter| #[trigger]
                        distribution@.to_multiset().count(l) == before.to_multiset().count(l) + (
                        if l == c {
                            j as int
                        } else {
                            0
                        }),
                decreases amts@[i as int] - j,
            {
                let ghost prev = distribution@;
                distribution.push(c);
                assert(distribution@ == prev.push(c));
                assert(distribution@.to_multiset() =~= prev.to_multiset().insert(c));
                j += 1;
            }
            i += 1;
        }
        proof {
            lemma_amounts_total();
        }
        let ghost ordered = distribution@;
        shuffle_tiles(&mut distribution);
        assert(distribution@.len() == distribution@.to_multiset().len());
        assert(ordered.len() == ordered.to_multiset().len());
        Bag { random: true, distribution }
    }

    /// A bag that holds exactly the given tiles and hands them out from
    /// the front, in this order.
    pub fn new_with_order(order: &Vec<Letter>) -> (bag: Bag)
        ensures
            !bag.is_random(),
            bag.distribution@ == order@,
    {
        let distribution = order.clone();
        assert(distribution@ =~= order@);
        Bag { random: false, distribution }
    }

    /// A copy of the bag.
    pub fn duplicate(&self) -> (bag: Bag)
        ensures
            bag.is_random() == self.is_random(),
            bag.distribution@ == self.distribution@,
    {
        let distribution = self.distribution.clone();
        assert(distribution@ =~= self.distribution@);
        Bag { random: self.random, distribution }
    }

    /// No tile is left.
    pub fn is_empty(&self) -> (r: bool)
        ensures
            r <==> self.distribution@.len() == 0,
    {
        self.distribution.is_empty()
    }

    /// Points of a tile.
    pub fn score(&self, c: Letter) -> (r: i32)
        ensures
            r == letter_value(c),
            0 <= r <= 10,
    {
        let values = values_table();
        match c {
            Letter::Blank => values[26],
            Letter::Letter(b) => {
                if 65 <= b && b <= 90 {
                    values[(b - 65) as usize]
                } else {
                    0
                }
            },
        }
    }

    /// Takes up to `n` tiles out of the bag, fewer if it runs out: the
    /// first ones where the bag has a fixed order, any of them where it
    /// is random.
    pub fn draw_tiles(&mut self, n: usize) -> (tiles: Vec<Letter>)
        ensures
            final(self).is_random() == old(self).is_random(),
            tiles@.len() == if n <= old(self).distribution@.len() {
                n as int
            } else {
                old(self).distribution@.len() as int
            },
            final(self).distribution@.len() == old(self).distribution@.len() - tiles@.len(),
            final(self).distribution@.to_multiset().add(tiles@.to_multiset()) == old(
                self,
            ).distribution@.to_multiset(),
            !old(self).is_random() ==> tiles@ == old(self).distribution@.take(tiles@.len() as int)
                && final(self).distribution@ == old(self).distribution@.skip(tiles@.len() as int),
    {
        let tiles: Vec<Letter> = if self.random {
            choose_tiles(&self.distribution, n)
        } else {
            let k = if n <= self.distribution.len() {
                n
            } else {
                self.distribution.len()
            };
            let mut front: Vec<Letter> = Vec::new();
            let mut j: usize = 0;
            while j < k
                invariant
                    j <= k <= self.distribution@.len(),
                    front@ == self.distribution@.take(j as int),
                decreases k - j,
            {
                front.push(self.distribution[j]);
                j += 1;
                assert(front@ =~= self.distribution@.take(j as int));
            }
            proof {
                lemma_take_is_sub_multiset(self.distribution@, k as int);
            }
            front
        };
        let ghost start = self.distribution@;
        let mut i: usize = 0;
        while i < tiles.len()
            invariant
                i <= tiles@.len() <= start.len(),
                self.random == old(self).random,
                start == old(self).distribution@,
                self.distribution@.to_multiset().add(tiles@.take(i as int).to_multiset())
                    == start.to_multiset(),
                tiles@.to_multiset().subset_of(start.to_multiset()),
                self.distribution@.len() == start.len() - i,
                !self.random ==> tiles@ == start.take(tiles@.len() as int) && self.distribution@
                    == start.skip(i as int),
            decreases tiles@.len() - i,
        {
            let tile = tiles[i];
            let ghost dist = self.distribution@;
            let ghost drawn = tiles@.take(i as int);
            proof {
                lemma_take_count(tiles@, i as int + 1, tile);
                assert(tiles@.take(i as int + 1) =~= drawn.push(tile));
                assert(tiles@.take(i as int + 1).to_multiset() =~= drawn.to_multiset().insert(tile));
                assert(drawn.to_multiset().count(tile) < tiles@.to_multiset().count(tile));
                assert(dist.to_multiset().count(tile) + drawn.to_multiset().count(tile)
                    == start.to_multiset().count(tile));
                assert(dist.to_multiset().count(tile) > 0);
                assert(dist.contains(tile));
            }
            if let Some(pos) = find_tile(&self.distribution, tile) {
                self.distribution.remove(pos);
                proof {
                    assert(self.distribution@ == dist.remove(pos as int));
                    assert(self.distribution@.to_multiset() =~= dist.to_multiset().remove(tile));
                    assert(self.distribution@.to_multiset().add(
                        tiles@.take(i as int + 1).to_multiset(),
                    ) =~= start.to_multiset());
                    if !self.random {
                        assert(tile == start[i as int]);
                        assert(dist[0] == tile);
                        assert(pos == 0);
                        assert(self.distribution@ =~= start.skip(i as int + 1));
                    }
                }
            }
            i += 1;
        }
        assert(tiles@.take(tiles@.len() as int) =~= tiles@);
        tiles
    }
}

/// A kind of tile occurs in a prefix at most as often as in the whole.
proof fn lemma_take_count(s: Seq<Letter>, k: int, l: Letter)
    requires
        0 <= k <= s.len(),
    ensures
        s.take(k).to_multiset().count(l) <= s.to_multiset().count(l),
    decreases s.len() - k,
{
    if k < s.len() {
        lemma_take_count(s, k + 1, l);
        assert(s.take(k + 1) =~= s.take(k).push(s[k]));
        assert(s.take(k + 1).to_multiset() =~= s.take(k).to_multiset().insert(s[k]));
    } else {
        assert(s.take(k) =~= s);
    }
}

proof fn lemma_take_is_sub_multiset(s: Seq<Letter>, k: int)
    requires
        0 <= k <= s.len(),
    ensures
        s.take(k).to_multiset().subset_of(s.to_multiset()),
{
    assert forall|l: Letter| s.take(k).to_multiset().count(l) <= s.to_multiset().count(l) by {
        lemma_take_count(s, k, l);
    }
}

} // verus!
