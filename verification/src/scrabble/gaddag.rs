//! A vocabulary stored so that words can be found by their beginning as
//! well as by their end: each word is kept reversed, and once for each
//! place at which it can be split, with the reversed head, a separator
//! and the tail.

use vstd::prelude::*;
use super::lexicon::{
    in_order, lexicon_from_sorted, lexicon_words, run, search_lexicon, sort_words, words_of, LineMatcher,
};

verus! {

broadcast use vstd::seq_lib::group_to_multiset_ensures;

/// The byte between the reversed head of a word and its tail.
pub const SEP: u8 = 44;

/// The entry of a word that is split before place `k`: the first `k`
/// bytes reversed, the separator, and the rest.
pub open spec fn split_entry(word: Seq<u8>, k: int) -> Seq<u8> {
    word.subrange(0, k).reverse() + seq![SEP] + word.subrange(k, word.len() as int)
}

/// `entry` is one of the entries of `word`: the word reversed, or the
/// word split at a place inside it.
pub open spec fn is_entry_of(word: Seq<u8>, entry: Seq<u8>) -> bool {
    entry == word.reverse() || exists|k: int| 1 <= k < word.len() && entry == #[trigger] split_entry(word, k)
}

/// The entries of all the words.
pub open spec fn entries_of(words: Seq<Seq<u8>>) -> Set<Seq<u8>> {
    Set::new(|e: Seq<u8>| exists|i: int| 0 <= i < words.len() && is_entry_of(#[trigger] words[i], e))
}

/// The entries made so far while the words are worked through: all
/// entries of the first `i` words and, of word `i`, the reversed word
/// and the splits at the places above `k`.
pub open spec fn entries_so_far(words: Seq<Seq<u8>>, i: int, k: int) -> Set<Seq<u8>> {
    Set::new(
        |e: Seq<u8>|
            entries_of(words.take(i)).contains(e) || (0 <= i < words.len() && (e
                == words[i].reverse() || exists|s: int|
                k < s < words[i].len() && 1 <= s && e == #[trigger] split_entry(words[i], s))),
    )
}

/// The set of a list with one more word at its end.
proof fn lemma_push_to_set(s: Seq<Seq<u8>>, x: Seq<u8>)
    ensures
        s.push(x).to_set() == s.to_set().insert(x),
{
    let longer = s.push(x);
    assert forall|e: Seq<u8>| longer.to_set().contains(e) <==> s.to_set().insert(x).contains(e) by {
        if longer.contains(e) {
            let j = choose|j: int| 0 <= j < longer.len() && longer[j] == e;
            if j < s.len() {
                assert(s[j] == e);
                assert(s.contains(e));
            }
        }
        if s.contains(e) {
            let j = choose|j: int| 0 <= j < s.len() && s[j] == e;
            assert(longer[j] == e);
        }
        if e == x {
            assert(longer[s.len() as int] == e);
        }
    }
    assert(longer.to_set() =~= s.to_set().insert(x));
}

/// The word read backwards.
fn reverse_word(word: &Vec<u8>) -> (r: Vec<u8>)
    ensures
        r@ == word@.reverse(),
{
    let n = word.len();
    let mut r: Vec<u8> = Vec::with_capacity(n);
    let mut j: usize = n;
    while j > 0
        invariant
            j <= n,
            n == word@.len(),
            r@.len() == n - j,
            forall|a: int| 0 <= a < n - j ==> #[trigger] r@[a] == word@[n - 1 - a],
        decreases j,
    {
        j -= 1;
        r.push(word[j]);
    }
    assert(r@ =~= word@.reverse());
    r
}

/// The entry of a word split before place `k`.
fn make_split(word: &Vec<u8>, k: usize) -> (r: Vec<u8>)
    requires
        k <= word@.len(),
    ensures
        r@ == split_entry(word@, k as int),
{
    let n = word.len();
    let mut r: Vec<u8> = Vec::with_capacity(n);
    let mut j: usize = k;
    while j > 0
        invariant
            j <= k <= n,
            n == word@.len(),
            r@.len() == k - j,
            forall|a: int| 0 <= a < k - j ==> #[trigger] r@[a] == word@[k - 1 - a],
        decreases j,
    {
        j -= 1;
        r.push(word[j]);
    }
    r.push(SEP);
    let mut j: usize = k;
    while j < n
        invariant
            k <= j <= n,
            n == word@.len(),
            r@.len() == j + 1,
            forall|a: int| 0 <= a < k ==> #[trigger] r@[a] == word@[k - 1 - a],
            r@[k as int] == SEP,
            forall|a: int| k <= a < j ==> #[trigger] r@[a + 1] == word@[a],
        decreases n - j,
    {
        r.push(word[j]);
        j += 1;
    }
    proof {
        let target = split_entry(word@, k as int);
        assert(target.len() == n + 1);
        assert forall|a: int| 0 <= a < n + 1 implies r@[a] == target[a] by {
            if a > k {
                assert(r@[(a - 1) + 1] == word@[a - 1]);
            }
        }
        assert(r@ =~= target);
    }
    r
}

/// The two byte strings are the same.
fn same_word(a: &Vec<u8>, b: &Vec<u8>) -> (r: bool)
    ensures
        r == (a@ == b@),
{
    if a.len() != b.len() {
        return false;
    }
    let mut i: usize = 0;
    while i < a.len()
        invariant
            i <= a@.len(),
            a@.len() == b@.len(),
            forall|k: int| 0 <= k < i ==> a@[k] == b@[k],
        decreases a@.len() - i,
    {
        if a[i] != b[i] {
            return false;
        }
        i += 1;
    }
    assert(a@ =~= b@);
    true
}

/// Neighbours in the list differ.
pub open spec fn neighbours_differ(words: Seq<Seq<u8>>) -> bool {
    forall|i: int| 0 < i < words.len() ==> words[i - 1] != #[trigger] words[i]
}

/// Leaves out every word that equals the word before it.
fn drop_repeats(sorted: Vec<Vec<u8>>) -> (out: Vec<Vec<u8>>)
    requires
        in_order(words_of(sorted@)),
    ensures
        in_order(words_of(out@)),
        neighbours_differ(words_of(out@)),
        words_of(out@).to_set() == words_of(sorted@).to_set(),
{
    let ghost input = words_of(sorted@);
    let mut out: Vec<Vec<u8>> = Vec::new();
    let mut i: usize = 0;
    assert(words_of(out@).to_set() =~= input.take(0).to_set());
    while i < sorted.len()
        invariant
            i <= sorted@.len(),
            input == words_of(sorted@),
            in_order(input),
            in_order(words_of(out@)),
            neighbours_differ(words_of(out@)),
            words_of(out@).to_set() == input.take(i as int).to_set(),
            i > 0 ==> out@.len() > 0 && out@[out@.len() - 1]@ == input[i - 1],
            i == 0 ==> out@.len() == 0,
        decreases sorted@.len() - i,
    {
        let ghost before = words_of(out@);
        let repeat = i > 0 && same_word(&sorted[i], &out[out.len() - 1]);
        proof {
            assert(input.take(i as int + 1) =~= input.take(i as int).push(input[i as int]));
            assert(input[i as int] == sorted@[i as int]@);
        }
        if !repeat {
            let word = sorted[i].clone();
            assert(word@ =~= sorted@[i as int]@);
            out.push(word);
            proof {
                let after = words_of(out@);
                assert(after =~= before.push(input[i as int]));
                lemma_push_to_set(before, input[i as int]);
                lemma_push_to_set(input.take(i as int), input[i as int]);
                assert forall|k: int| 0 < k < after.len() implies bytes_le_at(after, k)
                    && after[k - 1] != #[trigger] after[k] by {
                    if k < before.len() {
                        assert(before[k - 1] != before[k]);
                        assert(super::lexicon::bytes_le(before[k - 1], before[k]));
                    } else {
                        assert(after[k - 1] == input[i as int - 1]);
                        assert(super::lexicon::bytes_le(input[i as int - 1], input[i as int]));
                    }
                }
            }
        } else {
            proof {
                assert(before.contains(input[i as int])) by {
                    assert(before[before.len() - 1] == input[i as int]);
                }
                lemma_push_to_set(input.take(i as int), input[i as int]);
                assert(before.to_set().insert(input[i as int]) =~= before.to_set());
            }
        }
        i += 1;
    }
    assert(input.take(input.len() as int) =~= input);
    out
}

/// Word `k` of the list is not smaller than the word before it.
pub open spec fn bytes_le_at(words: Seq<Seq<u8>>, k: int) -> bool {
    super::lexicon::bytes_le(words[k - 1], words[k])
}

/// The entries of the given words, each once, in ascending order.
pub fn build_entries_sorted(words: &Vec<Vec<u8>>) -> (entries: Vec<Vec<u8>>)
    requires
        forall|i: int| 0 <= i < words@.len() ==> (#[trigger] words@[i])@.len() >= 1,
    ensures
        in_order(words_of(entries@)),
        neighbours_differ(words_of(entries@)),
        words_of(entries@).to_set() == entries_of(words_of(words@)),
{
    let ghost ws = words_of(words@);
    let mut made: Vec<Vec<u8>> = Vec::new();
    let mut i: usize = 0;
    assert(words_of(made@).to_set() =~= entries_of(ws.take(0)));
    while i < words.len()
        invariant
            i <= words@.len(),
            ws == words_of(words@),
            forall|a: int| 0 <= a < words@.len() ==> (#[trigger] words@[a])@.len() >= 1,
            words_of(made@).to_set() == entries_of(ws.take(i as int)),
        decreases words@.len() - i,
    {
        let word = &words[i];
        let n = word.len();
        let ghost w = word@;
        assert(ws[i as int] == w);
        // the reversed word without the separator
        let ghost before = words_of(made@);
        made.push(reverse_word(word));
        proof {
            let after = words_of(made@);
            assert(after =~= before.push(w.reverse()));
            lemma_push_to_set(before, w.reverse());
            assert(after.to_set() =~= entries_so_far(ws, i as int, n as int - 1)) by {
                assert forall|e: Seq<u8>|
                    after.to_set().contains(e) <==> entries_so_far(
                        ws,
                        i as int,
                        n as int - 1,
                    ).contains(e) by {}
            }
        }
        let mut k: usize = n - 1;
        while k > 0
            invariant
                k < n,
                i < words@.len(),
                n == w.len(),
                w == word@,
                ws == words_of(words@),
                ws[i as int] == w,
                words_of(made@).to_set() == entries_so_far(ws, i as int, k as int),
            decreases k,
        {
            let ghost before = words_of(made@);
            made.push(make_split(word, k));
            proof {
                let after = words_of(made@);
                let e_new = split_entry(w, k as int);
                assert(after =~= before.push(e_new));
                lemma_push_to_set(before, e_new);
                assert forall|e: Seq<u8>|
                    after.to_set().contains(e) <==> entries_so_far(
                        ws,
                        i as int,
                        k as int - 1,
                    ).contains(e) by {
                    if entries_so_far(ws, i as int, k as int - 1).contains(e) && !entries_of(
                        ws.take(i as int),
                    ).contains(e) && e != w.reverse() {
                        let s = choose|s: int|
                            k - 1 < s < w.len() && 1 <= s && e == #[trigger] split_entry(w, s);
                        if s > k {
                            assert(entries_so_far(ws, i as int, k as int).contains(e));
                        }
                    }
                    if before.to_set().contains(e) {
                        assert(entries_so_far(ws, i as int, k as int).contains(e));
                        if !entries_of(ws.take(i as int)).contains(e) && e != w.reverse() {
                            let s = choose|s: int|
                                k < s < w.len() && 1 <= s && e == #[trigger] split_entry(w, s);
                            assert(k - 1 < s);
                        }
                    }
                }
                assert(after.to_set() =~= entries_so_far(ws, i as int, k as int - 1));
            }
            k -= 1;
        }
        proof {
            let now = ws.take(i as int + 1);
            let seen = ws.take(i as int);
            assert(now[i as int] == w);
            assert forall|e: Seq<u8>|
                entries_so_far(ws, i as int, 0).contains(e) <==> entries_of(now).contains(e) by {
                if entries_so_far(ws, i as int, 0).contains(e) {
                    if entries_of(seen).contains(e) {
                        let a = choose|a: int| 0 <= a < seen.len() && is_entry_of(#[trigger] seen[a], e);
                        assert(is_entry_of(now[a], e));
                    } else {
                        assert(is_entry_of(now[i as int], e));
                    }
                }
                if entries_of(now).contains(e) {
                    let a = choose|a: int| 0 <= a < now.len() && is_entry_of(#[trigger] now[a], e);
                    if a < i {
                        assert(is_entry_of(seen[a], e));
                    } else {
                        assert(is_entry_of(w, e));
                    }
                }
            }
            assert(entries_so_far(ws, i as int, 0) =~= entries_of(now));
        }
        i += 1;
    }
    assert(ws.take(ws.len() as int) =~= ws);
    let ghost unsorted = words_of(made@);
    sort_words(&mut made);
    proof {
        let sorted = words_of(made@);
        assert forall|e: Seq<u8>| sorted.contains(e) <==> unsorted.contains(e) by {
            assert(sorted.to_multiset().count(e) == unsorted.to_multiset().count(e));
        }
        assert(sorted.to_set() =~= unsorted.to_set());
    }
    drop_repeats(made)
}

/// Turns an entry back into its word: the part before the separator is
/// reversed and put in front of the part after it; an entry without a
/// separator is reversed as a whole.
pub open spec fn demangled(item: Seq<u8>) -> Seq<u8> {
    match item.index_of_first(SEP) {
        Some(idx) => item.subrange(0, idx).reverse() + item.subrange(idx + 1, item.len() as int),
        None => item.reverse(),
    }
}

/// Turns an entry back into the word it was made from. For example
/// `GINT,BOA` gives `BOATING`.
pub fn demangle_item(item: &Vec<u8>) -> (word: Vec<u8>)
    ensures
        word@ == demangled(item@),
{
    let n = item.len();
    let mut idx: usize = 0;
    while idx < n && item[idx] != SEP
        invariant
            idx <= n,
            n == item@.len(),
            forall|a: int| 0 <= a < idx ==> item@[a] != SEP,
        decreases n - idx,
    {
        idx += 1;
    }
    if idx == n {
        proof {
            item@.index_of_first_ensures(SEP);
            if item@.contains(SEP) {
                let a = choose|a: int| 0 <= a < item@.len() && item@[a] == SEP;
                assert(false);
            }
        }
        return reverse_word(item);
    }
    proof {
        assert(item@[idx as int] == SEP);
        assert(item@.contains(SEP));
        item@.index_of_first_ensures(SEP);
        let first = item@.index_of_first(SEP)->0;
        if first < idx {
            assert(item@[first] != SEP);
        }
        assert(first == idx);
    }
    let mut word: Vec<u8> = Vec::with_capacity(n);
    let mut j: usize = idx;
    while j > 0
        invariant
            j <= idx < n,
            n == item@.len(),
            word@.len() == idx - j,
            forall|a: int| 0 <= a < idx - j ==> #[trigger] word@[a] == item@[idx - 1 - a],
        decreases j,
    {
        j -= 1;
        word.push(item[j]);
    }
    let mut j: usize = idx + 1;
    while j < n
        invariant
            idx < j <= n,
            n == item@.len(),
            word@.len() == j - 1,
            forall|a: int| 0 <= a < idx ==> #[trigger] word@[a] == item@[idx - 1 - a],
            forall|a: int| idx < a < j ==> #[trigger] word@[a - 1] == item@[a],
        decreases n - j,
    {
        word.push(item[j]);
        j += 1;
    }
    proof {
        let target = item@.subrange(0, idx as int).reverse() + item@.subrange(idx + 1, n as int);
        assert(target.len() == n - 1);
        assert forall|a: int| 0 <= a < n - 1 implies word@[a] == target[a] by {
            if a >= idx {
                assert(word@[(a + 1) - 1] == item@[a + 1]);
            }
        }
        assert(word@ =~= target);
    }
    word
}

/// Accepts the byte strings that start with a given prefix, with or
/// without those that hold the separator.
pub struct PrefixMatcher<'a> {
    pub prefix: &'a [u8],
    pub allow_sep: bool,
}

/// The word starts with the prefix and, unless the separator is allowed,
/// does not hold it.
pub open spec fn starts_with(prefix: Seq<u8>, allow_sep: bool, word: Seq<u8>) -> bool {
    &&& prefix.len() <= word.len()
    &&& forall|i: int| 0 <= i < prefix.len() ==> #[trigger] word[i] == prefix[i]
    &&& allow_sep || forall|i: int| 0 <= i < word.len() ==> #[trigger] word[i] != SEP
}

/// The state of the matcher after a word, said directly: how many bytes
/// of the prefix have been read, as long as every byte agreed.
pub open spec fn prefix_state(prefix: Seq<u8>, allow_sep: bool, word: Seq<u8>) -> Option<usize> {
    let n = if word.len() <= prefix.len() {
        word.len()
    } else {
        prefix.len()
    };
    if (forall|i: int| 0 <= i < n ==> #[trigger] word[i] == prefix[i]) && (allow_sep || forall|i: int|
        0 <= i < word.len() ==> #[trigger] word[i] != SEP) {
        Some(n as usize)
    } else {
        None
    }
}

impl<'a> LineMatcher for PrefixMatcher<'a> {
    type State = Option<usize>;

    open spec fn wf(&self) -> bool {
        self.prefix@.len() <= usize::MAX
    }

    open spec fn state_ok(&self, state: Self::State) -> bool {
        state matches Some(i) ==> i <= self.prefix@.len()
    }

    open spec fn start_spec(&self) -> Self::State {
        Some(0)
    }

    open spec fn accept_spec(&self, state: Self::State, byte: u8) -> Self::State {
        match state {
            None => None,
            Some(i) => if !self.allow_sep && byte == SEP {
                None
            } else if i < self.prefix@.len() {
                if self.prefix@[i as int] == byte {
                    Some((i + 1) as usize)
                } else {
                    None
                }
            } else {
                Some(i)
            },
        }
    }

    open spec fn is_match_spec(&self, state: Self::State) -> bool {
        state matches Some(i) && i == self.prefix@.len()
    }

    open spec fn can_match_spec(&self, state: Self::State) -> bool {
        state is Some
    }

    fn start(&self) -> (r: Self::State) {
        Some(0)
    }

    fn is_match(&self, state: &Self::State) -> (r: bool) {
        match state {
            Some(i) => *i == self.prefix.len(),
            None => false,
        }
    }

    fn accept(&self, state: &Self::State, byte: u8) -> (r: Self::State) {
        match state {
            None => None,
            Some(i) => {
                let i = *i;
                if !self.allow_sep && byte == SEP {
                    None
                } else if i < self.prefix.len() {
                    if self.prefix[i] == byte {
                        Some(i + 1)
                    } else {
                        None
                    }
                } else {
                    Some(i)
                }
            },
        }
    }

    fn can_match(&self, state: &Self::State) -> (r: bool) {
        state.is_some()
    }

    proof fn lemma_start_ok(&self) {
    }

    proof fn lemma_accept_ok(&self, state: Self::State, byte: u8) {
    }

    proof fn lemma_dead_state(&self, state: Self::State, byte: u8) {
    }
}

/// The matcher is, after every word, in the state that `prefix_state`
/// names; so it accepts exactly the words that start with the prefix.
pub proof fn lemma_prefix_matcher(m: &PrefixMatcher<'_>, word: Seq<u8>)
    requires
        m.wf(),
    ensures
        run(m, word) == prefix_state(m.prefix@, m.allow_sep, word),
        m.is_match_spec(run(m, word)) <==> starts_with(m.prefix@, m.allow_sep, word),
    decreases word.len(),
{
    let prefix = m.prefix@;
    if word.len() > 0 {
        let shorter = word.drop_last();
        let n = shorter.len() as int;
        lemma_prefix_matcher(m, shorter);
        assert(forall|i: int| 0 <= i < n ==> shorter[i] == word[i]);
        let clean_before = forall|i: int| 0 <= i < shorter.len() ==> #[trigger] shorter[i] != SEP;
        let clean = forall|i: int| 0 <= i < word.len() ==> #[trigger] word[i] != SEP;
        assert(clean <==> clean_before && word.last() != SEP) by {
            if clean {
                assert(word[n] != SEP);
                assert forall|i: int| 0 <= i < shorter.len() implies #[trigger] shorter[i] != SEP by {
                    assert(word[i] != SEP);
                }
            }
            if clean_before && word.last() != SEP {
                assert forall|i: int| 0 <= i < word.len() implies #[trigger] word[i] != SEP by {
                    if i < n {
                        assert(shorter[i] != SEP);
                    }
                }
            }
        }
        let k0 = if n <= prefix.len() {
            n
        } else {
            prefix.len() as int
        };
        let k1 = if n + 1 <= prefix.len() {
            n + 1
        } else {
            prefix.len() as int
        };
        let agree0 = forall|i: int| 0 <= i < k0 ==> #[trigger] shorter[i] == prefix[i];
        let agree1 = forall|i: int| 0 <= i < k1 ==> #[trigger] word[i] == prefix[i];
        assert(agree1 <==> agree0 && (n < prefix.len() ==> word[n] == prefix[n])) by {
            if agree1 {
                assert forall|i: int| 0 <= i < k0 implies #[trigger] shorter[i] == prefix[i] by {
                    assert(word[i] == prefix[i]);
                }
                if n < prefix.len() {
                    assert(word[n] == prefix[n]);
                }
            }
            if agree0 && (n < prefix.len() ==> word[n] == prefix[n]) {
                assert forall|i: int| 0 <= i < k1 implies #[trigger] word[i] == prefix[i] by {
                    if i < k0 {
                        assert(shorter[i] == prefix[i]);
                    }
                }
            }
        }
    }
}

/// The words handed out are the picked entries turned back into words,
/// one by one, and no entry is picked twice.
pub open spec fn turned_back(picked: Seq<Seq<u8>>, out: Seq<Seq<u8>>) -> bool {
    &&& picked.len() == out.len()
    &&& forall|i: int| 0 <= i < picked.len() ==> #[trigger] out[i] == demangled(picked[i])
    &&& forall|i: int, j: int| 0 <= i < j < picked.len() ==> #[trigger] picked[i] != #[trigger] picked[j]
}

/// The picked entries are exactly the entries that the matcher accepts.
pub open spec fn picked_by<M: LineMatcher>(entries: Set<Seq<u8>>, m: &M, picked: Seq<Seq<u8>>) -> bool {
    &&& forall|i: int|
        0 <= i < picked.len() ==> entries.contains(#[trigger] picked[i]) && m.is_match_spec(
            run(m, picked[i]),
        )
    &&& forall|e: Seq<u8>|
        entries.contains(e) && m.is_match_spec(#[trigger] run(m, e)) ==> picked.contains(e)
}

/// The picked entries are exactly the entries that start with the prefix
/// and, unless the separator is allowed, do not hold it.
pub open spec fn picked_by_start(
    entries: Set<Seq<u8>>,
    prefix: Seq<u8>,
    allow_sep: bool,
    picked: Seq<Seq<u8>>,
) -> bool {
    &&& forall|i: int|
        0 <= i < picked.len() ==> entries.contains(#[trigger] picked[i]) && starts_with(
            prefix,
            allow_sep,
            picked[i],
        )
    &&& forall|e: Seq<u8>|
        entries.contains(e) && #[trigger] starts_with(prefix, allow_sep, e) ==> picked.contains(e)
}

/// What the prefix matcher picks is what starts with its prefix.
proof fn lemma_picked_by_start(entries: Set<Seq<u8>>, m: &PrefixMatcher<'_>, picked: Seq<Seq<u8>>)
    requires
        m.wf(),
        picked_by(entries, m, picked),
    ensures
        picked_by_start(entries, m.prefix@, m.allow_sep, picked),
{
    assert forall|i: int| 0 <= i < picked.len() implies entries.contains(#[trigger] picked[i])
        && starts_with(m.prefix@, m.allow_sep, picked[i]) by {
        lemma_prefix_matcher(m, picked[i]);
    }
    assert forall|e: Seq<u8>|
        entries.contains(e) && #[trigger] starts_with(
            m.prefix@,
            m.allow_sep,
            e,
        ) implies picked.contains(e) by {
        lemma_prefix_matcher(m, e);
    }
}

/// A vocabulary that can be searched from either end of a word.
pub struct Gaddag {
    dict: fst::Set<Vec<u8>>,
}

impl Gaddag {
    /// The entries that the vocabulary holds.
    pub closed spec fn entries(&self) -> Set<Seq<u8>> {
        lexicon_words(self.dict)
    }

    /// Builds the vocabulary of the given words, none of them empty.
    pub fn build(words: &Vec<Vec<u8>>) -> (gaddag: Self)
        requires
            forall|i: int| 0 <= i < words@.len() ==> (#[trigger] words@[i])@.len() >= 1,
        ensures
            gaddag.entries() == entries_of(words_of(words@)),
    {
        let entries = build_entries_sorted(words);
        match lexicon_from_sorted(&entries) {
            Ok(dict) => Self { dict },
            Err(_) => vstd::pervasive::unreached(),
        }
    }

    /// Searches the entries with the provided matcher and turns each
    /// entry found back into its word.
    pub fn search_fst<M: LineMatcher>(&self, matcher: M) -> (out: Vec<Vec<u8>>) where
        M::State: Clone,

        requires
            matcher.wf(),
        ensures
            exists|picked: Seq<Seq<u8>>| #[trigger]
                turned_back(picked, words_of(out@)) && picked_by(self.entries(), &matcher, picked),
    {
        let ghost m = matcher;
        let hits = search_lexicon(&self.dict, matcher);
        let mut out: Vec<Vec<u8>> = Vec::new();
        let mut i: usize = 0;
        while i < hits.len()
            invariant
                i <= hits@.len(),
                out@.len() == i,
                forall|k: int| 0 <= k < i ==> (#[trigger] out@[k])@ == demangled(hits@[k].word@),
            decreases hits@.len() - i,
        {
            out.push(demangle_item(&hits[i].word));
            i += 1;
        }
        proof {
            let picked = Seq::new(hits@.len(), |k: int| hits@[k].word@);
            assert forall|k: int| 0 <= k < picked.len() implies self.entries().contains(
                #[trigger] picked[k],
            ) && m.is_match_spec(run(&m, picked[k])) by {
                assert(lexicon_words(self.dict).contains(hits@[k].word@));
            }
            assert forall|e: Seq<u8>|
                self.entries().contains(e) && m.is_match_spec(
                    #[trigger] run(&m, e),
                ) implies picked.contains(e) by {
                let k = choose|k: int| 0 <= k < hits@.len() && hits@[k].word@ == e;
                assert(picked[k] == e);
            }
            assert forall|a: int, b: int| 0 <= a < b < picked.len() implies #[trigger] picked[a]
                != #[trigger] picked[b] by {
                assert(hits@[a].word@ != hits@[b].word@);
            }
            assert(turned_back(picked, words_of(out@)));
            assert(picked_by(self.entries(), &m, picked));
        }
        out
    }

    /// Finds the words that start with the provided prefix and go on
    /// after it: the entries that start with the prefix reversed and the
    /// separator, turned back into words.
    pub fn find_prefixes(&self, input: &Vec<u8>) -> (out: Vec<Vec<u8>>)
        ensures
            exists|picked: Seq<Seq<u8>>| #[trigger]
                turned_back(picked, words_of(out@)) && picked_by_start(
                    self.entries(),
                    input@.reverse().push(SEP),
                    true,
                    picked,
                ),
    {
        let mut search_val = reverse_word(input);
        search_val.push(SEP);
        // asking for the length tells that it fits in `usize`
        let _fits = search_val.len();
        let matcher = PrefixMatcher { prefix: search_val.as_slice(), allow_sep: true };
        let ghost m = matcher;
        let out = self.search_fst(matcher);
        proof {
            let picked = choose|picked: Seq<Seq<u8>>| #[trigger]
                turned_back(picked, words_of(out@)) && picked_by(self.entries(), &m, picked);
            lemma_picked_by_start(self.entries(), &m, picked);
        }
        out
    }

    /// Finds the words that end with the provided suffix: the entries
    /// without a separator that start with the suffix reversed, turned
    /// back into words.
    pub fn find_suffixes(&self, text: &Vec<u8>) -> (out: Vec<Vec<u8>>)
        ensures
            exists|picked: Seq<Seq<u8>>| #[trigger]
                turned_back(picked, words_of(out@)) && picked_by_start(
                    self.entries(),
                    text@.reverse(),
                    false,
                    picked,
                ),
    {
        let search_val = reverse_word(text);
        // asking for the length tells that it fits in `usize`
        let _fits = search_val.len();
        let matcher = PrefixMatcher { prefix: search_val.as_slice(), allow_sep: false };
        let ghost m = matcher;
        let out = self.search_fst(matcher);
        proof {
            let picked = choose|picked: Seq<Seq<u8>>| #[trigger]
                turned_back(picked, words_of(out@)) && picked_by(self.entries(), &m, picked);
            lemma_picked_by_start(self.entries(), &m, picked);
        }
        out
    }
}

/// The word does not hold the separator.
pub open spec fn is_plain(word: Seq<u8>) -> bool {
    forall|i: int| 0 <= i < word.len() ==> #[trigger] word[i] != SEP
}

/// The word starts with `text`.
pub open spec fn begins_with(word: Seq<u8>, text: Seq<u8>) -> bool {
    text.len() <= word.len() && word.subrange(0, text.len() as int) == text
}

/// The word ends with `text`.
pub open spec fn ends_with(word: Seq<u8>, text: Seq<u8>) -> bool {
    text.len() <= word.len() && word.subrange(word.len() - text.len(), word.len() as int) == text
}

/// Every entry of a word without separator leads back to the word.
pub proof fn lemma_entry_leads_back(word: Seq<u8>, entry: Seq<u8>)
    requires
        is_plain(word),
        is_entry_of(word, entry),
    ensures
        demangled(entry) == word,
{
    entry.index_of_first_ensures(SEP);
    if entry == word.reverse() {
        if entry.contains(SEP) {
            let a = choose|a: int| 0 <= a < entry.len() && entry[a] == SEP;
            assert(word[word.len() - 1 - a] != SEP);
        }
        assert(entry.reverse() =~= word);
    } else {
        let k = choose|k: int| 1 <= k < word.len() && entry == #[trigger] split_entry(word, k);
        lemma_split_entry(word, k);
        let idx = entry.index_of_first(SEP)->0;
        assert(entry.contains(SEP)) by {
            assert(entry[k] == SEP);
        }
        if idx < k {
            assert(entry[idx] == word[k - 1 - idx]);
        }
        assert(idx == k);
        let head = entry.subrange(0, k).reverse();
        let tail = entry.subrange(k + 1, entry.len() as int);
        assert forall|i: int| 0 <= i < word.len() implies (head + tail)[i] == word[i] by {
            if i < k {
                assert(head[i] == entry[k - 1 - i]);
            } else {
                assert(tail[i - k] == entry[i + 1]);
            }
        }
        assert(head + tail =~= word);
    }
}

/// The bytes of an entry made by splitting a word.
proof fn lemma_split_entry(word: Seq<u8>, k: int)
    requires
        0 <= k <= word.len(),
    ensures
        split_entry(word, k).len() == word.len() + 1,
        split_entry(word, k)[k] == SEP,
        forall|i: int| 0 <= i < k ==> #[trigger] split_entry(word, k)[i] == word[k - 1 - i],
        forall|i: int| k < i <= word.len() ==> #[trigger] split_entry(word, k)[i] == word[i - 1],
{
    let head = word.subrange(0, k).reverse();
    let tail = word.subrange(k, word.len() as int);
    let e = split_entry(word, k);
    assert(e == head + seq![SEP] + tail);
    assert forall|i: int| 0 <= i < k implies #[trigger] e[i] == word[k - 1 - i] by {
        assert(e[i] == head[i]);
    }
    assert forall|i: int| k < i <= word.len() implies #[trigger] e[i] == word[i - 1] by {
        assert(e[i] == tail[i - k - 1]);
    }
}

/// Searching by the end of a word: among the entries of a word without
/// separator, those that start with `text` reversed and hold no
/// separator are the reversed word itself, if the word ends with `text`.
pub proof fn lemma_suffix_entries(word: Seq<u8>, text: Seq<u8>, entry: Seq<u8>)
    requires
        is_plain(word),
        is_entry_of(word, entry),
    ensures
        starts_with(text.reverse(), false, entry) <==> entry == word.reverse() && ends_with(
            word,
            text,
        ),
{
    let key = text.reverse();
    let n = word.len() as int;
    let t = text.len() as int;
    if entry == word.reverse() {
        if starts_with(key, false, entry) {
            let tail = word.subrange(n - t, n);
            assert forall|i: int| 0 <= i < t implies tail[i] == text[i] by {
                assert(entry[t - 1 - i] == key[t - 1 - i]);
            }
            assert(tail =~= text);
        }
        if ends_with(word, text) {
            let tail = word.subrange(n - t, n);
            assert forall|i: int| 0 <= i < key.len() implies #[trigger] entry[i] == key[i] by {
                assert(tail[t - 1 - i] == text[t - 1 - i]);
            }
            assert forall|i: int| 0 <= i < entry.len() implies #[trigger] entry[i] != SEP by {
                assert(word[n - 1 - i] != SEP);
            }
        }
    } else {
        let k = choose|k: int| 1 <= k < word.len() && entry == #[trigger] split_entry(word, k);
        lemma_split_entry(word, k);
        assert(entry[k] == SEP);
        if entry == word.reverse() {
            assert(word[n - 1 - k] != SEP);
        }
    }
}

/// Searching by the beginning of a word: among the entries of a word
/// without separator, those that start with `text` reversed and the
/// separator are the word split right after `text`, if the word starts
/// with `text` and goes on after it.
pub proof fn lemma_prefix_entries(word: Seq<u8>, text: Seq<u8>, entry: Seq<u8>)
    requires
        is_plain(word),
        is_entry_of(word, entry),
    ensures
        starts_with(text.reverse().push(SEP), true, entry) <==> 1 <= text.len() < word.len()
            && begins_with(word, text) && entry == split_entry(word, text.len() as int),
{
    let key = text.reverse().push(SEP);
    let n = word.len() as int;
    let t = text.len() as int;
    if starts_with(key, true, entry) {
        assert(entry[t] == key[t]);
        assert(entry[t] == SEP);
        if entry == word.reverse() {
            assert(word[n - 1 - t] != SEP);
        }
        let k = choose|k: int| 1 <= k < word.len() && entry == #[trigger] split_entry(word, k);
        lemma_split_entry(word, k);
        if t < k {
            assert(entry[t] == word[k - 1 - t]);
        }
        if t > k {
            assert(entry[t] == word[t - 1]);
        }
        assert(t == k);
        let head = word.subrange(0, t);
        assert forall|i: int| 0 <= i < t implies head[i] == text[i] by {
            assert(entry[t - 1 - i] == key[t - 1 - i]);
            assert(entry[t - 1 - i] == word[k - 1 - (t - 1 - i)]);
        }
        assert(head =~= text);
    }
    if 1 <= t < n && begins_with(word, text) && entry == split_entry(word, t) {
        lemma_split_entry(word, t);
        let head = word.subrange(0, t);
        assert forall|i: int| 0 <= i < key.len() implies #[trigger] entry[i] == key[i] by {
            if i < t {
                assert(head[t - 1 - i] == text[t - 1 - i]);
            }
        }
    }
}

} // verus!
