//! The candidate engine: which words of a pool meet a set of inferences, and
//! how much each of them has in common with the others.

use crate::alphabet::{
    all_words, bucket, has_letter, is_letter, is_word, lemma_has_letter_push, lemma_letter,
    lemma_letter_index, letter, letter_at, letter_index, lower, word_bytes, ALPHABET,
};
use crate::inference::{satisfies_all, Inference};
use crate::overlap::Overlap;
use crate::sums::{lemma_sum_over_take, sum_over};
use vstd::prelude::*;

verus! {

/// `array_init::array_init` builds an array by calling the initializer once
/// for each index, from the first to the last, and storing what it returns at
/// that index. Assumed here: the initializer is called on the indices below
/// `N` only, and each element of the result is what a call of the initializer
/// on its index returned.
pub assume_specification<F, T, const N: usize>[ array_init::array_init::<F, T, N> ](
    initializer: F,
) -> (array: [T; N]) where F: FnMut(usize) -> T
    requires
        forall|i: usize| i < N ==> call_requires(initializer, (i,)),
    ensures
        forall|i: int|
            0 <= i < N ==> call_ensures(initializer, (i as usize,), #[trigger] array[i]),
;

/// The words as sequences of characters.
pub open spec fn views(words: Seq<&'static str>) -> Seq<Seq<char>> {
    words.map_values(|w: &'static str| w@)
}

/// The words of exactly `n` characters, as a predicate.
pub open spec fn has_length(n: nat) -> spec_fn(Seq<char>) -> bool {
    |w: Seq<char>| w.len() == n
}

/// The words that meet every one of the inferences, as a predicate.
pub open spec fn meets(inferences: Seq<Inference>) -> spec_fn(Seq<char>) -> bool {
    |w: Seq<char>| satisfies_all(inferences, w)
}

/// The words of the pool that meet every one of the inferences, in the order
/// of the pool.
pub open spec fn valid_words(pool: Seq<Seq<char>>, inferences: Seq<Inference>) -> Seq<Seq<char>> {
    pool.filter(meets(inferences))
}

/// One for a word that holds the letter `c` at position `p`, zero for any
/// other.
pub open spec fn holds_at(p: int, c: char) -> spec_fn(Seq<char>) -> nat {
    |v: Seq<char>|
        if letter_at(v, p) == c {
            1nat
        } else {
            0nat
        }
}

/// One for a word in which the letter `c` occurs, zero for any other.
pub open spec fn holds(c: char) -> spec_fn(Seq<char>) -> nat {
    |v: Seq<char>|
        if has_letter(v, c) {
            1nat
        } else {
            0nat
        }
}

/// Number of words of `valid` that hold the letter `c` at position `p`.
pub open spec fn positional(valid: Seq<Seq<char>>, p: int, c: char) -> nat {
    sum_over(valid, holds_at(p, c))
}

/// Number of words of `valid` in which the letter `c` occurs. A word counts
/// once, however often it repeats the letter.
pub open spec fn by_letter(valid: Seq<Seq<char>>, c: char) -> nat {
    sum_over(valid, holds(c))
}

/// The sum, over the first `n` positions of `w`, of the number of words of
/// `valid` that hold the letter of `w` at that position.
pub open spec fn total_upto(valid: Seq<Seq<char>>, w: Seq<char>, n: nat) -> nat
    decreases n,
{
    if n == 0 {
        0
    } else {
        total_upto(valid, w, (n - 1) as nat) + positional(valid, n - 1, letter_at(w, n - 1))
    }
}

/// The sum, over the positions of `w`, of the number of words of `valid` that
/// hold the letter of `w` at that position.
pub open spec fn total_score(valid: Seq<Seq<char>>, w: Seq<char>) -> nat {
    total_upto(valid, w, w.len())
}

/// The sum, over those of the first `k` letters of the alphabet that occur in
/// `w`, of the number of words of `valid` in which the letter occurs.
pub open spec fn partial_upto(valid: Seq<Seq<char>>, w: Seq<char>, k: nat) -> nat
    decreases k,
{
    if k == 0 {
        0
    } else {
        partial_upto(valid, w, (k - 1) as nat) + if has_letter(w, letter(k - 1)) {
            by_letter(valid, letter(k - 1))
        } else {
            0nat
        }
    }
}

/// The sum, over the distinct letters of `w`, of the number of words of
/// `valid` in which the letter occurs.
pub open spec fn partial_score(valid: Seq<Seq<char>>, w: Seq<char>) -> nat {
    partial_upto(valid, w, ALPHABET as nat)
}

/// A pool of words of `LEN` letters each.
pub struct Engine<const LEN: usize> {
    words: Vec<&'static str>,
}

impl<const LEN: usize> Engine<LEN> {
    #[verifier::type_invariant]
    spec fn inv(self) -> bool {
        &&& forall|i: int|
            0 <= i < self.words@.len() ==> is_word((#[trigger] self.words@[i])@)
                && self.words@[i]@.len() == LEN
        &&& self.words@.len() * LEN <= usize::MAX
    }

    /// The words of the pool, in their order.
    pub closed spec fn pool(&self) -> Seq<Seq<char>> {
        views(self.words@)
    }

    /// The pool made of those of the given words that have `LEN` letters, in
    /// the order given. The counters of an overlap have to hold `LEN` times
    /// the number of words.
    pub fn new(words: Vec<&'static str>) -> (engine: Self)
        requires
            forall|i: int| 0 <= i < words@.len() ==> is_word((#[trigger] words@[i])@),
            words@.len() * LEN <= usize::MAX,
        ensures
            engine.pool() == views(words@).filter(has_length(LEN as nat)),
    {
        let mut kept: Vec<&'static str> = Vec::new();
        let mut i: usize = 0;
        while i < words.len()
            invariant
                i <= words@.len(),
                forall|j: int| 0 <= j < words@.len() ==> is_word((#[trigger] words@[j])@),
                kept@.len() <= i,
                forall|j: int|
                    0 <= j < kept@.len() ==> is_word((#[trigger] kept@[j])@) && kept@[j]@.len()
                        == LEN,
                views(kept@) == views(words@.take(i as int)).filter(has_length(LEN as nat)),
            decreases words@.len() - i,
        {
            let w: &'static str = words[i];
            proof {
                assert(is_word(words@[i as int]@));
                lemma_views_take(words@, i as int);
                views(words@.take(i as int)).lemma_filter_push(w@, has_length(LEN as nat));
                lemma_views_push(kept@, w);
            }
            if word_bytes(w).len() == LEN {
                kept.push(w);
            }
            i += 1;
        }
        proof {
            assert(words@.take(i as int) =~= words@);
            assert(kept@.len() * LEN <= words@.len() * LEN) by (nonlinear_arith)
                requires
                    kept@.len() <= words@.len(),
            ;
        }
        Engine { words: kept }
    }

    /// The pool as `new` makes it, where the words are words and the counters
    /// of an overlap hold `LEN` times their number; nothing otherwise.
    pub fn try_new(words: Vec<&'static str>) -> (made: Option<Self>)
        ensures
            made is Some <==> (forall|i: int|
                0 <= i < words@.len() ==> is_word((#[trigger] words@[i])@)) && words@.len() * LEN
                <= usize::MAX,
            made matches Some(engine) ==> engine.pool() == views(words@).filter(
                has_length(LEN as nat),
            ),
    {
        if all_words(&words) && words.len().checked_mul(LEN).is_some() {
            Some(Engine::new(words))
        } else {
            None
        }
    }

    /// The words of the pool that meet every one of the inferences, in the
    /// order of the pool, each with its overlap with all of them, itself
    /// included.
    pub fn evaluate(&self, inf: &[Inference]) -> (scored: Vec<(&'static str, Overlap)>)
        requires
            forall|i: int| 0 <= i < inf@.len() ==> (#[trigger] inf@[i]).position < LEN,
        ensures
            scored@.len() == valid_words(self.pool(), inf@).len(),
            forall|i: int|
                #![trigger scored@[i]]
                0 <= i < scored@.len() ==> {
                    let valid = valid_words(self.pool(), inf@);
                    &&& scored@[i].0@ == valid[i]
                    &&& scored@[i].1.total == total_score(valid, valid[i])
                    &&& scored@[i].1.partial == partial_score(valid, valid[i])
                    &&& is_word(valid[i])
                    &&& valid[i].len() == LEN
                },
    {
        proof {
            use_type_invariant(self);
        }
        let valid = self.select(inf);
        proof {
            assert(valid@.len() * LEN <= self.words@.len() * LEN) by (nonlinear_arith)
                requires
                    valid@.len() <= self.words@.len(),
            ;
        }
        let (counts, grid) = histogram::<LEN>(&valid);
        score::<LEN>(&valid, &counts, &grid)
    }

    /// The words of the pool that meet every one of the inferences.
    fn select(&self, inf: &[Inference]) -> (valid: Vec<&'static str>)
        requires
            forall|i: int| 0 <= i < inf@.len() ==> (#[trigger] inf@[i]).position < LEN,
        ensures
            views(valid@) == valid_words(self.pool(), inf@),
            valid@.len() <= self.words@.len(),
            forall|j: int|
                0 <= j < valid@.len() ==> is_word((#[trigger] valid@[j])@) && valid@[j]@.len()
                    == LEN,
    {
        proof {
            use_type_invariant(self);
        }
        let mut valid: Vec<&'static str> = Vec::new();
        let mut i: usize = 0;
        while i < self.words.len()
            invariant
                i <= self.words@.len(),
                forall|j: int|
                    0 <= j < self.words@.len() ==> is_word((#[trigger] self.words@[j])@)
                        && self.words@[j]@.len() == LEN,
                forall|j: int| 0 <= j < inf@.len() ==> (#[trigger] inf@[j]).position < LEN,
                valid@.len() <= i,
                forall|j: int|
                    0 <= j < valid@.len() ==> is_word((#[trigger] valid@[j])@) && valid@[j]@.len()
                        == LEN,
                views(valid@) == views(self.words@.take(i as int)).filter(meets(inf@)),
            decreases self.words@.len() - i,
        {
            let w: &'static str = self.words[i];
            proof {
                assert(is_word(self.words@[i as int]@));
                lemma_views_take(self.words@, i as int);
                views(self.words@.take(i as int)).lemma_filter_push(w@, meets(inf@));
                lemma_views_push(valid@, w);
            }
            if all_hold(inf, w) {
                valid.push(w);
            }
            i += 1;
        }
        assert(self.words@.take(i as int) =~= self.words@);
        valid
    }
}

/// Tells whether the word `w` meets every one of the inferences.
pub fn all_hold(inf: &[Inference], w: &str) -> (ok: bool)
    requires
        is_word(w@),
        forall|i: int| 0 <= i < inf@.len() ==> (#[trigger] inf@[i]).position < w@.len(),
    ensures
        ok == satisfies_all(inf@, w@),
{
    let mut i: usize = 0;
    while i < inf.len()
        invariant
            i <= inf@.len(),
            is_word(w@),
            forall|j: int| 0 <= j < inf@.len() ==> (#[trigger] inf@[j]).position < w@.len(),
            forall|j: int| 0 <= j < i ==> (#[trigger] inf@[j]).satisfied_by(w@),
        decreases inf@.len() - i,
    {
        if !inf[i].filter(w) {
            return false;
        }
        i += 1;
    }
    true
}

/// The count of an empty table, whatever the letter.
fn no_words(_k: usize) -> (n: usize)
    ensures
        n == 0,
{
    0
}

/// The counts of an empty table for one position, whatever the position.
fn no_words_row(_p: usize) -> (row: [usize; ALPHABET])
    ensures
        forall|k: int| 0 <= k < ALPHABET ==> #[trigger] row[k] == 0,
{
    array_init::array_init(no_words)
}

/// The two tables from which the overlaps are read: for each letter, in how
/// many of the words it occurs, and for each position and letter, how many of
/// the words hold the letter there.
fn histogram<const LEN: usize>(valid: &Vec<&'static str>) -> (tables: (
    [usize; ALPHABET],
    [[usize; ALPHABET]; LEN],
))
    requires
        forall|j: int|
            0 <= j < valid@.len() ==> is_word((#[trigger] valid@[j])@) && valid@[j]@.len() == LEN,
    ensures
        forall|k: int|
            0 <= k < ALPHABET ==> #[trigger] tables.0[k] == by_letter(views(valid@), letter(k)),
        forall|p: int, k: int|
            0 <= p < LEN && 0 <= k < ALPHABET ==> #[trigger] tables.1[p][k] == positional(
                views(valid@),
                p,
                letter(k),
            ),
        forall|k: int| 0 <= k < ALPHABET ==> #[trigger] tables.0[k] <= valid@.len(),
        forall|p: int, k: int|
            0 <= p < LEN && 0 <= k < ALPHABET ==> #[trigger] tables.1[p][k] <= valid@.len(),
{
    let mut counts: [usize; ALPHABET] = array_init::array_init(no_words);
    let mut grid: [[usize; ALPHABET]; LEN] = array_init::array_init(no_words_row);
    let ghost pool = views(valid@);
    let mut i: usize = 0;
    while i < valid.len()
        invariant
            i <= valid@.len(),
            pool == views(valid@),
            forall|j: int|
                0 <= j < valid@.len() ==> is_word((#[trigger] valid@[j])@) && valid@[j]@.len()
                    == LEN,
            forall|k: int|
                0 <= k < ALPHABET ==> #[trigger] counts[k] == by_letter(
                    pool.take(i as int),
                    letter(k),
                ),
            forall|p: int, k: int|
                0 <= p < LEN && 0 <= k < ALPHABET ==> #[trigger] grid[p][k] == positional(
                    pool.take(i as int),
                    p,
                    letter(k),
                ),
            forall|k: int| 0 <= k < ALPHABET ==> #[trigger] counts[k] <= i,
            forall|p: int, k: int|
                0 <= p < LEN && 0 <= k < ALPHABET ==> #[trigger] grid[p][k] <= i,
        decreases valid@.len() - i,
    {
        let w: &'static str = valid[i];
        assert(is_word(valid@[i as int]@));
        let b = word_bytes(w);
        let mut seen: [bool; ALPHABET] = [false; ALPHABET];
        let ghost before = pool.take(i as int);
        proof {
            assert forall|k: int| 0 <= k < ALPHABET implies by_letter(before, letter(k)) <= i by {
                assert(counts[k] <= i);
            }
            assert forall|q: int, k: int| 0 <= q < LEN && 0 <= k < ALPHABET implies positional(
                before,
                q,
                letter(k),
            ) <= i by {
                assert(grid[q][k] <= i);
            }
        }
        let mut p: usize = 0;
        while p < LEN
            invariant
                p <= LEN,
                i < valid@.len() <= usize::MAX,
                is_word(w@),
                w@.len() == LEN,
                b@.len() == LEN,
                forall|j: int| 0 <= j < w@.len() ==> #[trigger] b@[j] == w@[j] as u8,
                forall|k: int|
                    0 <= k < ALPHABET ==> #[trigger] seen[k] == has_letter(
                        w@.take(p as int),
                        letter(k),
                    ),
                forall|k: int|
                    0 <= k < ALPHABET ==> #[trigger] counts[k] == by_letter(before, letter(k))
                        + if seen[k] {
                        1nat
                    } else {
                        0nat
                    },
                forall|q: int, k: int|
                    0 <= q < LEN && 0 <= k < ALPHABET ==> #[trigger] grid[q][k]
                        == positional(before, q, letter(k)) + if q < p && letter_at(w@, q)
                        == letter(k) {
                        1nat
                    } else {
                        0nat
                    },
                forall|k: int| 0 <= k < ALPHABET ==> by_letter(before, letter(k)) <= i,
                forall|q: int, k: int|
                    0 <= q < LEN && 0 <= k < ALPHABET ==> positional(before, q, letter(k)) <= i,
            decreases LEN - p,
        {
            assert(is_letter(w@[p as int]));
            let c: usize = bucket(b[p]);
            proof {
                let prefix = w@.take(p as int);
                assert(w@.take(p + 1) =~= prefix.push(w@[p as int]));
                lemma_letter_index(w@[p as int]);
                assert forall|k: int| 0 <= k < ALPHABET implies (has_letter(
                    w@.take(p + 1),
                    #[trigger] letter(k),
                ) <==> has_letter(prefix, letter(k)) || k == c) by {
                    lemma_has_letter_push(prefix, w@[p as int], letter(k));
                    lemma_letter(k);
                }
                assert forall|k: int| 0 <= k < ALPHABET implies (letter_at(w@, p as int)
                    == #[trigger] letter(k) <==> k == c) by {
                    lemma_letter(k);
                }
            }
            assert(by_letter(before, letter(c as int)) <= i);
            assert(positional(before, p as int, letter(c as int)) <= i);
            if !seen[c] {
                counts[c] = counts[c] + 1;
                seen[c] = true;
            }
            grid[p][c] = grid[p][c] + 1;
            p += 1;
        }
        proof {
            assert(w@.take(p as int) =~= w@);
            assert(pool[i as int] == w@);
            assert forall|k: int| 0 <= k < ALPHABET implies #[trigger] counts[k] == by_letter(
                pool.take(i + 1),
                letter(k),
            ) by {
                lemma_sum_over_take(pool, i as int, holds(letter(k)));
            }
            assert forall|q: int, k: int| 0 <= q < LEN && 0 <= k < ALPHABET implies #[trigger] grid[q][k]
                == positional(pool.take(i + 1), q, letter(k)) by {
                lemma_sum_over_take(pool, i as int, holds_at(q, letter(k)));
            }
        }
        i += 1;
    }
    assert(pool.take(i as int) =~= pool);
    (counts, grid)
}

/// Each of the words with its overlap, read from the two tables.
fn score<const LEN: usize>(
    valid: &Vec<&'static str>,
    counts: &[usize; ALPHABET],
    grid: &[[usize; ALPHABET]; LEN],
) -> (scored: Vec<(&'static str, Overlap)>)
    requires
        valid@.len() * LEN <= usize::MAX,
        forall|j: int|
            0 <= j < valid@.len() ==> is_word((#[trigger] valid@[j])@) && valid@[j]@.len() == LEN,
        forall|k: int|
            0 <= k < ALPHABET ==> #[trigger] counts[k] == by_letter(views(valid@), letter(k)),
        forall|p: int, k: int|
            0 <= p < LEN && 0 <= k < ALPHABET ==> #[trigger] grid[p][k] == positional(
                views(valid@),
                p,
                letter(k),
            ),
        forall|k: int| 0 <= k < ALPHABET ==> #[trigger] counts[k] <= valid@.len(),
        forall|p: int, k: int|
            0 <= p < LEN && 0 <= k < ALPHABET ==> #[trigger] grid[p][k] <= valid@.len(),
    ensures
        scored@.len() == valid@.len(),
        forall|i: int|
            #![trigger scored@[i]]
            0 <= i < scored@.len() ==> {
                &&& scored@[i].0 == valid@[i]
                &&& scored@[i].1.total == total_score(views(valid@), valid@[i]@)
                &&& scored@[i].1.partial == partial_score(views(valid@), valid@[i]@)
            },
{
    let ghost pool = views(valid@);
    let mut scored: Vec<(&'static str, Overlap)> = Vec::new();
    let mut i: usize = 0;
    while i < valid.len()
        invariant
            i <= valid@.len(),
            pool == views(valid@),
            valid@.len() * LEN <= usize::MAX,
            forall|j: int|
                0 <= j < valid@.len() ==> is_word((#[trigger] valid@[j])@) && valid@[j]@.len()
                    == LEN,
            forall|k: int|
                0 <= k < ALPHABET ==> #[trigger] counts[k] == by_letter(pool, letter(k)),
            forall|p: int, k: int|
                0 <= p < LEN && 0 <= k < ALPHABET ==> #[trigger] grid[p][k] == positional(
                    pool,
                    p,
                    letter(k),
                ),
            forall|k: int| 0 <= k < ALPHABET ==> #[trigger] counts[k] <= valid@.len(),
            forall|p: int, k: int|
                0 <= p < LEN && 0 <= k < ALPHABET ==> #[trigger] grid[p][k] <= valid@.len(),
            scored@.len() == i,
            forall|j: int|
                #![trigger scored@[j]]
                0 <= j < i ==> {
                    &&& scored@[j].0 == valid@[j]
                    &&& scored@[j].1.total == total_score(pool, valid@[j]@)
                    &&& scored@[j].1.partial == partial_score(pool, valid@[j]@)
                },
        decreases valid@.len() - i,
    {
        let w: &'static str = valid[i];
        assert(is_word(valid@[i as int]@));
        let b = word_bytes(w);
        let mut overlap = Overlap::new(0, 0);
        let mut seen: [bool; ALPHABET] = [false; ALPHABET];
        let mut p: usize = 0;
        proof {
            lemma_partial_none(pool, ALPHABET as nat);
            assert(w@.take(0) =~= Seq::<char>::empty());
        }
        while p < LEN
            invariant
                p <= LEN,
                valid@.len() * LEN <= usize::MAX,
                is_word(w@),
                w@.len() == LEN,
                b@.len() == LEN,
                forall|j: int| 0 <= j < w@.len() ==> #[trigger] b@[j] == w@[j] as u8,
                forall|k: int|
                    0 <= k < ALPHABET ==> #[trigger] counts[k] == by_letter(pool, letter(k)),
                forall|q: int, k: int|
                    0 <= q < LEN && 0 <= k < ALPHABET ==> #[trigger] grid[q][k]
                        == positional(pool, q, letter(k)),
                forall|k: int| 0 <= k < ALPHABET ==> #[trigger] counts[k] <= valid@.len(),
                forall|q: int, k: int|
                    0 <= q < LEN && 0 <= k < ALPHABET ==> #[trigger] grid[q][k]
                        <= valid@.len(),
                forall|k: int|
                    0 <= k < ALPHABET ==> #[trigger] seen[k] == has_letter(
                        w@.take(p as int),
                        letter(k),
                    ),
                overlap.total == total_upto(pool, w@, p as nat),
                overlap.partial == partial_score(pool, w@.take(p as int)),
                overlap.total <= p * valid@.len(),
                overlap.partial <= p * valid@.len(),
            decreases LEN - p,
        {
            assert(is_letter(w@[p as int]));
            let c: usize = bucket(b[p]);
            proof {
                let prefix = w@.take(p as int);
                assert(w@.take(p + 1) =~= prefix.push(w@[p as int]));
                lemma_letter_index(w@[p as int]);
                assert forall|k: int| 0 <= k < ALPHABET implies (has_letter(
                    w@.take(p + 1),
                    #[trigger] letter(k),
                ) <==> has_letter(prefix, letter(k)) || k == c) by {
                    lemma_has_letter_push(prefix, w@[p as int], letter(k));
                    lemma_letter(k);
                }
                lemma_partial_push(pool, prefix, w@[p as int], ALPHABET as nat);
                assert((p + 1) * valid@.len() == p * valid@.len() + valid@.len())
                    by (nonlinear_arith);
                assert((p + 1) * valid@.len() <= valid@.len() * LEN) by (nonlinear_arith)
                    requires
                        p < LEN,
                ;
            }
            if !seen[c] {
                overlap.partial = overlap.partial + counts[c];
                seen[c] = true;
            }
            overlap.total = overlap.total + grid[p][c];
            p += 1;
        }
        assert(w@.take(p as int) =~= w@);
        scored.push((w, overlap));
        i += 1;
    }
    scored
}

proof fn lemma_views_take(words: Seq<&'static str>, i: int)
    requires
        0 <= i < words.len(),
    ensures
        views(words.take(i + 1)) == views(words.take(i)).push(words[i]@),
{
    assert(views(words.take(i + 1)) =~= views(words.take(i)).push(words[i]@));
}

proof fn lemma_views_push(words: Seq<&'static str>, w: &'static str)
    ensures
        views(words.push(w)) == views(words).push(w@),
{
    assert(views(words.push(w)) =~= views(words).push(w@));
}

/// A word without letters scores no partial overlap.
proof fn lemma_partial_none(valid: Seq<Seq<char>>, k: nat)
    ensures
        partial_upto(valid, Seq::<char>::empty(), k) == 0,
    decreases k,
{
    if k > 0 {
        lemma_partial_none(valid, (k - 1) as nat);
    }
}

/// One more character adds to the partial overlap of a word the count of its
/// letter, unless the word held that letter before.
proof fn lemma_partial_push(valid: Seq<Seq<char>>, w: Seq<char>, x: char, k: nat)
    requires
        is_letter(x),
        k <= ALPHABET,
    ensures
        partial_upto(valid, w.push(x), k) == partial_upto(valid, w, k) + if !has_letter(
            w,
            lower(x),
        ) && letter_index(x) < k {
            by_letter(valid, lower(x))
        } else {
            0nat
        },
    decreases k,
{
    if k > 0 {
        lemma_partial_push(valid, w, x, (k - 1) as nat);
        lemma_has_letter_push(w, x, letter(k - 1));
        lemma_letter(k - 1);
        lemma_letter_index(x);
    }
}

} // verus!
