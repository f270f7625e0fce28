//! How much the letters of one word coincide with those of other words.

use crate::alphabet::{
    has_letter, is_letter, is_word, letter, letter_at, letter_set, lower_byte, word_bytes,
    ALPHABET,
};
use crate::sums::{lemma_sum_over_permutation, lemma_sum_over_prefix, lemma_sum_over_take, sum_over};
use vstd::prelude::*;
use vstd::std_specs::ops::AddSpec;

verus! {

/// The overlap between one word, the source, and one or more others, the
/// targets.
///
/// `total` counts the places at which a target holds the same letter as the
/// source at the same position. `partial` counts, target by target, the letters
/// of the alphabet that occur in both the target and the source, wherever they
/// stand; a letter counts once for each target, however often it is repeated.
///
/// With the source `"cat"` and the targets `"cat"`, `"cot"` and `"toc"`,
/// `total` is five (three, two and none) and `partial` is seven (three, two
/// and two).
#[derive(Copy, Clone, Debug, PartialEq, Eq, Structural)]
pub struct Overlap {
    pub total: usize,
    pub partial: usize,
}

/// Number of positions below `n` at which `a` and `b` hold the same letter,
/// case ignored.
pub open spec fn matches_upto(a: Seq<char>, b: Seq<char>, n: nat) -> nat
    decreases n,
{
    if n == 0 {
        0
    } else {
        matches_upto(a, b, (n - 1) as nat) + if letter_at(a, n - 1) == letter_at(b, n - 1) {
            1nat
        } else {
            0nat
        }
    }
}

/// Number of positions at which `a` and `b` hold the same letter.
pub open spec fn matching_positions(a: Seq<char>, b: Seq<char>) -> nat {
    matches_upto(a, b, a.len())
}

/// Number of letters among the first `k` of the alphabet that occur in both
/// `a` and `b`.
pub open spec fn shared_upto(a: Seq<char>, b: Seq<char>, k: nat) -> nat
    decreases k,
{
    if k == 0 {
        0
    } else {
        shared_upto(a, b, (k - 1) as nat) + if has_letter(a, letter(k - 1)) && has_letter(
            b,
            letter(k - 1),
        ) {
            1nat
        } else {
            0nat
        }
    }
}

/// Number of letters of the alphabet that occur in both `a` and `b`.
pub open spec fn shared_letters(a: Seq<char>, b: Seq<char>) -> nat {
    shared_upto(a, b, ALPHABET as nat)
}

/// The `total` of each overlap, as a function for sums.
pub open spec fn total_of() -> spec_fn(Overlap) -> nat {
    |o: Overlap| o.total as nat
}

/// The `partial` of each overlap, as a function for sums.
pub open spec fn partial_of() -> spec_fn(Overlap) -> nat {
    |o: Overlap| o.partial as nat
}

/// Matching positions with the source `w`, as a function of the target.
pub open spec fn matching_with(w: Seq<char>) -> spec_fn(Seq<char>) -> nat {
    |t: Seq<char>| matching_positions(w, t)
}

/// Shared letters with the source `w`, as a function of the target.
pub open spec fn sharing_with(w: Seq<char>) -> spec_fn(Seq<char>) -> nat {
    |t: Seq<char>| shared_letters(w, t)
}

impl Default for Overlap {
    /// The overlap with no target at all.
    fn default() -> (o: Self)
        ensures
            o.total == 0,
            o.partial == 0,
    {
        Overlap { total: 0, partial: 0 }
    }
}

impl core::ops::Add for Overlap {
    type Output = Overlap;

    /// Adds the two counters each to its like. The sums have to fit the
    /// counters.
    fn add(self, rhs: Overlap) -> (o: Overlap) {
        Overlap { total: self.total + rhs.total, partial: self.partial + rhs.partial }
    }
}

impl vstd::std_specs::ops::AddSpecImpl for Overlap {
    open spec fn obeys_add_spec() -> bool {
        true
    }

    open spec fn add_req(self, rhs: Overlap) -> bool {
        self.total + rhs.total <= usize::MAX && self.partial + rhs.partial <= usize::MAX
    }

    open spec fn add_spec(self, rhs: Overlap) -> Overlap {
        Overlap {
            total: (self.total + rhs.total) as usize,
            partial: (self.partial + rhs.partial) as usize,
        }
    }
}

impl Overlap {
    /// The overlap with these two counters.
    pub fn new(total: usize, letters: usize) -> (o: Self)
        ensures
            o.total == total,
            o.partial == letters,
    {
        Overlap { total, partial: letters }
    }

    /// The sum of the given overlaps, counter by counter; `{0, 0}` for none.
    pub fn sum(items: &[Overlap]) -> (o: Overlap)
        requires
            sum_over(items@, total_of()) <= usize::MAX,
            sum_over(items@, partial_of()) <= usize::MAX,
        ensures
            o.total == sum_over(items@, total_of()),
            o.partial == sum_over(items@, partial_of()),
    {
        let mut acc = Overlap::new(0, 0);
        let mut i: usize = 0;
        while i < items.len()
            invariant
                i <= items@.len(),
                sum_over(items@, total_of()) <= usize::MAX,
                sum_over(items@, partial_of()) <= usize::MAX,
                acc.total == sum_over(items@.take(i as int), total_of()),
                acc.partial == sum_over(items@.take(i as int), partial_of()),
            decreases items@.len() - i,
        {
            proof {
                lemma_sum_over_take(items@, i as int, total_of());
                lemma_sum_over_take(items@, i as int, partial_of());
                lemma_sum_over_prefix(items@, i + 1, total_of());
                lemma_sum_over_prefix(items@, i + 1, partial_of());
            }
            acc = acc + items[i];
            i += 1;
        }
        assert(items@.take(i as int) =~= items@);
        acc
    }

    /// The overlap of two words of one length: the positions at which they
    /// hold the same letter, and the letters that occur in both. Case is
    /// ignored.
    pub fn from_words(l: &str, r: &str) -> (o: Self)
        requires
            is_word(l@),
            is_word(r@),
            l@.len() == r@.len(),
        ensures
            o.total == matching_positions(l@, r@),
            o.partial == shared_letters(l@, r@),
    {
        let lb = word_bytes(l);
        let rb = word_bytes(r);
        let mut total: usize = 0;
        let mut i: usize = 0;
        while i < lb.len()
            invariant
                i <= lb@.len(),
                lb@.len() == l@.len(),
                rb@.len() == l@.len(),
                l@.len() == r@.len(),
                is_word(l@),
                is_word(r@),
                forall|j: int| 0 <= j < l@.len() ==> #[trigger] lb@[j] == l@[j] as u8,
                forall|j: int| 0 <= j < r@.len() ==> #[trigger] rb@[j] == r@[j] as u8,
                total == matches_upto(l@, r@, i as nat),
                total <= i,
            decreases lb@.len() - i,
        {
            assert(is_letter(l@[i as int]) && is_letter(r@[i as int]));
            if lower_byte(lb[i]) == lower_byte(rb[i]) {
                total += 1;
            }
            i += 1;
        }
        let in_l = letter_set(l);
        let in_r = letter_set(r);
        let mut partial: usize = 0;
        let mut k: usize = 0;
        while k < ALPHABET
            invariant
                k <= ALPHABET,
                forall|j: int| 0 <= j < ALPHABET ==> #[trigger] in_l[j] == has_letter(l@, letter(j)),
                forall|j: int| 0 <= j < ALPHABET ==> #[trigger] in_r[j] == has_letter(r@, letter(j)),
                partial == shared_upto(l@, r@, k as nat),
                partial <= k,
            decreases ALPHABET - k,
        {
            if in_l[k] && in_r[k] {
                partial += 1;
            }
            k += 1;
        }
        Overlap { total, partial }
    }
}

/// Adding overlaps does not depend on their order or grouping, and the overlap
/// with both counters at zero changes nothing.
pub proof fn lemma_add_laws(a: Overlap, b: Overlap, c: Overlap)
    requires
        a.total + b.total + c.total <= usize::MAX,
        a.partial + b.partial + c.partial <= usize::MAX,
    ensures
        a.add_spec(b) == b.add_spec(a),
        a.add_spec(b).add_spec(c) == a.add_spec(b.add_spec(c)),
        a.add_spec((Overlap { total: 0, partial: 0 })) == a,
{
}

/// The sum of overlaps does not depend on their order.
pub proof fn theorem_sum_ignores_order(s1: Seq<Overlap>, s2: Seq<Overlap>)
    requires
        s1.to_multiset() == s2.to_multiset(),
    ensures
        sum_over(s1, total_of()) == sum_over(s2, total_of()),
        sum_over(s1, partial_of()) == sum_over(s2, partial_of()),
{
    lemma_sum_over_permutation(s1, s2, total_of());
    lemma_sum_over_permutation(s1, s2, partial_of());
}

/// The summed overlap of a source with a list of targets does not depend on
/// the order of the targets.
pub proof fn theorem_targets_ignore_order(w: Seq<char>, t1: Seq<Seq<char>>, t2: Seq<Seq<char>>)
    requires
        t1.to_multiset() == t2.to_multiset(),
    ensures
        sum_over(t1, matching_with(w)) == sum_over(t2, matching_with(w)),
        sum_over(t1, sharing_with(w)) == sum_over(t2, sharing_with(w)),
{
    lemma_sum_over_permutation(t1, t2, matching_with(w));
    lemma_sum_over_permutation(t1, t2, sharing_with(w));
}

/// The overlap of two words is the same from either side.
pub proof fn lemma_overlap_symmetric(a: Seq<char>, b: Seq<char>)
    requires
        a.len() == b.len(),
    ensures
        matching_positions(a, b) == matching_positions(b, a),
        shared_letters(a, b) == shared_letters(b, a),
{
    lemma_matches_symmetric(a, b, a.len());
    lemma_shared_symmetric(a, b, ALPHABET as nat);
}

proof fn lemma_matches_symmetric(a: Seq<char>, b: Seq<char>, n: nat)
    ensures
        matches_upto(a, b, n) == matches_upto(b, a, n),
    decreases n,
{
    if n > 0 {
        lemma_matches_symmetric(a, b, (n - 1) as nat);
    }
}

proof fn lemma_shared_symmetric(a: Seq<char>, b: Seq<char>, k: nat)
    ensures
        shared_upto(a, b, k) == shared_upto(b, a, k),
    decreases k,
{
    if k > 0 {
        lemma_shared_symmetric(a, b, (k - 1) as nat);
    }
}

} // verus!
