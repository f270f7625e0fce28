//! Sums over the items of a sequence.

use vstd::prelude::*;

verus! {

/// The sum of `f` over the items of `s`.
pub open spec fn sum_over<A>(s: Seq<A>, f: spec_fn(A) -> nat) -> nat
    decreases s.len(),
{
    if s.len() == 0 {
        0
    } else {
        sum_over(s.drop_last(), f) + f(s.last())
    }
}

/// One more item adds its own term.
pub proof fn lemma_sum_over_push<A>(s: Seq<A>, x: A, f: spec_fn(A) -> nat)
    ensures
        sum_over(s.push(x), f) == sum_over(s, f) + f(x),
{
    assert(s.push(x).drop_last() =~= s);
}

/// The sum over a prefix that is one item longer.
pub proof fn lemma_sum_over_take<A>(s: Seq<A>, i: int, f: spec_fn(A) -> nat)
    requires
        0 <= i < s.len(),
    ensures
        sum_over(s.take(i + 1), f) == sum_over(s.take(i), f) + f(s[i]),
{
    assert(s.take(i + 1).drop_last() =~= s.take(i));
}

/// No prefix sums to more than the whole sequence.
pub proof fn lemma_sum_over_prefix<A>(s: Seq<A>, i: int, f: spec_fn(A) -> nat)
    requires
        0 <= i <= s.len(),
    ensures
        sum_over(s.take(i), f) <= sum_over(s, f),
    decreases s.len() - i,
{
    if i == s.len() {
        assert(s.take(i) =~= s);
    } else {
        lemma_sum_over_take(s, i, f);
        lemma_sum_over_prefix(s, i + 1, f);
    }
}

/// Taking one item out takes its term out of the sum.
pub proof fn lemma_sum_over_remove<A>(s: Seq<A>, i: int, f: spec_fn(A) -> nat)
    requires
        0 <= i < s.len(),
    ensures
        sum_over(s, f) == sum_over(s.remove(i), f) + f(s[i]),
    decreases s.len(),
{
    if i == s.len() - 1 {
        assert(s.remove(i) =~= s.drop_last());
    } else {
        lemma_sum_over_remove(s.drop_last(), i, f);
        assert(s.remove(i).drop_last() =~= s.drop_last().remove(i));
    }
}

/// The sum does not depend on the order of the items: two sequences that hold
/// the same items the same number of times have the same sum.
pub proof fn lemma_sum_over_permutation<A>(s1: Seq<A>, s2: Seq<A>, f: spec_fn(A) -> nat)
    requires
        s1.to_multiset() == s2.to_multiset(),
    ensures
        sum_over(s1, f) == sum_over(s2, f),
    decreases s1.len(),
{
    s1.to_multiset_ensures();
    s2.to_multiset_ensures();
    if s1.len() == 0 {
    } else {
        let x = s1.last();
        assert(s1.contains(x));
        assert(s2.to_multiset().count(x) > 0);
        let j = choose|j: int| 0 <= j < s2.len() && s2[j] == x;
        assert(s1.drop_last() =~= s1.remove(s1.len() - 1));
        assert(s1.drop_last().to_multiset() =~= s2.remove(j).to_multiset());
        lemma_sum_over_permutation(s1.drop_last(), s2.remove(j), f);
        lemma_sum_over_remove(s2, j, f);
    }
}

} // verus!
