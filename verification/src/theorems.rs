//! What holds of the engine whatever the pool and the inferences.

use crate::alphabet::{lemma_occurrences_positive, letter, letter_at, occurrences};
use crate::engine::{
    by_letter, holds, holds_at, meets, partial_score, partial_upto, total_score, total_upto, valid_words,
};
use crate::inference::{
    lemma_absent_contradicts_present, lemma_satisfies_subset, satisfies_all, Inference,
    InferenceKind,
};
use crate::overlap::{
    matches_upto, matching_with, shared_upto, sharing_with,
};
use crate::sums::{lemma_sum_over_push, lemma_sum_over_remove, sum_over};
use vstd::prelude::*;

verus! {

/// A stronger predicate keeps no more items of a sequence than a weaker one,
/// and each item that it keeps, the weaker one keeps as well.
pub proof fn lemma_filter_stronger<A>(s: Seq<A>, strong: spec_fn(A) -> bool, weak: spec_fn(A) -> bool)
    requires
        forall|i: int| 0 <= i < s.len() && strong(#[trigger] s[i]) ==> weak(s[i]),
    ensures
        s.filter(strong).len() <= s.filter(weak).len(),
        forall|x: A| s.filter(strong).contains(x) ==> s.filter(weak).contains(x),
    decreases s.len(),
{
    reveal(Seq::filter);
    if s.len() > 0 {
        let front = s.drop_last();
        assert forall|i: int| 0 <= i < front.len() && strong(#[trigger] front[i]) implies weak(
            front[i],
        ) by {
            assert(front[i] == s[i]);
        }
        lemma_filter_stronger(front, strong, weak);
        assert forall|x: A| s.filter(strong).contains(x) implies s.filter(weak).contains(x) by {
            let j = choose|j: int| 0 <= j < s.filter(strong).len() && s.filter(strong)[j] == x;
            if strong(s.last()) && j == front.filter(strong).len() {
                assert(weak(s[s.len() - 1]));
                assert(s.filter(weak)[front.filter(weak).len() as int] == x);
            } else {
                assert(front.filter(strong)[j] == x);
                assert(front.filter(strong).contains(x));
                let m = choose|m: int| 0 <= m < front.filter(weak).len() && front.filter(weak)[m] == x;
                assert(s.filter(weak)[m] == x);
            }
        }
        if strong(s.last()) {
            assert(weak(s[s.len() - 1]));
        }
    }
}

/// A predicate that holds of every item keeps the whole sequence.
pub proof fn lemma_filter_all<A>(s: Seq<A>, p: spec_fn(A) -> bool)
    requires
        forall|i: int| 0 <= i < s.len() ==> p(#[trigger] s[i]),
    ensures
        s.filter(p) == s,
    decreases s.len(),
{
    reveal(Seq::filter);
    if s.len() > 0 {
        let front = s.drop_last();
        assert forall|i: int| 0 <= i < front.len() implies p(#[trigger] front[i]) by {
            assert(front[i] == s[i]);
        }
        lemma_filter_all(front, p);
        assert(p(s[s.len() - 1]));
        assert(front.push(s.last()) =~= s);
    }
}

/// A predicate that holds of no item keeps nothing.
pub proof fn lemma_filter_none<A>(s: Seq<A>, p: spec_fn(A) -> bool)
    requires
        forall|i: int| 0 <= i < s.len() ==> !p(#[trigger] s[i]),
    ensures
        s.filter(p) == Seq::<A>::empty(),
    decreases s.len(),
{
    reveal(Seq::filter);
    if s.len() > 0 {
        let front = s.drop_last();
        assert forall|i: int| 0 <= i < front.len() implies !p(#[trigger] front[i]) by {
            assert(front[i] == s[i]);
        }
        lemma_filter_none(front, p);
        assert(!p(s[s.len() - 1]));
    }
}

/// Two predicates that agree on every item keep the same items.
pub proof fn lemma_filter_agree<A>(s: Seq<A>, p: spec_fn(A) -> bool, q: spec_fn(A) -> bool)
    requires
        forall|i: int| 0 <= i < s.len() ==> p(#[trigger] s[i]) == q(s[i]),
    ensures
        s.filter(p) == s.filter(q),
    decreases s.len(),
{
    reveal(Seq::filter);
    if s.len() > 0 {
        let front = s.drop_last();
        assert forall|i: int| 0 <= i < front.len() implies p(#[trigger] front[i]) == q(
            front[i],
        ) by {
            assert(front[i] == s[i]);
        }
        lemma_filter_agree(front, p, q);
        assert(p(s[s.len() - 1]) == q(s[s.len() - 1]));
    }
}

/// Adding inferences never adds a valid word: where every inference of
/// `fewer` is among `more`, the words valid under `more` are no more than
/// those valid under `fewer`, and each of them is valid under `fewer` too.
pub proof fn theorem_more_inferences_fewer_words(
    pool: Seq<Seq<char>>,
    fewer: Seq<Inference>,
    more: Seq<Inference>,
)
    requires
        forall|i: int| 0 <= i < fewer.len() ==> more.contains(#[trigger] fewer[i]),
    ensures
        valid_words(pool, more).len() <= valid_words(pool, fewer).len(),
        forall|w: Seq<char>|
            valid_words(pool, more).contains(w) ==> valid_words(pool, fewer).contains(w),
{
    assert forall|i: int| 0 <= i < pool.len() && meets(more)(#[trigger] pool[i]) implies meets(
        fewer,
    )(pool[i]) by {
        lemma_satisfies_subset(fewer, more, pool[i]);
    }
    lemma_filter_stronger(pool, meets(more), meets(fewer));
}

/// Without inferences every word of the pool is valid.
pub proof fn theorem_no_inference_whole_pool(pool: Seq<Seq<char>>)
    ensures
        valid_words(pool, Seq::<Inference>::empty()) == pool,
{
    lemma_filter_all(pool, meets(Seq::<Inference>::empty()));
}

/// Inferences that contradict each other leave no valid word: where one says
/// that a letter is absent from the whole word and another that the same
/// letter is present, at whatever position, no word of any pool is valid.
pub proof fn theorem_contradiction_no_words(
    pool: Seq<Seq<char>>,
    inferences: Seq<Inference>,
    i: int,
    j: int,
)
    requires
        0 <= i < inferences.len(),
        0 <= j < inferences.len(),
        inferences[i].kind == InferenceKind::AbsentGlobal,
        inferences[j].kind == InferenceKind::Present,
        inferences[i].c == inferences[j].c,
    ensures
        valid_words(pool, inferences) == Seq::<Seq<char>>::empty(),
{
    assert forall|n: int| 0 <= n < pool.len() implies !meets(inferences)(#[trigger] pool[n]) by {
        lemma_absent_contradicts_present(inferences[i], inferences[j], pool[n]);
        if satisfies_all(inferences, pool[n]) {
            assert(inferences[i].satisfied_by(pool[n]));
            assert(inferences[j].satisfied_by(pool[n]));
        }
    }
    lemma_filter_none(pool, meets(inferences));
}

/// A word counts once for each letter that occurs in it, however often it
/// repeats the letter: one more word raises the count of a letter by one if
/// the letter occurs in the word at least once, and not at all otherwise.
pub proof fn theorem_word_counts_once(valid: Seq<Seq<char>>, w: Seq<char>, c: char)
    ensures
        by_letter(valid.push(w), c) == by_letter(valid, c) + if occurrences(w, c) >= 1 {
            1nat
        } else {
            0nat
        },
        by_letter(valid, c) <= valid.len(),
    decreases valid.len(),
{
    lemma_sum_over_push(valid, w, holds(c));
    lemma_occurrences_positive(w, c);
    if valid.len() > 0 {
        theorem_word_counts_once(valid.drop_last(), valid.last(), c);
        assert(valid.drop_last().push(valid.last()) =~= valid);
    }
}

/// The overlap that the engine gives a word is the sum of its overlaps with
/// each of the valid words, taken one by one.
pub proof fn theorem_score_is_sum_of_pairs(valid: Seq<Seq<char>>, w: Seq<char>)
    ensures
        total_score(valid, w) == sum_over(valid, matching_with(w)),
        partial_score(valid, w) == sum_over(valid, sharing_with(w)),
    decreases valid.len(),
{
    if valid.len() == 0 {
        assert(valid =~= Seq::<Seq<char>>::empty());
        lemma_empty_scores(w, w.len());
        lemma_empty_scores(w, 26);
    } else {
        let front = valid.drop_last();
        let v = valid.last();
        assert(front.push(v) =~= valid);
        theorem_score_is_sum_of_pairs(front, w);
        lemma_scores_push(front, v, w, w.len());
        lemma_scores_push(front, v, w, 26);
    }
}

/// A word that is itself valid has a total overlap of at least its length,
/// for it agrees with itself at every position.
pub proof fn theorem_total_at_least_length(valid: Seq<Seq<char>>, w: Seq<char>)
    requires
        valid.contains(w),
    ensures
        total_score(valid, w) >= w.len(),
{
    theorem_score_is_sum_of_pairs(valid, w);
    let i = choose|i: int| 0 <= i < valid.len() && valid[i] == w;
    lemma_sum_over_remove(valid, i, matching_with(w));
    lemma_matches_self(w, w.len());
}

proof fn lemma_matches_self(w: Seq<char>, n: nat)
    ensures
        matches_upto(w, w, n) == n,
    decreases n,
{
    if n > 0 {
        lemma_matches_self(w, (n - 1) as nat);
    }
}

proof fn lemma_empty_scores(w: Seq<char>, n: nat)
    ensures
        total_upto(Seq::<Seq<char>>::empty(), w, n) == 0,
        partial_upto(Seq::<Seq<char>>::empty(), w, n) == 0,
    decreases n,
{
    if n > 0 {
        lemma_empty_scores(w, (n - 1) as nat);
    }
}

proof fn lemma_scores_push(valid: Seq<Seq<char>>, v: Seq<char>, w: Seq<char>, n: nat)
    ensures
        total_upto(valid.push(v), w, n) == total_upto(valid, w, n) + matches_upto(w, v, n),
        partial_upto(valid.push(v), w, n) == partial_upto(valid, w, n) + shared_upto(w, v, n),
    decreases n,
{
    if n > 0 {
        lemma_scores_push(valid, v, w, (n - 1) as nat);
        lemma_sum_over_push(valid, v, holds_at(n - 1, letter_at(w, n - 1)));
        lemma_sum_over_push(valid, v, holds(letter(n - 1)));
    }
}

} // verus!
