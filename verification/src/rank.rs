//! The ranker: the scored words from the best to the worst, cut to the first
//! few.

use crate::alphabet::{is_letter, is_word, word_bytes};
use crate::overlap::Overlap;
use vstd::prelude::*;
use vstd::relations::{sorted_by, total_ordering};
use vstd::seq_lib::lemma_sorted_unique;

verus! {

/// What a word is ranked by: its rank key and its characters.
pub type Ranked = (nat, Seq<char>);

/// The rank key of a total and a partial overlap: the total, and a third of
/// the partial, rounded down.
pub open spec fn key_of(total: nat, partial: nat) -> nat {
    total + partial / 3
}

/// The rank key of an overlap.
pub open spec fn rank_key(o: Overlap) -> nat {
    key_of(o.total as nat, o.partial as nat)
}

/// `a` comes no later than `b` in the dictionary: at the first position where
/// they differ `a` holds the smaller character, or `a` ends there.
pub open spec fn word_le(a: Seq<char>, b: Seq<char>) -> bool
    decreases a.len(),
{
    if a.len() == 0 {
        true
    } else if b.len() == 0 {
        false
    } else if a[0] != b[0] {
        a[0] < b[0]
    } else {
        word_le(a.drop_first(), b.drop_first())
    }
}

/// `a` is ranked no later than `b`: it has the greater key, or the same key
/// and a word that comes no later in the dictionary.
pub open spec fn ranks_le(a: Ranked, b: Ranked) -> bool {
    a.0 > b.0 || (a.0 == b.0 && word_le(a.1, b.1))
}

/// The order of the ranking, as a relation.
pub open spec fn rank_order() -> spec_fn(Ranked, Ranked) -> bool {
    |a: Ranked, b: Ranked| ranks_le(a, b)
}

/// What a scored word is ranked by.
pub open spec fn ranked(entry: (&'static str, Overlap)) -> Ranked {
    (rank_key(entry.1), entry.0@)
}

/// What each of the scored words is ranked by, in the order given.
pub open spec fn keyed(scored: Seq<(&'static str, Overlap)>) -> Seq<Ranked> {
    scored.map_values(|entry: (&'static str, Overlap)| ranked(entry))
}

/// The words of the given items, in the order given.
pub open spec fn words_of(items: Seq<Ranked>) -> Seq<Seq<char>> {
    items.map_values(|item: Ranked| item.1)
}

/// The first `k` of the items, or all of them if they are fewer.
pub open spec fn first(items: Seq<Ranked>, k: nat) -> Seq<Ranked> {
    items.take(if k <= items.len() {
        k as int
    } else {
        items.len() as int
    })
}

/// The ranking of the items: their words sorted from the greatest key down,
/// words of one key in the order of the dictionary, and of these the first
/// `k`, or all of them if they are fewer.
pub open spec fn ranking_of(items: Seq<Ranked>, k: nat) -> Seq<Seq<char>> {
    words_of(first(items.sort_by(rank_order()), k))
}

/// The ranking of the scored words.
pub open spec fn ranking(scored: Seq<(&'static str, Overlap)>, k: nat) -> Seq<Seq<char>> {
    ranking_of(keyed(scored), k)
}

/// The strings as sequences of characters.
pub open spec fn texts(strings: Seq<String>) -> Seq<Seq<char>> {
    strings.map_values(|s: String| s@)
}

/// The scored words in the order of the ranking, cut to the first `k`.
pub fn rank(scored: &Vec<(&'static str, Overlap)>, k: usize) -> (words: Vec<String>)
    requires
        forall|i: int| 0 <= i < scored@.len() ==> is_word((#[trigger] scored@[i]).0@),
    ensures
        texts(words@) == ranking(scored@, k as nat),
{
    let best = select(scored, k);
    let mut words: Vec<String> = Vec::new();
    let mut i: usize = 0;
    while i < best.len()
        invariant
            i <= best@.len(),
            words@.len() == i,
            forall|j: int| 0 <= j < i ==> (#[trigger] words@[j])@ == best@[j].0@,
        decreases best@.len() - i,
    {
        words.push(best[i].0.to_owned());
        i += 1;
    }
    assert(texts(words@) =~= words_of(keyed(best@)));
    words
}

/// The first `k` of the scored words in the order of the ranking, each with
/// its overlap.
pub fn select(scored: &Vec<(&'static str, Overlap)>, k: usize) -> (best: Vec<(&'static str, Overlap)>)
    requires
        forall|i: int| 0 <= i < scored@.len() ==> is_word((#[trigger] scored@[i]).0@),
    ensures
        keyed(best@) == first(keyed(scored@).sort_by(rank_order()), k as nat),
        forall|i: int| 0 <= i < best@.len() ==> scored@.contains(#[trigger] best@[i]),
{
    let mut best: Vec<(&'static str, Overlap)> = Vec::new();
    let mut i: usize = 0;
    proof {
        assert(keyed(scored@.take(0)) =~= Seq::<Ranked>::empty());
        assert(keyed(scored@.take(0)).sort_by(rank_order()) =~= Seq::<Ranked>::empty()) by {
            lemma_rank_order_total();
            keyed(scored@.take(0)).lemma_sort_by_ensures(rank_order());
            keyed(scored@.take(0)).sort_by(rank_order()).to_multiset_ensures();
            keyed(scored@.take(0)).to_multiset_ensures();
        }
        assert(keyed(best@) =~= Seq::<Ranked>::empty());
    }
    while i < scored.len()
        invariant
            i <= scored@.len(),
            forall|j: int| 0 <= j < scored@.len() ==> is_word((#[trigger] scored@[j]).0@),
            forall|j: int| 0 <= j < best@.len() ==> scored@.contains(#[trigger] best@[j]),
            keyed(best@) == first(keyed(scored@.take(i as int)).sort_by(rank_order()), k as nat),
        decreases scored@.len() - i,
    {
        let entry: (&'static str, Overlap) = scored[i];
        let ghost seen = keyed(scored@.take(i as int));
        let ghost sorted = seen.sort_by(rank_order());
        let ghost was = best@;
        proof {
            lemma_rank_order_total();
            seen.lemma_sort_by_ensures(rank_order());
            seen.to_multiset_ensures();
            sorted.to_multiset_ensures();
            assert(sorted.len() == i);
            assert(keyed(best@).len() == best@.len());
            assert(best@.len() == if k <= i {
                k
            } else {
                i
            });
            assert(scored@.contains(scored@[i as int]));
            assert forall|j: int| 0 <= j < best@.len() implies is_word((#[trigger] best@[j]).0@) by {
                let n = choose|n: int| 0 <= n < scored@.len() && scored@[n] == best@[j];
                assert(is_word(scored@[n].0@));
            }
        }
        let q = slot(&best, &entry);
        proof {
            let x = ranked(entry);
            assert forall|j: int| 0 <= j < q implies ranks_le(#[trigger] sorted[j], x) by {
                assert(keyed(best@)[j] == sorted[j]);
            }
            if q < best@.len() {
                assert(keyed(best@)[q as int] == sorted[q as int]);
            }
            let p = lemma_place(sorted, x, q as int);
            let grown = sorted.insert(p, x);
            assert(keyed(scored@.take(i + 1)) =~= seen.push(x));
            assert(grown.to_multiset() =~= seen.push(x).to_multiset()) by {
                vstd::seq_lib::to_multiset_insert(sorted, p, x);
            }
            lemma_insert_sorted(sorted, x, p);
            seen.push(x).lemma_sort_by_ensures(rank_order());
            lemma_sorted_unique(grown, seen.push(x).sort_by(rank_order()), rank_order());
            assert(keyed(scored@.take(i + 1)).sort_by(rank_order()) == grown);
            if q < k {
                assert(p == q) by {
                    if q == best@.len() {
                        assert(sorted.len() == q);
                    }
                }
                assert(keyed(was.insert(q as int, entry)) =~= first(sorted, k as nat).insert(
                    q as int,
                    x,
                ));
            } else {
                assert(first(grown, k as nat) =~= first(sorted, k as nat));
            }
        }
        if q < k {
            best.insert(q, entry);
            if best.len() > k {
                best.truncate(k);
            }
            proof {
                let x = ranked(entry);
                let grown = sorted.insert(q as int, x);
                let inserted = was.insert(q as int, entry);
                let m = was.len() as int;
                assert(first(sorted, k as nat) =~= sorted.take(m));
                assert(sorted.take(m).insert(q as int, x) =~= grown.take(m + 1));
                assert(keyed(inserted) =~= grown.take(m + 1));
                if m + 1 > k {
                    assert(best@ =~= inserted.take(k as int));
                    assert(keyed(best@) =~= grown.take(m + 1).take(k as int));
                    assert(grown.take(m + 1).take(k as int) =~= grown.take(k as int));
                } else {
                    assert(best@ =~= inserted);
                    assert(grown.take(m + 1) =~= grown);
                }
                assert(keyed(best@) =~= first(grown, k as nat));
                assert forall|j: int| 0 <= j < best@.len() implies scored@.contains(
                    #[trigger] best@[j],
                ) by {
                    if j < q {
                        assert(best@[j] == was[j]);
                    } else if j == q {
                    } else {
                        assert(best@[j] == was[j - 1]);
                    }
                }
            }
        }
        i += 1;
    }
    assert(scored@.take(i as int) =~= scored@);
    best
}

/// The place in `best` before which `entry` is to stand: the first place that
/// holds an item ranked later than `entry`, or the end.
fn slot(best: &Vec<(&'static str, Overlap)>, entry: &(&'static str, Overlap)) -> (q: usize)
    requires
        is_word(entry.0@),
        forall|j: int| 0 <= j < best@.len() ==> is_word((#[trigger] best@[j]).0@),
    ensures
        q <= best@.len(),
        forall|j: int| 0 <= j < q ==> ranks_le(ranked(#[trigger] best@[j]), ranked(*entry)),
        q < best@.len() ==> !ranks_le(ranked(best@[q as int]), ranked(*entry)),
{
    let mut q: usize = 0;
    while q < best.len()
        invariant
            q <= best@.len(),
            is_word(entry.0@),
            forall|j: int| 0 <= j < best@.len() ==> is_word((#[trigger] best@[j]).0@),
            forall|j: int| 0 <= j < q ==> ranks_le(ranked(#[trigger] best@[j]), ranked(*entry)),
        decreases best@.len() - q,
    {
        assert(is_word(best@[q as int].0@));
        if !goes_before(&best[q], entry) {
            return q;
        }
        q += 1;
    }
    q
}

/// Tells whether `a` is ranked no later than `b`.
pub fn goes_before(a: &(&'static str, Overlap), b: &(&'static str, Overlap)) -> (yes: bool)
    requires
        is_word(a.0@),
        is_word(b.0@),
    ensures
        yes == ranks_le(ranked(*a), ranked(*b)),
{
    let ka: u128 = a.1.total as u128 + (a.1.partial as u128) / 3;
    let kb: u128 = b.1.total as u128 + (b.1.partial as u128) / 3;
    if ka != kb {
        ka > kb
    } else {
        in_order(a.0, b.0)
    }
}

/// Tells whether the word `a` comes no later than the word `b` in the
/// dictionary.
pub fn in_order(a: &str, b: &str) -> (yes: bool)
    requires
        is_word(a@),
        is_word(b@),
    ensures
        yes == word_le(a@, b@),
{
    let ab = word_bytes(a);
    let bb = word_bytes(b);
    let mut i: usize = 0;
    assert(a@.skip(0) =~= a@ && b@.skip(0) =~= b@);
    loop
        invariant
            i <= ab@.len(),
            i <= bb@.len(),
            ab@.len() == a@.len(),
            bb@.len() == b@.len(),
            is_word(a@),
            is_word(b@),
            forall|j: int| 0 <= j < a@.len() ==> #[trigger] ab@[j] == a@[j] as u8,
            forall|j: int| 0 <= j < b@.len() ==> #[trigger] bb@[j] == b@[j] as u8,
            word_le(a@, b@) == word_le(a@.skip(i as int), b@.skip(i as int)),
        decreases ab@.len() - i,
    {
        if i == ab.len() {
            return true;
        }
        if i == bb.len() {
            return false;
        }
        assert(is_letter(a@[i as int]) && is_letter(b@[i as int]));
        assert(a@.skip(i as int)[0] == a@[i as int]);
        assert(b@.skip(i as int)[0] == b@[i as int]);
        if ab[i] != bb[i] {
            return ab[i] < bb[i];
        }
        assert(a@.skip(i as int).drop_first() =~= a@.skip(i + 1));
        assert(b@.skip(i as int).drop_first() =~= b@.skip(i + 1));
        i += 1;
    }
}

/// Every word comes no later than itself.
pub proof fn lemma_word_le_reflexive(a: Seq<char>)
    ensures
        word_le(a, a),
    decreases a.len(),
{
    if a.len() > 0 {
        lemma_word_le_reflexive(a.drop_first());
    }
}

/// Of two words one comes no later than the other.
pub proof fn lemma_word_le_total(a: Seq<char>, b: Seq<char>)
    ensures
        word_le(a, b) || word_le(b, a),
    decreases a.len(),
{
    if a.len() > 0 && b.len() > 0 && a[0] == b[0] {
        lemma_word_le_total(a.drop_first(), b.drop_first());
    }
}

/// Two words that come no later than each other are one word.
pub proof fn lemma_word_le_antisymmetric(a: Seq<char>, b: Seq<char>)
    requires
        word_le(a, b),
        word_le(b, a),
    ensures
        a == b,
    decreases a.len(),
{
    if a.len() > 0 {
        lemma_word_le_antisymmetric(a.drop_first(), b.drop_first());
        assert(a =~= seq![a[0]] + a.drop_first());
        assert(b =~= seq![b[0]] + b.drop_first());
    } else {
        assert(a =~= b);
    }
}

/// A word that comes no later than a second, which comes no later than a
/// third, comes no later than the third.
pub proof fn lemma_word_le_transitive(a: Seq<char>, b: Seq<char>, c: Seq<char>)
    requires
        word_le(a, b),
        word_le(b, c),
    ensures
        word_le(a, c),
    decreases a.len(),
{
    if a.len() > 0 && a[0] == b[0] && b[0] == c[0] {
        lemma_word_le_transitive(a.drop_first(), b.drop_first(), c.drop_first());
    }
}

/// The order of the ranking is a total order: of two items one is ranked no
/// later than the other, and only an item itself is ranked both no later and
/// no earlier than it.
pub proof fn lemma_rank_order_total()
    ensures
        total_ordering(rank_order()),
{
    let r = rank_order();
    assert forall|x: Ranked| #[trigger] r(x, x) by {
        lemma_word_le_reflexive(x.1);
    }
    assert forall|x: Ranked, y: Ranked| #[trigger] r(x, y) && #[trigger] r(y, x) implies x == y by {
        lemma_word_le_antisymmetric(x.1, y.1);
    }
    assert forall|x: Ranked, y: Ranked, z: Ranked| #[trigger] r(x, y) && #[trigger] r(y, z) implies r(
        x,
        z,
    ) by {
        if x.0 == y.0 && y.0 == z.0 {
            lemma_word_le_transitive(x.1, y.1, z.1);
        }
    }
    assert forall|x: Ranked, y: Ranked| #[trigger] r(x, y) || #[trigger] r(y, x) by {
        lemma_word_le_total(x.1, y.1);
    }
}

/// A place at or after `from` at which `x` can stand in the sorted items.
proof fn lemma_place(sorted: Seq<Ranked>, x: Ranked, from: int) -> (p: int)
    requires
        sorted_by(sorted, rank_order()),
        0 <= from <= sorted.len(),
        forall|j: int| 0 <= j < from ==> ranks_le(#[trigger] sorted[j], x),
    ensures
        from <= p <= sorted.len(),
        forall|j: int| 0 <= j < p ==> ranks_le(#[trigger] sorted[j], x),
        forall|j: int| p <= j < sorted.len() ==> ranks_le(x, #[trigger] sorted[j]),
        from < sorted.len() && !ranks_le(sorted[from], x) ==> p == from,
    decreases sorted.len() - from,
{
    lemma_rank_order_total();
    if from == sorted.len() {
        from
    } else if !ranks_le(sorted[from], x) {
        assert forall|j: int| from <= j < sorted.len() implies ranks_le(x, #[trigger] sorted[j]) by {
            lemma_word_le_total(x.1, sorted[from].1);
            assert(ranks_le(x, sorted[from]));
            if from < j {
                assert(rank_order()(sorted[from], sorted[j]));
            } else {
                lemma_word_le_reflexive(sorted[from].1);
            }
            if x.0 == sorted[from].0 && sorted[from].0 == sorted[j].0 {
                lemma_word_le_transitive(x.1, sorted[from].1, sorted[j].1);
            }
        }
        from
    } else {
        lemma_place(sorted, x, from + 1)
    }
}

/// Sorted items stay sorted when one more is put at a place where all before
/// it are ranked no later and all after it no earlier.
proof fn lemma_insert_sorted(sorted: Seq<Ranked>, x: Ranked, p: int)
    requires
        sorted_by(sorted, rank_order()),
        0 <= p <= sorted.len(),
        forall|j: int| 0 <= j < p ==> ranks_le(#[trigger] sorted[j], x),
        forall|j: int| p <= j < sorted.len() ==> ranks_le(x, #[trigger] sorted[j]),
    ensures
        sorted_by(sorted.insert(p, x), rank_order()),
{
    let grown = sorted.insert(p, x);
    assert forall|i: int, j: int| 0 <= i < j < grown.len() implies #[trigger] rank_order()(
        grown[i],
        grown[j],
    ) by {
        if j < p {
            assert(rank_order()(sorted[i], sorted[j]));
        } else if j == p {
            assert(ranks_le(sorted[i], x));
        } else if i < p {
            assert(rank_order()(sorted[i], sorted[j - 1]));
        } else if i == p {
            assert(ranks_le(x, sorted[j - 1]));
        } else {
            assert(rank_order()(sorted[i - 1], sorted[j - 1]));
        }
    }
}

/// The ranking is determined by the scored words and the order alone: however
/// the words are sorted, if the outcome holds the same items and is in the
/// order of the ranking, its first `k` words are the ranking.
pub proof fn theorem_ranking_unique(
    scored: Seq<(&'static str, Overlap)>,
    sorted: Seq<Ranked>,
    k: nat,
)
    requires
        sorted.to_multiset() == keyed(scored).to_multiset(),
        sorted_by(sorted, rank_order()),
    ensures
        words_of(first(sorted, k)) == ranking(scored, k),
{
    lemma_rank_order_total();
    keyed(scored).lemma_sort_by_ensures(rank_order());
    lemma_sorted_unique(sorted, keyed(scored).sort_by(rank_order()), rank_order());
}

/// The ranking does not depend on the order in which the scored words are
/// given: two lists that hold the same entries the same number of times have
/// the same ranking.
pub proof fn theorem_ranking_ignores_order(
    first_list: Seq<(&'static str, Overlap)>,
    second_list: Seq<(&'static str, Overlap)>,
    k: nat,
)
    requires
        first_list.to_multiset() == second_list.to_multiset(),
    ensures
        ranking(first_list, k) == ranking(second_list, k),
{
    lemma_rank_order_total();
    lemma_keyed_permutation(first_list, second_list);
    keyed(first_list).lemma_sort_by_ensures(rank_order());
    theorem_ranking_unique(second_list, keyed(first_list).sort_by(rank_order()), k);
}

proof fn lemma_keyed_permutation(
    s1: Seq<(&'static str, Overlap)>,
    s2: Seq<(&'static str, Overlap)>,
)
    requires
        s1.to_multiset() == s2.to_multiset(),
    ensures
        keyed(s1).to_multiset() == keyed(s2).to_multiset(),
    decreases s1.len(),
{
    s1.to_multiset_ensures();
    s2.to_multiset_ensures();
    if s1.len() == 0 {
        assert(keyed(s1) =~= keyed(s2));
    } else {
        let x = s1.last();
        assert(s1.contains(x));
        assert(s2.to_multiset().count(x) > 0);
        let j = choose|j: int| 0 <= j < s2.len() && s2[j] == x;
        assert(s1.drop_last() =~= s1.remove(s1.len() - 1));
        assert(s1.drop_last().to_multiset() =~= s2.remove(j).to_multiset());
        lemma_keyed_permutation(s1.drop_last(), s2.remove(j));
        assert(keyed(s1) =~= keyed(s1.drop_last()).push(ranked(x)));
        assert(keyed(s2.remove(j)) =~= keyed(s2).remove(j));
        keyed(s1.drop_last()).to_multiset_ensures();
        keyed(s2).to_multiset_ensures();
        assert(keyed(s2).to_multiset() =~= keyed(s2).remove(j).to_multiset().insert(ranked(x)));
    }
}

} // verus!
