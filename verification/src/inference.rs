//! Inferences: what one piece of feedback says about the hidden word.

use crate::alphabet::{
    has_letter, is_letter, is_word, lemma_occurrences_positive, letter_at, lower_byte,
    occurrences, word_bytes,
};
use vstd::prelude::*;

verus! {

/// What an inference says about its letter.
#[derive(Copy, Clone, Debug, PartialEq, Eq, Hash, Structural)]
pub enum InferenceKind {
    /// The letter does not occur in the word at all.
    AbsentGlobal,
    /// The letter does not stand at the position of the inference.
    AbsentLocal,
    /// The letter occurs in the word, but not at the position of the inference.
    Present,
    /// The letter stands at the position of the inference.
    Correct,
    /// The letter occurs in the word exactly this many times.
    Count(usize),
    /// The letter occurs in the word at least this many times.
    AtLeast(usize),
}

/// A condition on a word: a lowercase letter, a position in the word, and what
/// is known of the letter. Two inferences with the same three parts are the
/// same inference. The kinds that speak of the whole word do not read the
/// position, which is zero by convention.
#[derive(Copy, Clone, Debug, PartialEq, Eq, Hash, Structural)]
pub struct Inference {
    pub c: char,
    pub position: usize,
    pub kind: InferenceKind,
}

impl Inference {
    /// Whether the word `w` meets this condition. Case is ignored in `w`.
    pub open spec fn satisfied_by(self, w: Seq<char>) -> bool {
        match self.kind {
            InferenceKind::AbsentGlobal => !has_letter(w, self.c),
            InferenceKind::AbsentLocal => letter_at(w, self.position as int) != self.c,
            InferenceKind::Present => letter_at(w, self.position as int) != self.c && has_letter(
                w,
                self.c,
            ),
            InferenceKind::Correct => letter_at(w, self.position as int) == self.c,
            InferenceKind::Count(n) => occurrences(w, self.c) == n,
            InferenceKind::AtLeast(n) => occurrences(w, self.c) >= n,
        }
    }

    /// The inference with these three parts.
    pub fn new(c: char, position: usize, kind: InferenceKind) -> (inf: Self)
        ensures
            inf.c == c,
            inf.position == position,
            inf.kind == kind,
    {
        Inference { c, position, kind }
    }

    /// Tells whether the word `w` meets this condition.
    pub fn filter(&self, w: &str) -> (ok: bool)
        requires
            is_word(w@),
            self.position < w@.len(),
        ensures
            ok == self.satisfied_by(w@),
    {
        let b = word_bytes(w);
        assert(is_letter(w@[self.position as int]));
        let here: bool = lower_byte(b[self.position]) as char == self.c;
        let n: usize = count_letter(w, self.c);
        proof {
            lemma_occurrences_positive(w@, self.c);
        }
        match self.kind {
            InferenceKind::AbsentGlobal => n == 0,
            InferenceKind::AbsentLocal => !here,
            InferenceKind::Present => !here && n > 0,
            InferenceKind::Correct => here,
            InferenceKind::Count(m) => n == m,
            InferenceKind::AtLeast(m) => n >= m,
        }
    }
}

/// Whether the word `w` meets every one of the conditions.
pub open spec fn satisfies_all(inferences: Seq<Inference>, w: Seq<char>) -> bool {
    forall|i: int| 0 <= i < inferences.len() ==> (#[trigger] inferences[i]).satisfied_by(w)
}

/// Number of positions of `w` that hold the letter `c`, case ignored in `w`.
pub fn count_letter(w: &str, c: char) -> (n: usize)
    requires
        is_word(w@),
    ensures
        n == occurrences(w@, c),
{
    let b = word_bytes(w);
    let mut n: usize = 0;
    let mut i: usize = 0;
    while i < b.len()
        invariant
            i <= b@.len(),
            b@.len() == w@.len(),
            is_word(w@),
            forall|j: int| 0 <= j < w@.len() ==> #[trigger] b@[j] == w@[j] as u8,
            n == occurrences(w@.take(i as int), c),
            n <= i,
        decreases b@.len() - i,
    {
        assert(is_letter(w@[i as int]));
        assert(w@.take(i + 1).drop_last() =~= w@.take(i as int));
        if lower_byte(b[i]) as char == c {
            n += 1;
        }
        i += 1;
    }
    assert(w@.take(i as int) =~= w@);
    n
}

/// No word has a letter that is absent from it: an inference that the letter
/// is absent from the whole word and one that it is present, at whatever
/// position, are never met together.
pub proof fn lemma_absent_contradicts_present(absent: Inference, present: Inference, w: Seq<char>)
    requires
        absent.kind == InferenceKind::AbsentGlobal,
        present.kind == InferenceKind::Present,
        absent.c == present.c,
    ensures
        !(absent.satisfied_by(w) && present.satisfied_by(w)),
{
}

/// More conditions are met by no more words: a word that meets every
/// condition of `more` meets every condition of `fewer`, if each of those is
/// among `more`.
pub proof fn lemma_satisfies_subset(fewer: Seq<Inference>, more: Seq<Inference>, w: Seq<char>)
    requires
        forall|i: int| 0 <= i < fewer.len() ==> more.contains(#[trigger] fewer[i]),
        satisfies_all(more, w),
    ensures
        satisfies_all(fewer, w),
{
    assert forall|i: int| 0 <= i < fewer.len() implies (#[trigger] fewer[i]).satisfied_by(w) by {
        assert(more.contains(fewer[i]));
        let j = choose|j: int| 0 <= j < more.len() && more[j] == fewer[i];
        assert(more[j].satisfied_by(w));
    }
}

} // verus!
