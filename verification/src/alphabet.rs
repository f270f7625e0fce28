//! The alphabet of the puzzle: the twenty-six ASCII letters, compared without
//! regard to case.
//!
//! Words are modelled as `Seq<char>`. Executable code reads a word through its
//! bytes, which for a word made of ASCII letters are its characters one for one.

use vstd::prelude::*;
use vstd::string::*;

verus! {

/// Number of letters in the alphabet.
pub const ALPHABET: usize = 26;

/// `c` is one of the fifty-two ASCII letters.
pub open spec fn is_letter(c: char) -> bool {
    ('a' <= c && c <= 'z') || ('A' <= c && c <= 'Z')
}

/// `c` is one of the twenty-six lowercase ASCII letters.
pub open spec fn is_lower(c: char) -> bool {
    'a' <= c && c <= 'z'
}

/// The lowercase form of an uppercase ASCII letter; any other character is
/// left as it is.
pub open spec fn lower(c: char) -> char {
    if 'A' <= c && c <= 'Z' {
        ((c as u8 + 32) as u8) as char
    } else {
        c
    }
}

/// The lowercase letter that stands at place `k` of the alphabet, counted from
/// zero.
pub open spec fn letter(k: int) -> char {
    ((k + 97) as u8) as char
}

/// Place of a letter in the alphabet, counted from zero and ignoring case.
pub open spec fn letter_index(c: char) -> int {
    lower(c) as int - 97
}

/// A word is a sequence of ASCII letters.
pub open spec fn is_word(w: Seq<char>) -> bool {
    forall|i: int| 0 <= i < w.len() ==> is_letter(#[trigger] w[i])
}

/// The letter of `w` at position `p`, in lowercase.
pub open spec fn letter_at(w: Seq<char>, p: int) -> char {
    lower(w[p])
}

/// `w` holds the letter `c` at some position, case ignored.
pub open spec fn has_letter(w: Seq<char>, c: char) -> bool {
    exists|p: int| 0 <= p < w.len() && #[trigger] letter_at(w, p) == c
}

/// Number of positions of `w` that hold the letter `c`, case ignored.
pub open spec fn occurrences(w: Seq<char>, c: char) -> nat
    decreases w.len(),
{
    if w.len() == 0 {
        0
    } else {
        occurrences(w.drop_last(), c) + if lower(w.last()) == c {
            1nat
        } else {
            0nat
        }
    }
}

/// Lowercasing a letter gives a lowercase letter, and the places of the
/// alphabet and the lowercase letters correspond one to one.
pub proof fn lemma_letter_index(c: char)
    requires
        is_letter(c),
    ensures
        is_lower(lower(c)),
        0 <= letter_index(c) < ALPHABET,
        letter(letter_index(c)) == lower(c),
{
}

/// Every place of the alphabet holds a lowercase letter, which is found again
/// at that place.
pub proof fn lemma_letter(k: int)
    requires
        0 <= k < ALPHABET,
    ensures
        is_lower(letter(k)),
        lower(letter(k)) == letter(k),
        letter_index(letter(k)) == k,
{
}

/// A letter occurs in a word extended by one character exactly if it occurred
/// before or is the new character.
pub proof fn lemma_has_letter_push(w: Seq<char>, x: char, c: char)
    ensures
        has_letter(w.push(x), c) <==> has_letter(w, c) || lower(x) == c,
{
    let v = w.push(x);
    if has_letter(w, c) {
        let p = choose|p: int| 0 <= p < w.len() && #[trigger] letter_at(w, p) == c;
        assert(letter_at(v, p) == c);
    }
    if lower(x) == c {
        assert(letter_at(v, w.len() as int) == c);
    }
    if has_letter(v, c) {
        let p = choose|p: int| 0 <= p < v.len() && #[trigger] letter_at(v, p) == c;
        if p < w.len() {
            assert(letter_at(w, p) == c);
        }
    }
}

/// A letter occurs in a word exactly if it occurs there at least once.
pub proof fn lemma_occurrences_positive(w: Seq<char>, c: char)
    ensures
        occurrences(w, c) <= w.len(),
        has_letter(w, c) <==> occurrences(w, c) > 0,
    decreases w.len(),
{
    if w.len() == 0 {
    } else {
        lemma_occurrences_positive(w.drop_last(), c);
        lemma_has_letter_push(w.drop_last(), w.last(), c);
        assert(w.drop_last().push(w.last()) =~= w);
    }
}

/// The bytes of a word, which are its characters one for one.
pub fn word_bytes(w: &str) -> (b: &[u8])
    requires
        is_word(w@),
    ensures
        b@.len() == w@.len(),
        forall|i: int| 0 <= i < w@.len() ==> #[trigger] b@[i] == w@[i] as u8,
{
    proof {
        assert forall|i: int| 0 <= i < w@.len() implies '\0' <= #[trigger] w@[i] <= '\u{7f}' by {
            assert(is_letter(w@[i]));
        }
        is_ascii_spec_bytes(w);
    }
    w.as_bytes()
}

/// Whether every character of `w` is an ASCII letter.
pub fn check_word(w: &str) -> (ok: bool)
    ensures
        ok == is_word(w@),
{
    if !w.is_ascii() {
        proof {
            if is_word(w@) {
                assert forall|i: int| 0 <= i < w@.len() implies '\0' <= #[trigger] w@[i]
                    <= '\u{7f}' by {
                    assert(is_letter(w@[i]));
                }
            }
        }
        return false;
    }
    proof {
        is_ascii_spec_bytes(w);
    }
    let b = w.as_bytes();
    let mut i: usize = 0;
    while i < b.len()
        invariant
            i <= b@.len(),
            b@.len() == w@.len(),
            forall|j: int| 0 <= j < w@.len() ==> #[trigger] b@[j] == w@[j] as u8,
            forall|j: int| 0 <= j < w@.len() ==> '\0' <= #[trigger] w@[j] <= '\u{7f}',
            forall|j: int| 0 <= j < i ==> is_letter(#[trigger] w@[j]),
        decreases b@.len() - i,
    {
        let x: u8 = b[i];
        if !((x >= 97 && x <= 122) || (x >= 65 && x <= 90)) {
            assert(!is_letter(w@[i as int]));
            return false;
        }
        i += 1;
    }
    true
}

/// Lowercase form of the byte of a letter.
pub fn lower_byte(b: u8) -> (r: u8)
    requires
        is_letter(b as char),
    ensures
        r as char == lower(b as char),
        97 <= r <= 122,
{
    if b >= 65 && b <= 90 {
        b + 32
    } else {
        b
    }
}

/// Place in the alphabet of the letter with byte `b`.
pub fn bucket(b: u8) -> (k: usize)
    requires
        is_letter(b as char),
    ensures
        k == letter_index(b as char),
        k < ALPHABET,
{
    let l: u8 = lower_byte(b);
    (l - 97) as usize
}

/// The letters of a word: the entry at place `k` tells whether the letter at
/// place `k` of the alphabet occurs in `w`.
pub fn letter_set(w: &str) -> (present: [bool; ALPHABET])
    requires
        is_word(w@),
    ensures
        forall|k: int| 0 <= k < ALPHABET ==> #[trigger] present[k] == has_letter(w@, letter(k)),
{
    let b = word_bytes(w);
    let mut present: [bool; ALPHABET] = [false; ALPHABET];
    let mut i: usize = 0;
    while i < b.len()
        invariant
            i <= b@.len(),
            b@.len() == w@.len(),
            is_word(w@),
            forall|j: int| 0 <= j < w@.len() ==> #[trigger] b@[j] == w@[j] as u8,
            forall|k: int|
                0 <= k < ALPHABET ==> #[trigger] present[k] == has_letter(
                    w@.take(i as int),
                    letter(k),
                ),
        decreases b@.len() - i,
    {
        assert(is_letter(w@[i as int]));
        let k: usize = bucket(b[i]);
        proof {
            let prefix = w@.take(i as int);
            assert(w@.take(i + 1) =~= prefix.push(w@[i as int]));
            lemma_letter_index(w@[i as int]);
            assert forall|j: int| 0 <= j < ALPHABET implies (has_letter(
                w@.take(i + 1),
                #[trigger] letter(j),
            ) <==> has_letter(prefix, letter(j)) || j == k) by {
                lemma_has_letter_push(prefix, w@[i as int], letter(j));
                lemma_letter(j);
            }
        }
        present[k] = true;
        i += 1;
    }
    assert(w@.take(i as int) =~= w@);
    present
}

/// The lowercase form of a character: that of an uppercase ASCII letter, and
/// the character itself otherwise.
pub fn to_lower(c: char) -> (r: char)
    ensures
        r == lower(c),
{
    if 'A' <= c && c <= 'Z' {
        (c as u8 + 32) as char
    } else {
        c
    }
}

/// Whether every one of the strings is a word.
pub fn all_words(words: &Vec<&'static str>) -> (ok: bool)
    ensures
        ok == forall|i: int| 0 <= i < words@.len() ==> is_word((#[trigger] words@[i])@),
{
    let mut i: usize = 0;
    while i < words.len()
        invariant
            i <= words@.len(),
            forall|j: int| 0 <= j < i ==> is_word((#[trigger] words@[j])@),
        decreases words@.len() - i,
    {
        if !check_word(words[i]) {
            return false;
        }
        i += 1;
    }
    true
}

} // verus!
