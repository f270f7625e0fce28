use wordle_lib::{Inference, InferenceKind};

#[test]
fn inference_filter_positive_partial() {
    // There should be an 'a' _somewhere_ in the word.
    let inference = Inference::new('a', 1, InferenceKind::Present);

    // note that `cat` is not a match because InferenceKind::Present won't match
    // an `a` at the same position as the inference.
    assert_eq!(inference.filter("cat"), false);

    // `tca` _is_ a match because it has an `a` not at position 1.
    assert_eq!(inference.filter("tca"), true);
    assert_eq!(inference.filter("dottttttg"), false);
    assert_eq!(inference.filter("tttttttta"), true);
    assert_eq!(inference.filter("aottttttttto"), true);
}

#[test]
fn inference_filter_positive_total() {
    // There should be an 'a' at a specific position in the word.
    let inference = Inference::new('a', 2, InferenceKind::Correct);

    assert_eq!(inference.filter("ammmmmm"), false);
    assert_eq!(inference.filter("zzzzzzz"), false);
    assert_eq!(inference.filter("thamm"), true);
    assert_eq!(inference.filter("ooaoa"), true);
}

#[test]
fn inference_filter_negative_partial() {
    // There isn't an 'a' at a given position in the word.
    let inference = Inference::new('a', 1, InferenceKind::AbsentLocal);

    // contains an `a` but not at position 1.
    assert_eq!(inference.filter("abbbbb"), true);
    assert_eq!(inference.filter("ccccc"), true);
    assert_eq!(inference.filter("tazzzz"), false);
    assert_eq!(inference.filter("aaaaa"), false);
    assert_eq!(inference.filter("pppa"), true);
}

#[test]
fn inference_filter_negative_total() {
    // There is no 'a' anywhere in the word.
    let inference = Inference::new('a', 0, InferenceKind::AbsentGlobal);

    assert_eq!(inference.filter("bbbbbbb"), true);
    assert_eq!(inference.filter("abbbbb"), false);
    assert_eq!(inference.filter("bbbbba"), false);
    assert_eq!(inference.filter("cdefghi"), true);
}

#[test]
fn inference_filter_count() {
    // There is exactly two `a`'s in the word.
    let inference = Inference::new('a', 2, InferenceKind::Count(2));

    assert_eq!(inference.filter("bbbb"), false);
    assert_eq!(inference.filter("abbb"), false);
    assert_eq!(inference.filter("aabb"), true);
    assert_eq!(inference.filter("bbaa"), true);
    assert_eq!(inference.filter("aaab"), false);
    assert_eq!(inference.filter("bbba"), false);
}

#[test]
fn inference_filter_at_least() {
    let inference = Inference::new('a', 0, InferenceKind::AtLeast(2));

    assert_eq!(inference.filter("bbbb"), false);
    assert_eq!(inference.filter("abbb"), false);
    assert_eq!(inference.filter("aabb"), true);
    assert_eq!(inference.filter("abab"), true);
    assert_eq!(inference.filter("aaab"), true);
    assert_eq!(inference.filter("aaaa"), true);
}

#[test]
fn inference_filter_at_least_zero_holds_of_every_word() {
    let inference = Inference::new('q', 0, InferenceKind::AtLeast(0));

    assert_eq!(inference.filter("bbbb"), true);
    assert_eq!(inference.filter("q"), true);
}

#[test]
fn inference_filter_count_zero_is_absence() {
    let count = Inference::new('a', 0, InferenceKind::Count(0));
    let absent = Inference::new('a', 0, InferenceKind::AbsentGlobal);

    for word in ["bbbb", "abbb", "bbba", "zzzz"] {
        assert_eq!(count.filter(word), absent.filter(word));
    }
}

#[test]
fn inference_filter_counts_the_letter_of_the_inference() {
    // The letter at the position of the inference is `b`; the count is of `a`.
    let inference = Inference::new('a', 2, InferenceKind::Count(1));

    assert_eq!(inference.filter("aabb"), false);
    assert_eq!(inference.filter("abbb"), true);
    assert_eq!(inference.filter("bbbb"), false);
}

#[test]
fn inference_filter_ignores_case_in_the_word() {
    assert_eq!(Inference::new('a', 2, InferenceKind::Correct).filter("thAmm"), true);
    assert_eq!(Inference::new('a', 1, InferenceKind::Present).filter("TCA"), true);
    assert_eq!(Inference::new('a', 1, InferenceKind::Present).filter("CAT"), false);
    assert_eq!(Inference::new('a', 0, InferenceKind::AbsentGlobal).filter("bbbA"), false);
    assert_eq!(Inference::new('a', 1, InferenceKind::AbsentLocal).filter("tAzz"), false);
    assert_eq!(Inference::new('a', 0, InferenceKind::Count(2)).filter("AbaB"), true);
    assert_eq!(Inference::new('a', 0, InferenceKind::AtLeast(3)).filter("AbaB"), false);
}

#[test]
fn inference_present_at_the_last_position() {
    let inference = Inference::new('e', 4, InferenceKind::Present);

    assert_eq!(inference.filter("apple"), false);
    assert_eq!(inference.filter("enter"), true);
    assert_eq!(inference.filter("zzzzz"), false);
}

#[test]
fn inferences_are_equal_by_their_parts() {
    let inference = Inference::new('a', 2, InferenceKind::Count(2));

    assert_eq!(inference, Inference::new('a', 2, InferenceKind::Count(2)));
    assert_ne!(inference, Inference::new('a', 2, InferenceKind::AtLeast(2)));
    assert_ne!(inference, Inference::new('a', 2, InferenceKind::Count(3)));
    assert_ne!(inference, Inference::new('a', 3, InferenceKind::Count(2)));
    assert_ne!(inference, Inference::new('b', 2, InferenceKind::Count(2)));
    assert_eq!(inference.c, 'a');
    assert_eq!(inference.position, 2);
    assert_eq!(inference.kind, InferenceKind::Count(2));
}

#[test]
fn absent_and_present_are_never_met_together() {
    let absent = Inference::new('a', 0, InferenceKind::AbsentGlobal);

    for position in 0..5 {
        let present = Inference::new('a', position, InferenceKind::Present);
        for word in ["apple", "banan", "taple", "agora", "doggo", "zzzzz", "aaaaa"] {
            assert!(!(absent.filter(word) && present.filter(word)));
        }
    }
}
