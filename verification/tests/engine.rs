use wordle_lib::engine::all_hold;
use wordle_lib::{Engine, Inference, InferenceKind, Overlap};

fn pool() -> Vec<&'static str> {
    vec!["apple", "banan", "taple", "agora", "doggo"]
}

fn words_of(scored: &[(&'static str, Overlap)]) -> Vec<&'static str> {
    scored.iter().map(|entry| entry.0).collect()
}

#[test]
fn inference_engine() {
    let words = ["apple", "banan", "taple", "agora", "doggo"];
    let engine = Engine::<5>::new(words.to_vec());

    // Filter out any words that don't have an `a` in them.
    let words = engine.evaluate(&vec![Inference::new('a', 2, InferenceKind::Present)]);
    assert_eq!(words.len(), 4);

    // Overlaps:
    //
    // apple: 5 total, 4 letters.
    // banan: 0 total, 1 letters.
    // taple: 3 total, 4 letters.
    // agora: 1 total, 1 letters.
    // doggo: doesn't contain an A.
    //
    assert_eq!(words[0], ("apple", Overlap::new(9, 10)));

    // Overlaps:
    //
    // apple: 0 total, 1 letters.
    // banan: 5 total, 3 letters.
    // taple: 1 total, 1 letters.
    // agora: 0 total, 1 letters.
    // doggo: doesn't contain an A.
    //
    assert_eq!(words[1], ("banan", Overlap::new(6, 6)));
}

#[test]
fn engine_scores_every_valid_word() {
    let engine = Engine::<5>::new(pool());
    let scored = engine.evaluate(&[Inference::new('a', 2, InferenceKind::Present)]);

    assert_eq!(
        scored,
        vec![
            ("apple", Overlap::new(9, 10)),
            ("banan", Overlap::new(6, 6)),
            ("taple", Overlap::new(9, 11)),
            ("agora", Overlap::new(6, 7)),
        ]
    );
}

#[test]
fn engine_score_is_the_sum_of_the_overlaps_with_each_valid_word() {
    let engine = Engine::<5>::new(pool());
    let scored = engine.evaluate(&[Inference::new('a', 2, InferenceKind::Present)]);
    let valid = words_of(&scored);

    for (word, overlap) in &scored {
        let pairs: Vec<Overlap> = valid.iter().map(|v| Overlap::from_words(word, v)).collect();
        assert_eq!(*overlap, Overlap::sum(&pairs));
        assert!(overlap.total >= 5);
    }
}

#[test]
fn engine_keeps_the_words_of_its_length() {
    let engine = Engine::<3>::new(vec!["cat", "apple", "cot", "", "to", "toc", "zebra"]);
    let scored = engine.evaluate(&[]);

    assert_eq!(words_of(&scored), vec!["cat", "cot", "toc"]);
    assert_eq!(scored[0].1, Overlap::new(5, 7));
    assert_eq!(scored[1].1, Overlap::new(6, 8));
    assert_eq!(scored[2].1, Overlap::new(4, 8));
}

#[test]
fn engine_without_inferences_keeps_the_pool() {
    let engine = Engine::<5>::new(pool());

    assert_eq!(words_of(&engine.evaluate(&[])), pool());
}

#[test]
fn engine_of_no_words() {
    let engine = Engine::<5>::new(Vec::new());

    assert_eq!(engine.evaluate(&[]), vec![]);
    assert_eq!(engine.evaluate(&[Inference::new('a', 0, InferenceKind::Correct)]), vec![]);
}

#[test]
fn engine_more_inferences_never_add_a_word() {
    let engine = Engine::<5>::new(pool());
    let all = [
        Inference::new('a', 2, InferenceKind::Present),
        Inference::new('p', 2, InferenceKind::Correct),
        Inference::new('t', 0, InferenceKind::AbsentLocal),
        Inference::new('p', 0, InferenceKind::AtLeast(2)),
    ];

    let mut before = pool();
    for n in 0..=all.len() {
        let valid = words_of(&engine.evaluate(&all[..n]));
        assert!(valid.len() <= before.len());
        assert!(valid.iter().all(|w| before.contains(w)));
        before = valid;
    }
    assert_eq!(before, vec!["apple"]);
}

#[test]
fn engine_contradiction_leaves_no_word() {
    let engine = Engine::<5>::new(pool());

    for position in 0..5 {
        let scored = engine.evaluate(&[
            Inference::new('a', 0, InferenceKind::AbsentGlobal),
            Inference::new('a', position, InferenceKind::Present),
        ]);
        assert_eq!(scored, vec![]);
    }
    for letter in ['a', 'd', 'o', 'z'] {
        let scored = engine.evaluate(&[
            Inference::new(letter, 3, InferenceKind::Present),
            Inference::new(letter, 0, InferenceKind::AbsentGlobal),
        ]);
        assert_eq!(scored, vec![]);
    }
}

#[test]
fn engine_counts_a_repeated_letter_once() {
    let engine = Engine::<5>::new(vec!["aabbc"]);

    assert_eq!(engine.evaluate(&[]), vec![("aabbc", Overlap::new(5, 3))]);

    let engine = Engine::<5>::new(vec!["aabbc", "zzzza"]);
    assert_eq!(
        engine.evaluate(&[]),
        vec![("aabbc", Overlap::new(5, 4)), ("zzzza", Overlap::new(5, 3))]
    );
}

#[test]
fn engine_ignores_the_order_and_repetition_of_inferences() {
    let engine = Engine::<5>::new(pool());
    let a = Inference::new('a', 2, InferenceKind::Present);
    let b = Inference::new('p', 0, InferenceKind::AtLeast(1));

    let expected = vec![("apple", Overlap::new(8, 8)), ("taple", Overlap::new(8, 9))];
    assert_eq!(engine.evaluate(&[a, b]), expected);
    assert_eq!(engine.evaluate(&[b, a]), expected);
    assert_eq!(engine.evaluate(&[a, b, a, b, b]), expected);
}

#[test]
fn engine_ignores_case() {
    let engine = Engine::<5>::new(vec!["Apple", "BANAN", "taple"]);
    let scored = engine.evaluate(&[Inference::new('a', 0, InferenceKind::Correct)]);

    assert_eq!(scored, vec![("Apple", Overlap::new(5, 4))]);

    let scored = engine.evaluate(&[]);
    assert_eq!(
        scored,
        vec![
            ("Apple", Overlap::new(8, 9)),
            ("BANAN", Overlap::new(6, 5)),
            ("taple", Overlap::new(9, 10)),
        ]
    );
}

#[test]
fn all_hold_is_the_conjunction() {
    let a = Inference::new('a', 2, InferenceKind::Present);
    let p = Inference::new('p', 2, InferenceKind::Correct);

    assert!(all_hold(&[], "apple"));
    assert!(all_hold(&[a, p], "apple"));
    assert!(!all_hold(&[a, p], "agora"));
    assert!(!all_hold(&[p, a], "doggo"));
}

#[test]
fn try_new_takes_words_only() {
    let engine = Engine::<5>::try_new(pool()).expect("the pool holds words only");
    assert_eq!(words_of(&engine.evaluate(&[])), pool());

    assert!(Engine::<5>::try_new(vec!["apple", "can't", "zebra"]).is_none());
    assert!(Engine::<5>::try_new(vec!["apple", "x-ray"]).is_none());
    assert!(Engine::<5>::try_new(vec!["apple", "\u{e9}t\u{e9}"]).is_none());
    assert!(Engine::<5>::try_new(Vec::new()).is_some());
    assert!(Engine::<{ usize::MAX }>::try_new(vec!["a"]).is_some());
    assert!(Engine::<{ usize::MAX }>::try_new(vec!["a", "b"]).is_none());
}
