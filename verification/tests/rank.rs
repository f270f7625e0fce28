use wordle_lib::rank::{goes_before, in_order, rank, select};
use wordle_lib::{Engine, Inference, InferenceKind, Overlap};

fn scored() -> Vec<(&'static str, Overlap)> {
    vec![
        ("apple", Overlap::new(9, 10)),
        ("banan", Overlap::new(6, 6)),
        ("taple", Overlap::new(9, 11)),
        ("agora", Overlap::new(6, 7)),
    ]
}

#[test]
fn rank_sorts_by_key_and_then_by_word() {
    // Keys: apple 12, banan 8, taple 12, agora 8.
    assert_eq!(rank(&scored(), 20), vec!["apple", "taple", "agora", "banan"]);
}

#[test]
fn rank_keeps_the_first_k() {
    assert_eq!(rank(&scored(), 4), vec!["apple", "taple", "agora", "banan"]);
    assert_eq!(rank(&scored(), 3), vec!["apple", "taple", "agora"]);
    assert_eq!(rank(&scored(), 2), vec!["apple", "taple"]);
    assert_eq!(rank(&scored(), 1), vec!["apple"]);
    assert_eq!(rank(&scored(), 0), Vec::<String>::new());
}

#[test]
fn rank_of_no_words() {
    assert_eq!(rank(&Vec::new(), 20), Vec::<String>::new());
}

#[test]
fn rank_key_is_the_total_and_a_third_of_the_partial() {
    // 3 + 8 / 3 = 5 goes before 4 + 2 / 3 = 4; 2 + 9 / 3 = 5 ties with the first.
    let scored = vec![
        ("bbb", Overlap::new(4, 2)),
        ("ccc", Overlap::new(3, 8)),
        ("aaa", Overlap::new(2, 9)),
        ("ddd", Overlap::new(4, 3)),
    ];

    assert_eq!(rank(&scored, 20), vec!["aaa", "ccc", "ddd", "bbb"]);
}

#[test]
fn rank_breaks_ties_in_the_order_of_the_dictionary() {
    let scored = vec![
        ("pear", Overlap::new(1, 0)),
        ("peach", Overlap::new(1, 0)),
        ("pea", Overlap::new(1, 2)),
        ("apple", Overlap::new(1, 1)),
        ("Zebra", Overlap::new(1, 0)),
    ];

    assert_eq!(rank(&scored, 20), vec!["Zebra", "apple", "pea", "peach", "pear"]);
}

#[test]
fn rank_is_the_same_on_every_run_and_for_every_order() {
    let expected = vec!["apple", "taple", "agora", "banan"];
    let entries = scored();

    for _ in 0..3 {
        assert_eq!(rank(&entries, 20), expected);
    }
    for a in 0..4 {
        for b in 0..4 {
            let mut shuffled = entries.clone();
            shuffled.swap(a, b);
            assert_eq!(rank(&shuffled, 20), expected);
            assert_eq!(rank(&shuffled, 2), vec!["apple", "taple"]);
        }
    }
}

#[test]
fn rank_agrees_with_a_sort() {
    let engine = Engine::<3>::new(vec![
        "cat", "cot", "toc", "act", "tac", "dog", "god", "cog", "tag", "gat", "oat", "cab",
    ]);
    let scored = engine.evaluate(&[Inference::new('q', 0, InferenceKind::AbsentGlobal)]);
    assert_eq!(scored.len(), 12);

    let mut sorted = scored.clone();
    sorted.sort_by(|a, b| {
        let ka = a.1.total + a.1.partial / 3;
        let kb = b.1.total + b.1.partial / 3;
        kb.cmp(&ka).then(a.0.cmp(b.0))
    });
    let expected: Vec<String> = sorted.iter().map(|entry| String::from(entry.0)).collect();

    for k in 0..14 {
        let first: Vec<String> = expected.iter().take(k).cloned().collect();
        assert_eq!(rank(&scored, k), first);
    }
}

#[test]
fn rank_keeps_words_that_are_given_twice() {
    let scored = vec![
        ("bbb", Overlap::new(4, 2)),
        ("aaa", Overlap::new(4, 0)),
        ("bbb", Overlap::new(3, 3)),
        ("bbb", Overlap::new(4, 2)),
    ];

    assert_eq!(rank(&scored, 20), vec!["aaa", "bbb", "bbb", "bbb"]);
    assert_eq!(rank(&scored, 2), vec!["aaa", "bbb"]);
}

#[test]
fn select_keeps_the_overlaps() {
    assert_eq!(
        select(&scored(), 3),
        vec![
            ("apple", Overlap::new(9, 10)),
            ("taple", Overlap::new(9, 11)),
            ("agora", Overlap::new(6, 7)),
        ]
    );
}

#[test]
fn in_order_is_the_order_of_the_dictionary() {
    assert!(in_order("", ""));
    assert!(in_order("", "a"));
    assert!(!in_order("a", ""));
    assert!(in_order("apple", "apple"));
    assert!(in_order("apple", "apples"));
    assert!(!in_order("apples", "apple"));
    assert!(in_order("apple", "apply"));
    assert!(!in_order("apply", "apple"));
    assert!(in_order("Zebra", "apple"));
    assert!(!in_order("b", "apple"));

    let words = ["", "a", "ab", "abc", "b", "ba", "Z", "Za", "z"];
    for a in words {
        for b in words {
            assert_eq!(in_order(a, b), a <= b);
        }
    }
}

#[test]
fn goes_before_puts_the_greater_key_first() {
    let high = ("zzz", Overlap::new(5, 0));
    let low = ("aaa", Overlap::new(4, 2));
    let tied = ("mmm", Overlap::new(4, 3));

    assert!(goes_before(&high, &low));
    assert!(!goes_before(&low, &high));
    assert!(goes_before(&tied, &high));
    assert!(!goes_before(&high, &tied));
    assert!(goes_before(&high, &high));
    assert!(goes_before(&tied, &low));
    assert!(!goes_before(&low, &tied));
}

#[test]
fn goes_before_holds_the_largest_counters() {
    let most = ("aaa", Overlap::new(usize::MAX, usize::MAX));
    let less = ("aaa", Overlap::new(usize::MAX, usize::MAX - 3));

    assert!(goes_before(&most, &less));
    assert!(!goes_before(&less, &most));
    assert_eq!(rank(&vec![less, most], 1), vec!["aaa"]);
}
