use odds::markov::{Markov, MarkovEntry, MARKOV_N};

fn p(s: &str) -> String {
    s.to_string()
}

/// The probability that `probability_parts` stands for.
fn probability(markov: &Markov, context: &[&str], from: &str, to: &str) -> f32 {
    let (count, total) = markov.probability_parts(context, from, to);
    if total > 0 {
        count as f32 / total as f32
    } else {
        0.0
    }
}

#[test]
fn bigram_records_transition() {
    let mut markov = Markov::default();
    markov.register(&[], &p("/home/user/projects"), &p("/home/user/projects/odds"));

    assert_eq!(
        probability(&markov, &[], "/home/user/projects", "/home/user/projects/odds"),
        1.0
    );
}

#[test]
fn trigram_takes_priority_over_bigram() {
    let mut markov = Markov::default();
    markov.register(&[], &p("/home/user/projects"), &p("/home/user/projects/odds"));
    markov.register(&[p("/home/user")], &p("/home/user/projects"), &p("/home/user/projects/api"));

    // with trigram context, api should win
    let prob = probability(&markov, &["/home/user"], "/home/user/projects", "/home/user/projects/api");
    assert_eq!(prob, 1.0, "trigram should exclusively predict api given home context");

    // without context, bigram is ambiguous
    let prob = probability(&markov, &[], "/home/user/projects", "/home/user/projects/odds");
    assert_eq!(prob, 0.5, "bigram should be exactly ambiguous with two equal destinations");
}

#[test]
fn falls_back_to_bigram_when_no_trigram_data() {
    let mut markov = Markov::default();
    markov.register(&[], &p("/home/user/projects"), &p("/home/user/projects/odds"));

    // trigram context provided but no trigram data exists — should fall back to bigram
    let prob = probability(&markov, &["/home/user"], "/home/user/projects", "/home/user/projects/odds");
    assert_eq!(prob, 1.0, "should fall back to bigram probability of 1.0");
}

#[test]
fn unknown_transition_returns_zero() {
    let markov = Markov::default();
    assert_eq!(
        probability(&markov, &[], "/home/user", "/home/user/projects"),
        0.0,
        "unknown transition should return 0.0"
    );
}

#[test]
fn transition_count_includes_all_ngrams() {
    let mut markov = Markov::default();
    markov.register(&[], &p("/home/user"), &p("/home/user/projects"));
    markov.register(&[p("/home")], &p("/home/user"), &p("/home/user/projects"));

    // Each register call records MARKOV_N entries so count > number of register calls
    assert!(markov.transition_count() > 0);
}

#[test]
fn probabilities_sum_to_one() {
    let mut markov = Markov::default();
    markov.register(&[], &p("/home/user"), &p("/home/user/projects"));
    markov.register(&[], &p("/home/user"), &p("/home/user/downloads"));
    markov.register(&[], &p("/home/user"), &p("/home/user/.config"));

    let p1 = probability(&markov, &[], "/home/user", "/home/user/projects");
    let p2 = probability(&markov, &[], "/home/user", "/home/user/downloads");
    let p3 = probability(&markov, &[], "/home/user", "/home/user/.config");

    assert!(
        (p1 + p2 + p3 - 1.0).abs() < 0.001,
        "probabilities should sum to 1.0, got {}",
        p1 + p2 + p3
    );
}

#[test]
fn parts_of_a_single_move_are_one_of_one() {
    let mut markov = Markov::new();
    markov.register(&[], "/a", "/b");
    assert_eq!(markov.probability_parts(&[], "/a", "/b"), (1, 1));
    assert_eq!(markov.probability_parts(&[], "/a", "/c"), (0, 1));
    assert_eq!(markov.probability_parts(&[], "/b", "/a"), (0, 0));
}

#[test]
fn move_to_same_directory_is_not_recorded() {
    let mut markov = Markov::new();
    markov.register(&[p("/x")], "/a", "/a");
    assert_eq!(markov.transition_count(), 0);
    assert_eq!(markov.probability_parts(&[], "/a", "/a"), (0, 0));
}

#[test]
fn full_context_records_every_ngram() {
    let mut markov = Markov::new();
    let context = [p("/1"), p("/2"), p("/3"), p("/4")];
    markov.register(&context, "/from", "/to");
    // keys of length 1 to MARKOV_N
    assert_eq!(markov.transition_count(), MARKOV_N);
    let keys: Vec<Vec<String>> = markov.as_slice().iter().map(|e| e.key.clone()).collect();
    assert!(keys.contains(&vec![p("/from")]));
    assert!(keys.contains(&vec![p("/4"), p("/from")]));
    assert!(keys.contains(&vec![p("/3"), p("/4"), p("/from")]));
    assert!(keys.contains(&vec![p("/2"), p("/3"), p("/4"), p("/from")]));
}

#[test]
fn short_context_records_only_available_ngrams() {
    let mut markov = Markov::new();
    markov.register(&[p("/1")], "/from", "/to");
    assert_eq!(markov.transition_count(), 2);
}

#[test]
fn repeated_move_counts_up() {
    let mut markov = Markov::new();
    markov.register(&[], "/a", "/b");
    markov.register(&[], "/a", "/b");
    markov.register(&[], "/a", "/c");
    assert_eq!(markov.probability_parts(&[], "/a", "/b"), (2, 3));
    assert_eq!(markov.transition_count(), 2);
}

#[test]
fn build_key_takes_last_context_entries() {
    let markov = Markov::new();
    let context = [p("/1"), p("/2"), p("/3")];
    assert_eq!(markov.build_key(&context, "/f", 2), vec![p("/3"), p("/f")]);
    assert_eq!(markov.build_key(&context, "/f", 1), vec![p("/f")]);
    assert_eq!(markov.build_key(&[], "/f", 3), vec![p("/f")]);
    assert_eq!(markov.build_key_str(&["/1", "/2"], "/f", 4), vec![p("/1"), p("/2"), p("/f")]);
}

#[test]
fn full_count_cannot_take_another_move() {
    let mut markov = Markov::default();
    markov.register(&[], "/a", "/b");
    assert!(markov.can_register(&[], "/a", "/b"));
    let markov = Markov::restore(vec![MarkovEntry { key: vec![p("/a")], to: p("/b"), count: usize::MAX }]);
    assert!(!markov.can_register(&[], "/a", "/b"));
    // the bigram key is counted whatever the context
    assert!(!markov.can_register(&[p("/z")], "/a", "/b"));
    assert!(markov.can_register(&[], "/a", "/c"));
    // a move to the same directory counts nothing
    assert!(markov.can_register(&[], "/a", "/a"));
}
