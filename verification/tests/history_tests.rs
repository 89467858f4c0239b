use odds::history::{path_is_absolute, History, HistoryEntry};
use odds::markov::Markov;
use odds::seeder::{merge_history, merge_session};

#[test]
fn record_visit_counts_and_stamps() {
    let mut history = History::new();
    history.record_visit_at("/a", 100);
    history.record_visit_at("/b", 150);
    history.record_visit_at("/a", 200);
    assert_eq!(history.visit_count("/a"), 2);
    assert_eq!(history.visit_count("/b"), 1);
    assert_eq!(history.visit_count("/c"), 0);
    assert_eq!(history.seconds_since_last_visit_at("/a", 260), Some(60));
    assert_eq!(history.seconds_since_last_visit_at("/b", 100), Some(0));
    assert_eq!(history.seconds_since_last_visit_at("/c", 100), None);
    assert_eq!(history.entries.len(), 2);
}

#[test]
fn record_visit_uses_the_clock() {
    let mut history = History::default();
    history.record_visit("/a");
    assert_eq!(history.visit_count("/a"), 1);
    assert!(history.seconds_since_last_visit("/a").is_some());
    assert!(history.seconds_since_last_visit("/b").is_none());
}

#[test]
fn first_entry_wins_for_duplicates() {
    let history = History {
        entries: vec![
            HistoryEntry { path: "/a".to_string(), visits: 3, last_visited: 10 },
            HistoryEntry { path: "/a".to_string(), visits: 7, last_visited: 20 },
        ],
        chain: Markov::default(),
    };
    assert_eq!(history.visit_count("/a"), 3);
    assert_eq!(history.seconds_since_last_visit_at("/a", 30), Some(20));
}

#[test]
fn register_markov_chain_needs_absolute_paths() {
    let mut history = History::new();
    history.register_markov_chain("/a", "/b");
    history.register_markov_chain("a", "/b");
    history.register_markov_chain("/a", "b");
    history.register_markov_chain("/a", "/a");
    assert_eq!(history.transition_count(), 1);
    assert_eq!(history.chain.probability_parts(&[], "/a", "/b"), (1, 1));
}

#[test]
fn absolute_paths() {
    assert!(path_is_absolute("/"));
    assert!(path_is_absolute("/home"));
    assert!(!path_is_absolute("home"));
    assert!(!path_is_absolute(""));
}

#[test]
fn merge_history_counts_each_occurrence() {
    let mut history = History::new();
    history.record_visit_at("/a", 5);
    let paths = vec!["/a".to_string(), "/b".to_string(), "/a".to_string()];
    merge_history(&mut history, &paths, 99);
    assert_eq!(history.visit_count("/a"), 3);
    assert_eq!(history.visit_count("/b"), 1);
    // known directories keep their last visit; new ones get `now`
    assert_eq!(history.seconds_since_last_visit_at("/a", 105), Some(100));
    assert_eq!(history.seconds_since_last_visit_at("/b", 100), Some(1));
}

#[test]
fn merge_session_records_consecutive_moves() {
    let mut history = History::new();
    let paths = vec!["/a".to_string(), "/b".to_string(), "/a".to_string(), "/b".to_string(), "/c".to_string()];
    merge_session(&mut history, &paths);
    assert_eq!(history.chain.probability_parts(&[], "/a", "/b"), (2, 2));
    assert_eq!(history.chain.probability_parts(&[], "/b", "/a"), (1, 2));
    assert_eq!(history.chain.probability_parts(&[], "/b", "/c"), (1, 2));
    assert_eq!(history.transition_count(), 3);
}
