use odds::cli::manual_index;
use odds::history::History;
use odds::register::{can_register_visit, register_visit};
use odds::markov::{Markov, MarkovEntry};
use odds::session::{Session, SessionEntry};

/// History and session as the program keeps them between calls, in memory.
struct Env {
    history: History,
    session: Session,
    now: u64,
}

impl Env {
    fn new() -> Self {
        Env { history: History::new(), session: Session::new_at(0), now: 1_000_000 }
    }

    fn register(&mut self, to: &str) {
        self.now += 1;
        register_visit(&mut self.history, &mut self.session, to, to, self.now);
    }

    fn probability(&self, context: &[&str], from: &str, to: &str) -> f32 {
        let (count, total) = self.history.chain.probability_parts(context, from, to);
        if total > 0 {
            count as f32 / total as f32
        } else {
            0.0
        }
    }
}

/// Walks `journey` `times` times, each walk in a fresh session stack.
fn simulate_journey(env: &mut Env, journey: &[&str], times: usize) {
    for _ in 0..times {
        env.session = Session::new_at(env.now);
        for path in journey {
            env.register(path);
        }
    }
}

#[test]
fn markov_predicts_next_directory() {
    let mut env = Env::new();

    simulate_journey(
        &mut env,
        &["/home/user/Projects", "/home/user/Projects/odds", "/home/user/Projects/odds/src"],
        40,
    );
    simulate_journey(&mut env, &["/home/user/Projects", "/home/user/Projects/other"], 5);

    let prob_odds = env.probability(&[], "/home/user/Projects", "/home/user/Projects/odds");
    let prob_other = env.probability(&[], "/home/user/Projects", "/home/user/Projects/other");

    assert!(prob_odds > prob_other);
}

#[test]
fn trigram_improves_prediction_over_bigram() {
    let mut env = Env::new();

    simulate_journey(&mut env, &["/home/user", "/home/user/Projects", "/home/user/Projects/odds"], 30);
    simulate_journey(&mut env, &["/home/user/.config", "/home/user/Projects", "/home/user/Projects/other"], 30);

    let bigram_odds = env.probability(&[], "/home/user/Projects", "/home/user/Projects/odds");
    assert_eq!(bigram_odds, 0.5, "bigram should be exactly ambiguous");

    let trigram_odds_from_home = env.probability(&["/home/user"], "/home/user/Projects", "/home/user/Projects/odds");
    assert!(
        trigram_odds_from_home > 0.8,
        "trigram from home should strongly predict odds: {}",
        trigram_odds_from_home
    );
}

#[test]
fn navigator_tests_manual_valid_choice() {
    let candidates = 2;

    let index = manual_index(candidates, 2);

    assert_eq!(index, Some(1));
}

#[test]
fn navigator_tests_manual_out_of_bounds() {
    let candidates = 1;

    let index = manual_index(candidates, 5);

    assert_eq!(index, None);
}

#[test]
fn visit_at_full_count_cannot_be_registered() {
    let mut history = History::new();
    let mut session = Session::new_at(0);
    register_visit(&mut history, &mut session, "/a", "/a", 1);
    register_visit(&mut history, &mut session, "/b", "/b", 2);
    register_visit(&mut history, &mut session, "/a", "/a", 3);
    assert!(can_register_visit(&history, &session, "/b", "/b"));

    // a session whose move /a -> /b is full
    let moves = Markov::restore(vec![MarkovEntry { key: vec!["/a".to_string()], to: "/b".to_string(), count: usize::MAX }]);
    let full = Session::restore(
        10,
        vec![SessionEntry { path: "/a".to_string() }, SessionEntry { path: "/b".to_string() }],
        0,
        moves,
    );
    assert!(!can_register_visit(&history, &full, "/b", "/b"));
    assert!(can_register_visit(&history, &full, "/c", "/c"));

    // the visits of /b are full
    history.entries[1].visits = usize::MAX;
    assert!(!can_register_visit(&history, &session, "/b", "/b"));
    assert!(can_register_visit(&history, &session, "/c", "/c"));
}
