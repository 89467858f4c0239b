use odds::cache::FsCache;
use odds::discovery::Walk;
use odds::cli::{manual_index, parse_choice, plan_query, Cli, QueryPlan, BASH_EXTRA, BASH_ZSH_SCRIPT, ZSH_EXTRA};
use odds::history::History;
use odds::ranking::ranked_order;
use odds::register::register_visit;
use odds::session::Session;
use odds::text::{decimal_string, format_duration};

#[test]
fn ranked_order_is_stable_and_cut() {
    assert_eq!(ranked_order(&vec![3, 7, 3, 9, 7], 10), vec![3, 1, 4, 0, 2]);
    assert_eq!(ranked_order(&vec![3, 7, 3, 9, 7], 2), vec![3, 1]);
    assert_eq!(ranked_order(&vec![], 2), Vec::<usize>::new());
    assert_eq!(ranked_order(&vec![-1, -5, 0], 0), Vec::<usize>::new());
}

#[test]
fn manual_choice() {
    assert_eq!(manual_index(2, 2), Some(1));
    assert_eq!(manual_index(1, 5), None);
    assert_eq!(manual_index(3, 0), None);
}

#[test]
fn query_plans() {
    assert!(matches!(plan_query(&[]), QueryPlan::Home));
    assert!(matches!(plan_query(&["-".to_string()]), QueryPlan::Previous));
    assert!(matches!(plan_query(&["src".to_string()]), QueryPlan::Search));
    assert!(matches!(plan_query(&["-".to_string(), "x".to_string()]), QueryPlan::Search));
}

#[test]
fn init_scripts() {
    assert_eq!(Cli::init_script("bash"), Some(format!("{}{}", BASH_ZSH_SCRIPT, BASH_EXTRA)));
    assert_eq!(Cli::init_script("zsh"), Some(format!("{}{}", BASH_ZSH_SCRIPT, ZSH_EXTRA)));
    assert_eq!(Cli::init_script("fish"), None);
}

#[test]
fn durations() {
    assert_eq!(format_duration(0), "just now");
    assert_eq!(format_duration(59), "just now");
    assert_eq!(format_duration(60), "1 minutes ago");
    assert_eq!(format_duration(3599), "59 minutes ago");
    assert_eq!(format_duration(7200), "2 hours ago");
    assert_eq!(format_duration(86400 * 12 + 5), "12 days ago");
}

#[test]
fn decimals() {
    assert_eq!(decimal_string(0), "0");
    assert_eq!(decimal_string(1204), "1204");
    assert_eq!(decimal_string(u64::MAX), u64::MAX.to_string());
}

#[test]
fn cache_read_after_write() {
    let mut cache = FsCache::new();
    assert_eq!(cache.get("/a"), None);
    cache.insert("/a", &vec!["/a/x".to_string(), "/a/y".to_string()]);
    cache.insert("/b", &vec![]);
    assert_eq!(cache.get("/a"), Some(vec!["/a/x".to_string(), "/a/y".to_string()]));
    assert_eq!(cache.get("/b"), Some(vec![]));
    cache.insert("/a", &vec!["/a/z".to_string()]);
    assert_eq!(cache.get("/a"), Some(vec!["/a/z".to_string()]));
}

#[test]
fn register_visit_updates_history_and_session() {
    let mut history = History::new();
    let mut session = Session::new_at(0);
    register_visit(&mut history, &mut session, "/home", "/home", 10);
    register_visit(&mut history, &mut session, "/home/p", "/home/p", 20);
    register_visit(&mut history, &mut session, "/home/p/odds", "/home/p/odds", 30);
    assert_eq!(history.visit_count("/home/p"), 1);
    assert_eq!(session.current().map(|p| p.as_str()), Some("/home/p/odds"));
    // bigram and trigram recorded for the last move
    assert_eq!(history.chain.probability_parts(&[], "/home/p", "/home/p/odds"), (1, 1));
    assert_eq!(history.chain.probability_parts(&["/home"], "/home/p", "/home/p/odds"), (1, 1));
    assert_eq!(history.transition_count(), 3);
}

#[test]
fn walk_goes_level_by_level_without_repeats() {
    let roots = vec!["/r".to_string(), "/s".to_string(), "/r".to_string()];
    let mut walk = Walk::new(&roots, 2, 5);
    assert!(!walk.is_finished());
    assert_eq!(walk.pop_dir(), Some("/r".to_string()));
    assert!(walk.visit("/r/a"));
    assert!(!walk.visit("/r/a"));
    assert!(!walk.visit("/s"));
    walk.found(true);
    assert_eq!(walk.pop_dir(), Some("/s".to_string()));
    assert!(walk.visit("/s/b"));
    // level 1 is done: level 2 lists what level 1 found
    assert_eq!(walk.pop_dir(), None);
    assert!(!walk.is_finished());
    assert_eq!(walk.pop_dir(), Some("/r/a".to_string()));
    // at the deepest level nothing more is queued
    assert!(walk.visit("/r/a/c"));
    assert_eq!(walk.pop_dir(), Some("/s/b".to_string()));
    assert_eq!(walk.pop_dir(), None);
    assert!(walk.is_finished());
}

#[test]
fn walk_stops_after_enough_strong_matches() {
    let mut walk = Walk::new(&vec!["/r".to_string()], 5, 1);
    assert_eq!(walk.pop_dir(), Some("/r".to_string()));
    assert!(walk.visit("/r/a"));
    walk.found(true);
    assert_eq!(walk.pop_dir(), None);
    assert!(walk.is_finished());
}

#[test]
fn walk_with_no_depth_is_over() {
    let walk = Walk::new(&vec!["/r".to_string()], 0, 1);
    assert!(walk.is_finished());
}

#[test]
fn picker_input_parsing() {
    assert_eq!(parse_choice("2\n"), Some(2));
    assert_eq!(parse_choice("  +17 "), Some(17));
    assert_eq!(parse_choice("007"), Some(7));
    assert_eq!(parse_choice(""), None);
    assert_eq!(parse_choice("+"), None);
    assert_eq!(parse_choice("-1"), None);
    assert_eq!(parse_choice("1 2"), None);
    assert_eq!(parse_choice("x"), None);
    assert_eq!(parse_choice("18446744073709551615"), Some(usize::MAX));
    assert_eq!(parse_choice("18446744073709551616"), None);
    assert_eq!(parse_choice("99999999999999999999x"), None);
}
