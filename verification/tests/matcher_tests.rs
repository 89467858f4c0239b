use odds::matcher::{assignment_total, fuzzy_match, strong_kind, Matchkind};

fn kind(name: &str, token: &str) -> Option<&'static str> {
    strong_kind(name, token).map(|k| match k {
        Matchkind::Exact => "exact",
        Matchkind::Prefix => "prefix",
        Matchkind::Substring => "substring",
        Matchkind::Fuzzy => "fuzzy",
    })
}

#[test]
fn strong_kinds() {
    assert_eq!(kind("config", "config"), Some("exact"));
    assert_eq!(kind("config", "con"), Some("prefix"));
    assert_eq!(kind("myconfig", "con"), Some("substring"));
    assert_eq!(kind("config", "xyz"), None);
    assert_eq!(kind("con", "config"), None);
    assert_eq!(kind("config", ""), Some("prefix"));
    assert_eq!(kind("", ""), Some("exact"));
}

#[test]
fn fuzzy_scores_in_half_points() {
    // "cfg" in "config": c at 0 (+10), f at 3 (+10 -2), g at 5 (+10 -1) = 27
    assert_eq!(fuzzy_match("config", "cfg"), Some(54));
    // consecutive characters earn the bonus: 10 + 25 = 35
    assert_eq!(fuzzy_match("config", "co"), Some(70));
    // the first match costs half a point per skipped character: 10 - 1.5
    assert_eq!(fuzzy_match("abcx", "x"), Some(17));
    assert_eq!(fuzzy_match("config", "xyz"), None);
    assert_eq!(fuzzy_match("config", ""), None);
    assert_eq!(fuzzy_match("", "a"), None);
}

#[test]
fn fuzzy_score_is_at_least_one_point() {
    // a late first match drives the score below one point: it is raised to 1
    let name = format!("{}x", "a".repeat(40));
    assert_eq!(fuzzy_match(&name, "x"), Some(2));
}

#[test]
fn assignment_picks_the_best_total() {
    // rows: tokens "con", "pro"; columns: "/", "project", "config"
    let cells = vec![vec![0, 0, 350], vec![0, 300, 0]];
    assert_eq!(assignment_total(&cells, 3), Some(650));
}

#[test]
fn assignment_beats_greedy() {
    let cells = vec![vec![10, 9], vec![9, 1]];
    assert_eq!(assignment_total(&cells, 2), Some(18));
}

#[test]
fn assignment_order_of_tokens_does_not_matter() {
    let a = vec![vec![0, 700, 0, 1000], vec![0, 0, 0, 1000]];
    let b = vec![vec![0, 0, 0, 1000], vec![0, 700, 0, 1000]];
    assert_eq!(assignment_total(&a, 4), assignment_total(&b, 4));
}

#[test]
fn surplus_tokens_compete_for_segments() {
    // three tokens, two segments: each segment takes its best distinct token
    let cells = vec![vec![500, 0], vec![0, 700], vec![1000, 1000]];
    assert_eq!(assignment_total(&cells, 2), Some(1700));
}

#[test]
fn order_of_surplus_tokens_does_not_matter() {
    assert_eq!(assignment_total(&vec![vec![0], vec![5]], 1), Some(5));
    assert_eq!(assignment_total(&vec![vec![5], vec![0]], 1), Some(5));
    // tokens "xyz", "foo", "api" against the segments "/", "api"
    let a = vec![vec![0, 0], vec![0, 0], vec![0, 1000]];
    let b = vec![vec![0, 1000], vec![0, 0], vec![0, 0]];
    assert_eq!(assignment_total(&a, 2), Some(1000));
    assert_eq!(assignment_total(&b, 2), Some(1000));
}

#[test]
fn no_tokens_no_segments_or_no_match() {
    assert_eq!(assignment_total(&vec![], 3), None);
    assert_eq!(assignment_total(&vec![vec![]], 0), None);
    assert_eq!(assignment_total(&vec![vec![0, 0]], 2), None);
}
