use odds::session::{Session, SessionStack, MAX_SIZE};

fn paths(s: &Session) -> Vec<String> {
    s.list().iter().map(|e| e.path.clone()).collect()
}

#[test]
fn push_moves_to_front_without_repeats() {
    let mut s = Session::new_at(0);
    s.push("/a");
    s.push("/b");
    s.push("/c");
    s.push("/a");
    assert_eq!(paths(&s), vec!["/a", "/c", "/b"]);
    assert_eq!(s.current().map(|p| p.as_str()), Some("/a"));
    assert_eq!(s.previous().map(|p| p.as_str()), Some("/c"));
    assert!(s.contains("/b"));
    assert!(!s.contains("/d"));
}

#[test]
fn push_of_current_is_a_no_op() {
    let mut s = Session::new_at(0);
    s.push("/a");
    s.push("/b");
    s.push("/b");
    assert_eq!(paths(&s), vec!["/b", "/a"]);
    assert_eq!(s.chain().transition_count(), 1);
}

#[test]
fn push_keeps_at_most_max_size() {
    let mut s = Session::new_at(0);
    assert_eq!(s.max_size(), MAX_SIZE);
    for i in 0..15 {
        s.push(&format!("/d{}", i));
    }
    assert_eq!(s.list().len(), MAX_SIZE);
    assert_eq!(s.current().map(|p| p.as_str()), Some("/d14"));
    assert_eq!(paths(&s)[MAX_SIZE - 1], "/d5");
}

#[test]
fn session_chain_counts_moves() {
    let mut s = Session::new_at(0);
    s.push("/a");
    s.push("/b");
    s.push("/a");
    s.push("/b");
    assert_eq!(s.chain().probability_parts(&[], "/a", "/b"), (2, 2));
    assert_eq!(s.chain().probability_parts(&[], "/b", "/a"), (1, 1));
}

#[test]
fn formatted_marks_current() {
    let mut s = Session::new_at(0);
    s.push("/a");
    s.push("/b");
    assert_eq!(s.formatted(), vec!["1 /b <-- current".to_string(), "2 /a".to_string()]);
}

#[test]
fn session_expiry() {
    let s = Session::new_at(1000);
    assert!(s.fresh_at(1000));
    assert!(s.fresh_at(1000 + 43199));
    assert!(!s.fresh_at(1000 + 43200));
    assert!(s.fresh_at(10));
}

#[test]
fn default_session_is_empty() {
    let s = Session::default();
    assert_eq!(s.max_size(), 10);
    assert!(s.current().is_none());
    assert!(s.previous().is_none());
}

#[test]
fn stack_push_and_cut() {
    let mut st = SessionStack::new(2);
    st.push("/a");
    st.push("/b");
    st.push("/c");
    assert_eq!(st.list().len(), 2);
    assert_eq!(st.current().map(|p| p.as_str()), Some("/c"));
    assert!(st.contains("/b"));
    assert!(!st.contains("/a"));
    assert_eq!(st.formatted(), vec!["1 /c <-- current".to_string(), "2 /b".to_string()]);
}

#[test]
fn stack_with_no_room_keeps_nothing() {
    let mut st = SessionStack::new(0);
    st.push("/a");
    assert!(st.current().is_none());
}

#[test]
fn stack_expiry() {
    let st = SessionStack::restore(3, Vec::new(), 100);
    assert!(!st.expired_at(100 + 86400));
    assert!(st.expired_at(100 + 86401));
    assert!(!st.expired_at(0));
}
