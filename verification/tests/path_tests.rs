use odds::discovery::Walk;
use odds::history::History;
use odds::paths::{dir_text_of, same_path};
use odds::session::{Session, SessionStack};

#[test]
fn paths_compare_by_components() {
    assert!(same_path("/a/b", "/a/b/"));
    assert!(same_path("/a//b", "/a/./b"));
    assert!(same_path("a/b/.", "a/b"));
    assert!(!same_path("./a", "a"));
    assert!(!same_path("/a", "a"));
    assert!(!same_path("/a/../b", "/b"));
    assert!(same_path("//", "/"));
}

#[test]
fn paths_written_from_components() {
    assert_eq!(dir_text_of("/a//b/"), "/a/b");
    assert_eq!(dir_text_of("./a/./b/"), "./a/b");
    assert_eq!(dir_text_of("."), ".");
    assert_eq!(dir_text_of("/"), "/");
    assert_eq!(dir_text_of("a/../b"), "a/../b");
    assert_eq!(dir_text_of(""), "");
}

#[test]
fn history_finds_a_directory_however_written() {
    let mut history = History::new();
    history.record_visit_at("/a/b", 10);
    assert_eq!(history.visit_count("/a/b/"), 1);
    history.record_visit_at("/a//b", 20);
    assert_eq!(history.visit_count("/a/b"), 2);
    assert_eq!(history.entries.len(), 1);
    assert_eq!(history.seconds_since_last_visit_at("/a/./b", 25), Some(5));
}

#[test]
fn session_finds_a_directory_however_written() {
    let mut s = Session::new_at(0);
    s.push("/a/b");
    assert!(s.contains("/a/b/"));
    s.push("/c");
    s.push("/a/b/");
    // the directory moves to the top; no second entry for it
    assert_eq!(s.list().len(), 2);
    assert_eq!(s.current().map(|p| p.as_str()), Some("/a/b/"));
    // pushing the current directory, however written, keeps the list
    s.push("/a/b");
    assert_eq!(s.list().len(), 2);
    assert_eq!(s.current().map(|p| p.as_str()), Some("/a/b/"));
}

#[test]
fn stack_keeps_no_directory_twice() {
    let mut st = SessionStack::new(3);
    st.push("/x");
    st.push("/y");
    st.push("/x/");
    assert_eq!(st.list().len(), 2);
    assert_eq!(st.current().map(|p| p.as_str()), Some("/x/"));
}

#[test]
fn walk_meets_a_directory_once_however_written() {
    let mut walk = Walk::new(&vec!["/r".to_string(), "/r/".to_string()], 2, 5);
    assert_eq!(walk.pop_dir(), Some("/r".to_string()));
    assert!(!walk.visit("/r/"));
    assert!(walk.visit("/r/s"));
    assert!(!walk.visit("/r//s"));
}
