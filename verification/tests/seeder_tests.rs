use odds::seeder::{parse_cd_line, resolve_cd_target};
use odds::text::trim;

#[test]
fn plain_cd_line() {
    assert_eq!(parse_cd_line("cd /tmp"), Some("/tmp".to_string()));
    assert_eq!(parse_cd_line("  cd   projects/odds  "), Some("projects/odds".to_string()));
}

#[test]
fn zsh_extended_history_line() {
    assert_eq!(parse_cd_line(": 1700000000:0;cd ~/work"), Some("~/work".to_string()));
    assert_eq!(parse_cd_line(": 1700000000:0;ls -la"), None);
    assert_eq!(parse_cd_line(": no semicolon here"), None);
}

#[test]
fn non_cd_lines() {
    assert_eq!(parse_cd_line("ls"), None);
    assert_eq!(parse_cd_line("cdx /tmp"), None);
    assert_eq!(parse_cd_line("cd"), None);
    assert_eq!(parse_cd_line(""), None);
}

#[test]
fn cd_with_only_spaces_has_empty_argument() {
    assert_eq!(parse_cd_line("cd  "), None);
    assert_eq!(parse_cd_line(" cd -"), Some("-".to_string()));
}

#[test]
fn resolve_skips_empty_and_dash() {
    assert_eq!(resolve_cd_target("", "/home/u", "/x"), None);
    assert_eq!(resolve_cd_target("-", "/home/u", "/x"), None);
}

#[test]
fn resolve_expands_home() {
    assert_eq!(resolve_cd_target("~", "/home/u", "/x"), Some("/home/u".to_string()));
    assert_eq!(resolve_cd_target("~/src", "/home/u", "/x"), Some("/home/u/src".to_string()));
}

#[test]
fn resolve_relative_against_current() {
    assert_eq!(resolve_cd_target("src", "/home/u", "/x"), Some("/x/src".to_string()));
    assert_eq!(resolve_cd_target("src", "/home/u", "/"), Some("/src".to_string()));
    assert_eq!(resolve_cd_target("src", "/home/u", ""), Some("src".to_string()));
    assert_eq!(resolve_cd_target("/abs", "/home/u", "/x"), Some("/abs".to_string()));
}

#[test]
fn trim_unicode_space() {
    assert_eq!(trim("\t a b \n"), "a b");
    assert_eq!(trim("\u{3000}x\u{a0}"), "x");
    assert_eq!(trim("   "), "");
    assert_eq!(trim(""), "");
}
