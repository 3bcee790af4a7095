use ygg::matches_filters;
use ygg::parse_patterns;
use ygg::scanner::basename;
use ygg::text::split_lines;

#[test]
fn test_matches_filters_exact_and_glob() {
    let filters = vec!["src".to_string(), "*.rs".to_string()];

    assert!(matches_filters("src/main.rs", &filters, false));
    assert!(matches_filters("foo.rs", &filters, false));
    assert!(!matches_filters("docs/readme.md", &filters, false));
}

#[test]
fn test_matches_filters_empty_returns_default() {
    let filters: Vec<String> = vec![];
    assert!(matches_filters("anything", &filters, true));
    assert!(!matches_filters("anything", &filters, false));
}

#[test]
fn filters_test_matches_filters_exact_and_glob() {
    let filters = vec!["src".to_string(), "*.rs".to_string()];

    assert!(matches_filters("src/main.rs", &filters, false));
    assert!(matches_filters("foo.rs", &filters, false));
    assert!(!matches_filters("docs/readme.md", &filters, false));
}

#[test]
fn filters_test_matches_filters_empty_returns_default() {
    let filters: Vec<String> = vec![];
    assert!(matches_filters("anything", &filters, true));
    assert!(!matches_filters("anything", &filters, false));
}

#[test]
fn filters_normalize_leading_dot_slash() {
    let filters = vec!["./src".to_string()];
    assert!(matches_filters("src/main.rs", &filters, false));
    assert!(matches_filters("./src/main.rs", &filters, false));
    let plain = vec!["src".to_string()];
    assert!(matches_filters("./src/main.rs", &plain, false));
}

#[test]
fn filters_match_base_name() {
    let filters = vec!["main.rs".to_string()];
    assert!(matches_filters("deep/dir/main.rs", &filters, false));
    assert!(!matches_filters("deep/dir/other.rs", &filters, false));
}

#[test]
fn glob_filters_match_base_name_too() {
    let filters = vec!["*.toml".to_string()];
    assert!(matches_filters("workspace/Cargo.toml", &filters, false));
    assert!(!matches_filters("workspace/Cargo.lock", &filters, false));
}

#[test]
fn basename_cases() {
    assert_eq!(basename("src/main.rs"), "main.rs");
    assert_eq!(basename("main.rs"), "main.rs");
    assert_eq!(basename("foo/"), "foo");
    assert_eq!(basename("a//b//"), "b");
    assert_eq!(basename("./foo"), "foo");
    assert_eq!(basename("foo/."), "foo");
    assert_eq!(basename(""), "");
    assert_eq!(basename("/"), "");
    assert_eq!(basename(".."), "");
    assert_eq!(basename("a/.."), "");
    assert_eq!(basename("."), "");
}

#[test]
fn parse_patterns_skips_blanks_and_comments() {
    let parsed = parse_patterns("foo\n#comment\nbar\n");
    assert_eq!(parsed, vec!["foo".to_string(), "bar".to_string()]);
}

#[test]
fn parse_patterns_trims_whitespace() {
    let parsed = parse_patterns("  foo  \n\n   \n\t#c\n  bar\r\n");
    assert_eq!(parsed, vec!["foo".to_string(), "bar".to_string()]);
}

#[test]
fn split_lines_handles_terminators() {
    let empty: Vec<&str> = vec![];
    assert_eq!(split_lines(""), empty);
    assert_eq!(split_lines("a"), vec!["a"]);
    assert_eq!(split_lines("a\n"), vec!["a"]);
    assert_eq!(split_lines("a\nb"), vec!["a", "b"]);
    assert_eq!(split_lines("a\r\nb\nc"), vec!["a", "b", "c"]);
    assert_eq!(split_lines("a\n\nb"), vec!["a", "", "b"]);
    assert_eq!(split_lines("\n"), vec![""]);
    assert_eq!(split_lines("a\rb"), vec!["a\rb"]);
    // a trailing carriage return is stripped only after a newline
    assert_eq!(split_lines("a\r\n"), vec!["a"]);
    assert_eq!(split_lines("a\r"), vec!["a\r"]);
    assert_eq!(split_lines("a\r\nb\r"), vec!["a", "b\r"]);
}
