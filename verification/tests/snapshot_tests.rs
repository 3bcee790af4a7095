use ygg::prepare_file_list;
use ygg::split_files_by_tokens;
use ygg::args::wants_markdown;
use ygg::Args;
use ygg::FileEntry;

fn entry(path: &str, line_count: usize) -> FileEntry {
    FileEntry { path: path.to_string(), line_count }
}

fn paths(files: &[FileEntry]) -> Vec<String> {
    files.iter().map(|f| f.path.clone()).collect()
}

#[test]
fn file_list_sorted_lexicographically() {
    let files = vec![entry("src/z.rs", 1), entry("Cargo.toml", 2), entry("src/a.rs", 3)];
    let sorted = prepare_file_list(files);
    assert_eq!(paths(&sorted), vec!["Cargo.toml", "src/a.rs", "src/z.rs"]);
}

#[test]
fn file_list_sort_is_stable() {
    let files = vec![entry("b", 1), entry("a", 2), entry("b", 3)];
    let sorted = prepare_file_list(files);
    assert_eq!(paths(&sorted), vec!["a", "b", "b"]);
    assert_eq!(sorted[1].line_count, 1);
    assert_eq!(sorted[2].line_count, 3);
}

#[test]
fn file_list_empty_stays_empty() {
    let sorted = prepare_file_list(Vec::new());
    assert!(sorted.is_empty());
}

#[test]
fn split_respects_token_budget() {
    let files = vec![entry("a", 0), entry("b", 0), entry("c", 0)];
    let estimates = [10usize, 10, 10];
    let packets = split_files_by_tokens(files, &estimates, 25);
    assert_eq!(packets.len(), 2);
    assert_eq!(paths(&packets[0]), vec!["a", "b"]);
    assert_eq!(paths(&packets[1]), vec!["c"]);
}

#[test]
fn split_oversized_file_gets_own_packet() {
    let files = vec![entry("big", 0), entry("small", 0)];
    let estimates = [30usize, 1];
    let packets = split_files_by_tokens(files, &estimates, 25);
    assert_eq!(packets.len(), 2);
    assert_eq!(paths(&packets[0]), vec!["big"]);
    assert_eq!(paths(&packets[1]), vec!["small"]);
}

#[test]
fn split_exact_fit_stays_in_packet() {
    let files = vec![entry("a", 0), entry("b", 0)];
    let estimates = [10usize, 15];
    let packets = split_files_by_tokens(files, &estimates, 25);
    assert_eq!(packets.len(), 1);
    assert_eq!(paths(&packets[0]), vec!["a", "b"]);
}

#[test]
fn split_of_nothing_is_empty() {
    let estimates: [usize; 0] = [];
    let packets = split_files_by_tokens(Vec::new(), &estimates, 32000);
    assert!(packets.is_empty());
}

fn plain_args() -> Args {
    Args {
        dir: ".".to_string(),
        show: Vec::new(),
        contents: false,
        md: false,
        only: Vec::new(),
        no_lines: false,
        ignore: Vec::new(),
        black: None,
        white: None,
        whited: None,
        printed: None,
        split: None,
        out: None,
        align_tags: false,
    }
}

#[test]
fn whited_shortcut_arms_manifest_and_output() {
    let mut args = plain_args();
    args.whited = Some(None);
    let r = args.apply_shortcuts();
    assert!(r.contents);
    assert_eq!(r.out.as_deref(), Some("SHOW.md"));
    assert_eq!(r.white, Some(None));
}

#[test]
fn printed_shortcut_sets_named_output() {
    let mut args = plain_args();
    args.printed = Some(Some("summary.md".to_string()));
    let r = args.apply_shortcuts();
    assert!(r.contents);
    assert_eq!(r.out.as_deref(), Some("summary.md"));
    assert_eq!(r.white, None);
}

#[test]
fn printed_target_wins_over_whited() {
    let mut args = plain_args();
    args.whited = Some(Some("w.md".to_string()));
    args.printed = Some(Some("p.md".to_string()));
    let r = args.apply_shortcuts();
    assert_eq!(r.out.as_deref(), Some("p.md"));
    assert_eq!(r.white, Some(None));
}

#[test]
fn no_shortcut_leaves_args_alone() {
    let args = plain_args();
    let r = args.apply_shortcuts();
    assert!(!r.contents);
    assert_eq!(r.out, None);
    assert_eq!(r.white, None);
}

#[test]
fn markdown_selection_follows_output_name() {
    assert!(wants_markdown(&Some("notes.md".to_string()), false));
    assert!(!wants_markdown(&Some("notes.txt".to_string()), true));
    assert!(wants_markdown(&None, true));
    assert!(!wants_markdown(&None, false));
}
