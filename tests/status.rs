use git_commands::{
    classify_line, is_deletion_line, parse_changes, process_deteted_files, process_git_status, status_files,
    StatusLine,
};

fn fixture(first: &str, second: &str, third: &str) -> String {
    let lines: Vec<&str> = vec![
        first,
        second,
        third,
        "?? src/README.md",
        "UU src/bla.rs",
        "!! src/bli.rs",
        "DD src/blo.rs",
        "R  src/blu.rs",
        "C  src/bly.rs",
        "U  src/pae.rs",
    ];
    lines.join("\n")
}

#[test]
fn test_process_git_status() {
    let status = fixture(" M src/git_related.rs", "M  src/main.rs", "AM src/utils.rs");

    let modified_files = process_git_status(status.as_str());

    assert_eq!(
        modified_files,
        vec![
            "src/main.rs",
            "src/utils.rs",
            "src/bla.rs",
            "src/blu.rs",
            "src/bly.rs",
            "src/pae.rs",
        ]
    );
}

#[test]
fn test_process_deteted_files() {
    let status = fixture(" D src/git_related.rs", "D  src/main.rs", "AD src/utils.rs");

    let deleted_files = process_deteted_files(status.as_str());

    assert_eq!(
        deleted_files,
        vec!["src/git_related.rs", "src/utils.rs", "src/blo.rs"]
    );
}

#[test]
fn parse_changes_splits_fixture_in_both_lists() {
    let status = fixture(" D src/git_related.rs", "M  src/main.rs", "AD src/utils.rs");
    let (changed, deleted) = parse_changes(status.as_str());
    assert_eq!(
        changed,
        vec!["src/main.rs", "src/bla.rs", "src/blu.rs", "src/bly.rs", "src/pae.rs"]
    );
    assert_eq!(
        deleted,
        vec!["src/git_related.rs", "src/utils.rs", "src/blo.rs"]
    );
}

#[test]
fn worktree_only_modification_is_in_neither_list() {
    let (changed, deleted) = parse_changes("A  src/b.rs\n M src/a.rs\nM  src/c.rs\n");
    assert_eq!(changed, vec!["src/b.rs", "src/c.rs"]);
    assert!(deleted.is_empty());
}

#[test]
fn deleted_codes_give_the_path() {
    let (changed, deleted) = parse_changes(" D src/a.rs\nAD src/b.rs\nD  src/c.rs");
    assert_eq!(deleted, vec!["src/a.rs", "src/b.rs"]);
    assert!(changed.is_empty());
}

#[test]
fn deleted_line_lands_in_one_list_only() {
    let (changed, deleted) = parse_changes("MD src/a.rs");
    assert!(changed.is_empty());
    assert_eq!(deleted, vec!["src/a.rs"]);
}

#[test]
fn untracked_unmerged_and_ignored_markers() {
    let (changed, deleted) = parse_changes("?? x.md\nUU y.rs\n!! z.rs");
    assert_eq!(changed, vec!["y.rs"]);
    assert!(deleted.is_empty());
}

#[test]
fn parsing_twice_gives_the_same_lists() {
    let status = fixture(" D src/git_related.rs", "M  src/main.rs", "AM src/utils.rs");
    let first = parse_changes(status.as_str());
    let second = parse_changes(status.as_str());
    assert_eq!(first, second);
}

#[test]
fn changed_path_is_taken_verbatim() {
    let (changed, _) = parse_changes("R  old name.rs -> new name.rs\n");
    assert_eq!(changed, vec!["old name.rs -> new name.rs"]);
}

#[test]
fn empty_and_malformed_status() {
    let (changed, deleted) = parse_changes("");
    assert!(changed.is_empty() && deleted.is_empty());
    let (changed, deleted) = parse_changes("\n\nxx\nM\nMMx");
    assert!(changed.is_empty() && deleted.is_empty());
}

#[test]
fn classify_line_kinds() {
    assert!(matches!(classify_line("M  a.rs"), StatusLine::Changed(p) if p == "a.rs"));
    assert!(matches!(classify_line(" D a.rs"), StatusLine::Deleted(p) if p == "a.rs"));
    assert!(matches!(classify_line("   a.rs"), StatusLine::Skipped));
    assert!(matches!(classify_line("MD my file.rs"), StatusLine::Changed(p) if p == "my file.rs"));
    assert!(matches!(classify_line("?? a.rs"), StatusLine::Skipped));
}

#[test]
fn status_files_skip_deleted_and_repeat() {
    let files = status_files(" M a.rs\n?? b.md\nAD c.rs\n D d.rs\nM  a.rs\nMM e.rs\n!! f.rs\n");
    assert_eq!(files, vec!["a.rs", "b.md", "e.rs"]);
}

#[test]
fn status_files_of_empty_report() {
    assert!(status_files("").is_empty());
}

#[test]
fn changed_path_follows_the_whole_run_of_whitespace() {
    let (changed, _) = parse_changes("M \t  a.rs\nA \u{3000}b.rs");
    assert_eq!(changed, vec!["a.rs", "b.rs"]);
}

#[test]
fn lines_without_a_d_code_are_not_deleted() {
    let (changed, deleted) = parse_changes("  src/a.rs\n a.rs\n\tb.rs");
    assert!(changed.is_empty());
    assert!(deleted.is_empty());
}

#[test]
fn status_files_keep_paths_holding_d_and_space() {
    let files = status_files("M  My Docs/a.md\n?? Dir D/b.md\nD  gone.rs\n");
    assert_eq!(files, vec!["My Docs/a.md", "Dir D/b.md"]);
}

#[test]
fn deletion_marks_are_in_the_code_columns() {
    assert!(is_deletion_line("D  a.rs"));
    assert!(is_deletion_line(" D a.rs"));
    assert!(is_deletion_line("AD a.rs"));
    assert!(!is_deletion_line("M  My Docs/a.md"));
    assert!(!is_deletion_line(""));
}
