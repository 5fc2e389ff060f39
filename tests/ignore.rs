use git_commands::{exclude_additions, filter_excluded, ignore_entries, is_excluded};

fn strings(v: &[&str]) -> Vec<String> {
    v.iter().map(|s| s.to_string()).collect()
}

#[test]
fn ignore_entries_skip_comments_and_blanks() {
    assert_eq!(
        ignore_entries("# comment\n\nfoo.md\nbar/\n"),
        vec!["foo.md", "bar/"]
    );
}

#[test]
fn ignore_entries_are_trimmed() {
    assert_eq!(
        ignore_entries("  target/ \r\n\t\n #not a comment\nlast"),
        vec!["target/", "#not a comment", "last"]
    );
    assert!(ignore_entries("").is_empty());
}

#[test]
fn exclusion_by_name_or_folder() {
    let rules = strings(&["README.md", "data/year_2015/"]);
    assert!(is_excluded("README.md", &rules));
    assert!(is_excluded("data/year_2015/puzzles/day_01.md", &rules));
    assert!(!is_excluded("docs/README.md", &rules));
    assert!(!is_excluded("src/main.rs", &strings(&[])));
}

#[test]
fn filter_keeps_order_of_survivors() {
    let paths = strings(&["src/a.rs", "data/x.md", "README.md", "src/b.rs"]);
    let rules = strings(&["README.md", "data"]);
    assert_eq!(filter_excluded(&paths, &rules), vec!["src/a.rs", "src/b.rs"]);
}

#[test]
fn exclude_additions_skip_mentioned_paths() {
    let paths = strings(&["commit_message.md", ".commitignore"]);
    assert_eq!(
        exclude_additions("# git ls-files\ncommit_message.md\n", &paths),
        vec![".commitignore"]
    );
    assert_eq!(exclude_additions("", &paths), paths);
}
