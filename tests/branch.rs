use git_commands::{branch_names, commit_count_of, format_branch_name, push_args, stash_args};

#[test]
fn test_format_branch_name() {
    const COMMIT_TYPES: [&str; 4] = ["chore", "feat", "fix", "test"];

    let branches: [String; 4] = [
        "chore/branch_name".to_string(),
        "feat/branch_name".to_string(),
        "fix/branch_name".to_string(),
        "test/branch_name".to_string(),
    ];

    for branch in branches.iter() {
        assert_eq!(
            format_branch_name(&COMMIT_TYPES, branch),
            "branch_name".to_string()
        );
    }
}

#[test]
fn format_branch_name_keeps_other_names() {
    let types = ["chore", "feat", "fix", "test"];
    assert_eq!(format_branch_name(&types, "master"), "master");
    assert_eq!(format_branch_name(&types, "feature/x"), "feature/x");
    assert_eq!(format_branch_name(&types, "feat/fix/x"), "x");
    assert_eq!(format_branch_name(&types, "my-feat/x"), "my-x");
    assert_eq!(format_branch_name(&types, ""), "");
}

#[test]
fn branch_names_drop_markers() {
    assert_eq!(
        branch_names("* master\n  dev\n  feat/x\n"),
        vec!["master", "dev", "feat/x"]
    );
    assert!(branch_names("").is_empty());
}

#[test]
fn commit_count_parses_trimmed_number() {
    assert_eq!(commit_count_of("57\n"), 57);
    assert_eq!(commit_count_of("  +8 "), 8);
    assert_eq!(commit_count_of("65535"), 65535);
    assert_eq!(commit_count_of("65536"), 0);
    assert_eq!(commit_count_of("12a"), 0);
    assert_eq!(commit_count_of("-1"), 0);
    assert_eq!(commit_count_of("+"), 0);
    assert_eq!(commit_count_of(""), 0);
}

#[test]
fn push_and_stash_arguments() {
    assert_eq!(push_args(None), vec!["push"]);
    assert_eq!(
        push_args(Some(vec!["origin".to_string(), "main".to_string()])),
        vec!["push", "origin", "main"]
    );
    assert_eq!(stash_args(true), vec!["stash", "pop"]);
    assert_eq!(stash_args(false), vec!["stash", "-u"]);
}

#[test]
fn branch_names_drop_carriage_returns() {
    assert_eq!(
        branch_names("* master\r\n  dev\r\n"),
        vec!["master", "dev"]
    );
}
