use git_commands::commit_message;

fn strings(v: &[&str]) -> Vec<String> {
    v.iter().map(|s| s.to_string()).collect()
}

#[test]
fn scaffold_lists_kept_and_deleted_files() {
    let text = commit_message(
        58,
        "feat",
        "branch_name",
        &strings(&["src/a.rs", "data/x.md"]),
        &strings(&["old.rs"]),
        &strings(&["data/"]),
    );
    assert_eq!(
        text,
        "[58] (feat on branch_name)\n\n\n- `src/a.rs`:\n\n\t\n\n- `old.rs`: deleted\n\n"
    );
}

#[test]
fn scaffold_of_a_clean_tree() {
    let text = commit_message(0, "chore", "master", &strings(&[]), &strings(&[]), &strings(&[]));
    assert_eq!(text, "[0] (chore on master)\n\n\n");
    let text = commit_message(4294967295, "fix", "b", &strings(&[]), &strings(&[]), &strings(&[]));
    assert_eq!(text, "[4294967295] (fix on b)\n\n\n");
}
