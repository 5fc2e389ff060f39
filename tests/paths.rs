use git_commands::{check_for_file_in_folder, root_search_step, RootStep};

#[test]
fn test_check_for_file_in_folder_direct() {
    let file_path = "data/year_2015/puzzles/day_01.md";

    assert_eq!(
        check_for_file_in_folder(file_path, "data/year_2015/puzzles/"),
        true
    );
    assert_eq!(check_for_file_in_folder(file_path, "data/year_2015"), true);
    assert_eq!(
        check_for_file_in_folder(file_path, "data/year_2015/puzzles/"),
        true
    );
    assert_eq!(check_for_file_in_folder(file_path, "data/"), true);
    assert_eq!(check_for_file_in_folder(file_path, "pipi/"), false);
}

#[test]
fn folder_is_compared_by_components() {
    assert!(check_for_file_in_folder("data//x/./y.md", "data/x"));
    assert!(!check_for_file_in_folder("database/y.md", "data"));
    assert!(!check_for_file_in_folder("data/x", "data/x"));
    assert!(!check_for_file_in_folder("data", "data/x"));
    assert!(check_for_file_in_folder("a.md", ""));
    assert!(check_for_file_in_folder("/home/u/p.rs", "/home"));
    assert!(!check_for_file_in_folder("/home/u/p.rs", "home"));
    assert!(check_for_file_in_folder("./a/b", "."));
}

#[test]
fn root_search_walks_up() {
    match root_search_step("/home/u/project", false) {
        RootStep::Up(p) => assert_eq!(p, "/home/u"),
        _ => panic!("expected a parent"),
    }
    match root_search_step("/home/u/project/", true) {
        RootStep::Found(p) => assert_eq!(p, "/home/u/project/"),
        _ => panic!("expected the root"),
    }
    match root_search_step("/home", false) {
        RootStep::Up(p) => assert_eq!(p, "/"),
        _ => panic!("expected the file system root"),
    }
    match root_search_step(".", false) {
        RootStep::Up(p) => assert_eq!(p, ""),
        _ => panic!("expected the empty path"),
    }
    assert!(matches!(root_search_step("/", true), RootStep::NotFound));
    assert!(matches!(root_search_step("", true), RootStep::NotFound));
}
