use prompt::component::cwd::{replace_home_dir, short};

#[test]
fn test_replace_home_dir() {
    let current_dir = "/home/foo/bar/baz";
    let home_dir = "/home/foo";

    assert_eq!(replace_home_dir(current_dir, home_dir), "~/bar/baz".to_string());
}

#[test]
fn test_replace_home_dir_in_home_dir() {
    let current_dir = "/home/foo";
    let home_dir = "/home/foo";

    assert_eq!(replace_home_dir(current_dir, home_dir), "~".to_string());
}

#[test]
fn short_test() {
    let current_dir = "/home/foo/axx/bxx/repo/cxx/dxx";
    let home_dir = "/home/foo";
    let git_root = "/home/foo/axx/bxx/repo/.git";

    assert_eq!(short(current_dir, home_dir, git_root), "~/a/b/repo/cxx/dxx".to_string());

    let current_dir = "/home/foo/axx/bxx/repo";
    assert_eq!(short(current_dir, home_dir, git_root), "~/a/b/repo".to_string());
}

#[test]
fn short_test_single_dir_repo() {
    let current_dir = "/home/foo/axx";
    let home_dir = "/home/foo";
    let git_root = "/home/foo/axx/.git";

    assert_eq!(short(current_dir, home_dir, git_root), "~/axx".to_string());
}

#[test]
fn replace_home_dir_keeps_unrelated_paths() {
    assert_eq!(replace_home_dir("/srv/data", "/home/foo"), "/srv/data".to_string());
    assert_eq!(replace_home_dir("/home/foobar", "/home/foo"), "/home/foobar".to_string());
}
