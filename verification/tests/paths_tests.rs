use rcple::paths::{ancestors_of, hidden, join, parent_of, with_trailing_slash};
use rcple::walk::{relative_key, turn, Turn};

#[test]
fn ancestors_come_topmost_first() {
    assert_eq!(ancestors_of("a/b/c.txt"), vec!["a".to_string(), "a/b".to_string()]);
    assert_eq!(ancestors_of("dir/b.txt"), vec!["dir".to_string()]);
}

#[test]
fn file_at_the_root_has_no_ancestors() {
    assert!(ancestors_of("a.txt").is_empty());
    assert!(ancestors_of("").is_empty());
    assert_eq!(parent_of("a.txt"), "");
}

#[test]
fn parent_is_the_directory_that_holds_the_path() {
    assert_eq!(parent_of("a/b/c.txt"), "a/b");
    assert_eq!(parent_of("dir/b.txt"), "dir");
    assert_eq!(parent_of("/etc"), "");
}

#[test]
fn hidden_is_any_component_with_a_leading_dot() {
    assert!(hidden(".git/config"));
    assert!(hidden("dir/.secret"));
    assert!(hidden(".bashrc"));
    assert!(hidden("a/.b/c"));
    assert!(!hidden("a.txt"));
    assert!(!hidden("dir/file.tar.gz"));
    assert!(!hidden(""));
}

#[test]
fn join_appends_the_key_to_the_root() {
    assert_eq!(join("/var/www/", "dir/b.txt"), "/var/www/dir/b.txt");
    assert_eq!(join("", "x"), "x");
}

#[test]
fn trailing_slash_is_added_once() {
    assert_eq!(with_trailing_slash("/home/me"), "/home/me/");
    assert_eq!(with_trailing_slash("/home/me/"), "/home/me/");
    assert_eq!(with_trailing_slash(""), "/");
}

#[test]
fn walk_turns() {
    assert_eq!(turn(".git", true, false), Turn::Skip);
    assert_eq!(turn(".bashrc", false, false), Turn::Skip);
    assert_eq!(turn(".git", true, true), Turn::Descend);
    assert_eq!(turn(".bashrc", false, true), Turn::Record);
    assert_eq!(turn("src", true, false), Turn::Descend);
    assert_eq!(turn("a.txt", false, false), Turn::Record);
}

#[test]
fn relative_key_is_what_follows_the_root() {
    assert_eq!(relative_key("/home/me/", "/home/me/dir/b.txt"), Some("dir/b.txt".to_string()));
    assert_eq!(relative_key("/home/me/", "/home/me/"), Some(String::new()));
    assert_eq!(relative_key("/home/me/", "/home/you/a"), None);
    assert_eq!(relative_key("/home/me/", "/home"), None);
}
