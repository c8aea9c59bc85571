use codex_file_search::path::{components, join, path_is_absolute, paths_equal};
use codex_file_search::text::{lines_of, split_str, trim_str};

#[test]
fn components_follow_unix_path_rules() {
    assert_eq!(components("/a//b/./c/"), vec!["/", "a", "b", "c"]);
    assert_eq!(components("./a/b"), vec![".", "a", "b"]);
    assert_eq!(components("a/../b"), vec!["a", "..", "b"]);
    assert_eq!(components("."), vec!["."]);
    assert!(components("").is_empty());
    assert_eq!(components("/"), vec!["/"]);
}

#[test]
fn join_follows_pathbuf_push() {
    assert_eq!(join("/p", ".gitignore"), "/p/.gitignore");
    assert_eq!(join("/p/", ".gitignore"), "/p/.gitignore");
    assert_eq!(join("", ".gitignore"), ".gitignore");
    assert_eq!(join("/p", "/abs"), "/abs");
}

#[test]
fn path_equality_is_by_components() {
    assert!(paths_equal("/p", "/p/"));
    assert!(paths_equal("/p/./q", "/p//q"));
    assert!(!paths_equal("/p", "p"));
    assert!(!paths_equal("./p", "p"));
}

#[test]
fn absolute_paths_start_at_the_root() {
    assert!(path_is_absolute("/x"));
    assert!(!path_is_absolute("x/y"));
    assert!(!path_is_absolute(""));
}

#[test]
fn split_keeps_empty_pieces() {
    assert_eq!(split_str("a,,b,", ','), vec!["a", "", "b", ""]);
    assert_eq!(split_str("", ','), vec![""]);
}

#[test]
fn trim_removes_unicode_white_space() {
    assert_eq!(trim_str(" \t\u{2003}x y\u{85}\n"), "x y");
    assert_eq!(trim_str("   "), "");
    assert_eq!(trim_str("\u{200b}x"), "\u{200b}x");
}

#[test]
fn lines_match_a_buffered_reader() {
    assert_eq!(lines_of("a\r\nb\nc"), vec!["a", "b", "c"]);
    assert_eq!(lines_of("a\n"), vec!["a"]);
    assert_eq!(lines_of("a\r"), vec!["a\r"]);
    assert!(lines_of("").is_empty());
    assert_eq!(lines_of("\n\n"), vec!["", ""]);
}
