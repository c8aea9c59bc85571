use codex_file_search::discovery::{HostView, IgnoreDiscovery, IgnoreEnv, IgnoreSource};
use codex_file_search::family::{Family, Scope};
use codex_file_search::matcher::{file_rules_of, IgnoreError, IgnoreMatcher};

fn source(file_path: &str, family: Family, scope: Scope, dir: &str, order: usize) -> IgnoreSource {
    IgnoreSource {
        file_path: file_path.to_string(),
        family,
        scope,
        dir: dir.to_string(),
        order,
    }
}

fn matcher(sources: Vec<IgnoreSource>, texts: &[Option<&str>]) -> IgnoreMatcher {
    let texts = texts.iter().map(|t| t.map(|s| s.to_string())).collect();
    IgnoreMatcher::new(sources, "/p".to_string(), "/", texts).unwrap()
}

#[test]
fn mixed_families_follow_the_documented_example() {
    let m = matcher(
        vec![
            source("/p/.gitignore", Family::Git, Scope::ProjectRoot, "/p", 0),
            source("/p/.aiignore", Family::Ai, Scope::ProjectRoot, "/p", 1),
            source("/p/.codexignore", Family::Codex, Scope::ProjectRoot, "/p", 2),
        ],
        &[Some("*.log\n*.tmp\n"), Some("!debug.log\n"), Some("!important.log\n/private/\n")],
    );
    assert!(m.matches("app.log", false));
    assert!(!m.matches("debug.log", false));
    assert!(!m.matches("important.log", false));
    assert!(m.matches("scratch.tmp", false));
    assert!(m.matches("private", true));
    assert!(!m.matches("private", false));
    assert!(!m.matches("README.md", false));
}

#[test]
fn nested_directory_overrides_root() {
    let m = matcher(
        vec![
            source("/p/.codexignore", Family::Codex, Scope::ProjectRoot, "/p", 0),
            source("/p/sub/.codexignore", Family::Codex, Scope::Directory, "/p/sub", 1),
        ],
        &[Some("*.log\n"), Some("!keep.log\n")],
    );
    assert!(m.matches("keep.log", false));
    assert!(!m.matches("sub/keep.log", false));
    assert!(m.matches("sub/other.log", false));
}

#[test]
fn global_rules_apply_everywhere_but_yield_to_the_project() {
    let m = matcher(
        vec![
            source("/etc/codex/ignore", Family::Codex, Scope::System, "", 0),
            source("/p/.gitignore", Family::Git, Scope::ProjectRoot, "/p", 1),
        ],
        &[Some("*.bak\nsecret.txt\n"), Some("!secret.txt\n")],
    );
    assert!(m.matches("a.bak", false));
    assert!(m.matches("deep/dir/a.bak", false));
    assert!(!m.matches("secret.txt", false));
}

#[test]
fn sources_are_compiled_by_order_not_position() {
    // same directory: the later order wins, whatever the position
    let m = matcher(
        vec![
            source("/p/.codexignore", Family::Codex, Scope::ProjectRoot, "/p", 5),
            source("/p/.gitignore", Family::Git, Scope::ProjectRoot, "/p", 1),
        ],
        &[Some("!x.log\n"), Some("*.log\n")],
    );
    assert!(!m.matches("x.log", false));
    assert!(m.matches("y.log", false));
}

#[test]
fn equal_orders_keep_their_positions() {
    let m = matcher(
        vec![
            source("/p/one", Family::Git, Scope::ProjectRoot, "/p", 3),
            source("/p/two", Family::Git, Scope::ProjectRoot, "/p", 3),
        ],
        &[Some("*.log\n"), Some("!x.log\n")],
    );
    assert!(!m.matches("x.log", false));
    let m = matcher(
        vec![
            source("/p/one", Family::Git, Scope::ProjectRoot, "/p", 3),
            source("/p/two", Family::Git, Scope::ProjectRoot, "/p", 3),
        ],
        &[Some("!x.log\n"), Some("*.log\n")],
    );
    assert!(m.matches("x.log", false));
}

#[test]
fn missing_files_contribute_no_rules() {
    let m = matcher(
        vec![
            source("/p/.gitignore", Family::Git, Scope::ProjectRoot, "/p", 0),
            source("/p/.codexignore", Family::Codex, Scope::ProjectRoot, "/p", 1),
        ],
        &[Some("*.log\n"), None],
    );
    assert!(m.matches("a.log", false));
    let none = matcher(vec![source("/p/.gitignore", Family::Git, Scope::ProjectRoot, "/p", 0)], &[None]);
    assert!(!none.matches("a.log", false));
}

#[test]
fn no_sources_ignore_nothing() {
    let m = IgnoreMatcher::new(Vec::new(), "/p".to_string(), "/", Vec::new()).unwrap();
    assert!(!m.matches("anything", false));
    assert!(!m.matches("dir", true));
    assert!(m.sources().is_empty());
}

#[test]
fn directories_of_one_path_share_a_matcher() {
    // "/p/sub" and "/p/sub/" are one directory; their rules are compiled together
    let m = matcher(
        vec![
            source("/p/sub/.gitignore", Family::Git, Scope::Directory, "/p/sub", 0),
            source("/p/sub/.codexignore", Family::Codex, Scope::Directory, "/p/sub/", 1),
        ],
        &[Some("*.log\n"), Some("!a.log\n")],
    );
    assert!(!m.matches("sub/a.log", false));
    assert!(m.matches("sub/b.log", false));
}

#[test]
fn sources_are_kept() {
    let m = matcher(
        vec![source("/p/.gitignore", Family::Git, Scope::ProjectRoot, "/p", 0)],
        &[Some("*.log\n")],
    );
    assert_eq!(m.sources().len(), 1);
    assert_eq!(m.sources()[0].file_path, "/p/.gitignore");
}

#[test]
fn rule_lines_strip_line_breaks_and_byte_order_marks() {
    let lines = file_rules_of(&Some("\u{feff}\u{feff}*.log\r\n!keep.log\n\nlast\r".to_string()));
    assert_eq!(lines, vec!["*.log", "!keep.log", "", "last\r"]);
    assert!(file_rules_of(&None).is_empty());
    assert!(file_rules_of(&Some(String::new())).is_empty());
    assert_eq!(file_rules_of(&Some("\n".to_string())), vec![""]);
}

#[test]
fn crlf_files_match_like_unix_files() {
    let m = matcher(
        vec![source("/p/.gitignore", Family::Git, Scope::ProjectRoot, "/p", 0)],
        &[Some("\u{feff}*.log\r\n!keep.log\r\n")],
    );
    assert!(m.matches("a.log", false));
    assert!(!m.matches("keep.log", false));
}

#[test]
fn oversized_rules_fail_to_build() {
    let huge = "[a-z][a-z][a-z][a-z][a-z][a-z][a-z][a-z]".repeat(40_000);
    let texts = vec![Some(huge)];
    let r = IgnoreMatcher::new(
        vec![source("/p/.gitignore", Family::Git, Scope::ProjectRoot, "/p", 0)],
        "/p".to_string(),
        "/",
        texts,
    );
    assert!(matches!(r, Err(IgnoreError::MatcherBuild)));
}

#[test]
fn discovered_sources_feed_the_matcher() {
    let env = IgnoreEnv {
        git_ignore_disable: None,
        ai_ignore_disable: None,
        codex_ignore_disable: None,
        codex_no_ignore: None,
        git_ignore_file: None,
        ai_ignore_file: None,
        codex_ignore_file: Some("/extra/rules".to_string()),
    };
    let view = HostView {
        existing_files: vec!["/p/.gitignore".to_string(), "/p/src/.aiignore".to_string()],
        walked_dirs: vec!["/p".to_string(), "/p/src".to_string()],
        xdg_config_home: None,
        home: None,
        current_dir: "/".to_string(),
    };
    let sources = IgnoreDiscovery::new(&env).discover("/p", &view);
    let texts: Vec<Option<String>> = sources
        .iter()
        .map(|s| match s.file_path.as_str() {
            "/p/.gitignore" => Some("*.o\n".to_string()),
            "/p/src/.aiignore" => Some("!main.o\n".to_string()),
            "/extra/rules" => Some("*.tmp\n".to_string()),
            _ => None,
        })
        .collect();
    let m = IgnoreMatcher::new(sources, "/p".to_string(), "/", texts).unwrap();
    assert!(m.matches("lib.o", false));
    assert!(m.matches("src/lib.o", false));
    assert!(!m.matches("src/main.o", false));
    assert!(m.matches("main.o", false));
    assert!(m.matches("x.tmp", false));
}

#[test]
fn leading_slash_anchors_at_the_files_directory() {
    let m = IgnoreMatcher::new(
        vec![source("/r/sub/.codexignore", Family::Codex, Scope::Directory, "/r/sub", 0)],
        "/r".to_string(),
        "/",
        vec![Some("/foo\n".to_string())],
    )
    .unwrap();
    assert!(m.matches("sub/foo", false));
    assert!(!m.matches("foo", false));
    assert!(!m.matches("sub/x/foo", false));
}

#[test]
fn slash_patterns_in_nested_files_are_relative_to_them() {
    let m = matcher(
        vec![source("/p/a/.gitignore", Family::Git, Scope::Directory, "/p/a", 0)],
        &[Some("b/*.log\n")],
    );
    assert!(m.matches("a/b/x.log", false));
    assert!(!m.matches("b/x.log", false));
    assert!(!m.matches("a/c/b/x.log", false));
}

#[test]
fn a_directorys_own_rules_do_not_judge_it() {
    let m = matcher(
        vec![source("/p/sub/.gitignore", Family::Git, Scope::Directory, "/p/sub", 0)],
        &[Some("*\n")],
    );
    assert!(!m.matches("sub", true));
    assert!(m.matches("sub/anything", false));
    assert!(!m.matches("other", false));
}

#[test]
fn missing_files_build_and_ignore_nothing() {
    let m = matcher(
        vec![
            source("/etc/git/ignore", Family::Git, Scope::System, "", 0),
            source("/p/.gitignore", Family::Git, Scope::ProjectRoot, "/p", 1),
            source("/p/sub/.codexignore", Family::Codex, Scope::Directory, "/p/sub", 2),
        ],
        &[None, None, None],
    );
    assert!(!m.matches("a.log", false));
    assert!(!m.matches("sub/a.log", false));
    assert!(!m.matches("sub", true));
}

#[test]
fn empty_files_ignore_nothing() {
    let m = matcher(
        vec![source("/p/.gitignore", Family::Git, Scope::ProjectRoot, "/p", 0)],
        &[Some("")],
    );
    assert!(!m.matches("a.log", false));
}

#[test]
fn relative_root_is_taken_against_the_current_directory() {
    let sources = vec![
        source("/w/p/.gitignore", Family::Git, Scope::ProjectRoot, "/w/p", 0),
        source("/w/p/sub/.gitignore", Family::Git, Scope::Directory, "/w/p/sub", 1),
    ];
    let texts = vec![Some("*.log\n".to_string()), Some("!keep.log\n".to_string())];
    let m = IgnoreMatcher::new(sources, "p".to_string(), "/w", texts).unwrap();
    assert!(m.matches("a.log", false));
    assert!(!m.matches("sub/keep.log", false));
    assert!(m.matches("sub/other.log", false));
}

#[test]
fn reordered_sources_decide_alike() {
    let a = source("/p/.gitignore", Family::Git, Scope::ProjectRoot, "/p", 0);
    let b = source("/p/.codexignore", Family::Codex, Scope::ProjectRoot, "/p", 1);
    let c = source("/p/sub/.aiignore", Family::Ai, Scope::Directory, "/p/sub", 2);
    let ta = Some("*.log\n");
    let tb = Some("!keep.log\n");
    let tc = Some("keep.log\n!drop.log\n");
    let m1 = matcher(vec![a.clone(), b.clone(), c.clone()], &[ta, tb, tc]);
    let m2 = matcher(vec![c, a, b], &[tc, ta, tb]);
    for (path, is_dir) in [
        ("a.log", false),
        ("keep.log", false),
        ("sub/keep.log", false),
        ("sub/drop.log", false),
        ("sub/x.log", false),
        ("x.txt", false),
    ] {
        assert_eq!(m1.matches(path, is_dir), m2.matches(path, is_dir), "{}", path);
    }
    assert!(m1.matches("sub/keep.log", false));
    assert!(!m1.matches("sub/drop.log", false));
}

#[test]
fn unrelated_directory_changes_nothing() {
    let a = source("/p/.gitignore", Family::Git, Scope::ProjectRoot, "/p", 0);
    let x = source("/p/other/.gitignore", Family::Git, Scope::Directory, "/p/other", 1);
    let m1 = matcher(vec![a.clone()], &[Some("*.log\n")]);
    let m2 = matcher(vec![a, x], &[Some("*.log\n"), Some("!*.log\nsrc\n")]);
    for path in ["a.log", "src/a.log", "src", "otherwise/a.log"] {
        assert_eq!(m1.matches(path, false), m2.matches(path, false), "{}", path);
    }
    assert!(!m2.matches("other/a.log", false));
}

#[test]
fn comments_blank_lines_and_bad_globs_add_no_rules() {
    let m = matcher(
        vec![source("/p/.gitignore", Family::Git, Scope::ProjectRoot, "/p", 0)],
        &[Some("# *.log\n\n   \n{unclosed\n*.tmp   \n")],
    );
    assert!(!m.matches("a.log", false));
    assert!(m.matches("a.tmp", false));
    let only_comments = matcher(
        vec![source("/p/sub/.gitignore", Family::Git, Scope::Directory, "/p/sub", 0)],
        &[Some("# nothing here\n\n{x\n")],
    );
    assert!(!only_comments.matches("sub/x", false));
    assert!(!only_comments.matches("sub", true));
}
