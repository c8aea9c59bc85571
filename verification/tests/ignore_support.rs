use codex_file_search::discovery::{HostView, IgnoreDiscovery, IgnoreEnv, IgnoreSource};
use codex_file_search::family::{Family, Scope};
use codex_file_search::matcher::IgnoreMatcher;

fn empty_env() -> IgnoreEnv {
    IgnoreEnv {
        git_ignore_disable: None,
        ai_ignore_disable: None,
        codex_ignore_disable: None,
        codex_no_ignore: None,
        git_ignore_file: None,
        ai_ignore_file: None,
        codex_ignore_file: None,
    }
}

fn host(existing: &[&str], walked: &[&str]) -> HostView {
    HostView {
        existing_files: existing.iter().map(|s| s.to_string()).collect(),
        walked_dirs: walked.iter().map(|s| s.to_string()).collect(),
        xdg_config_home: None,
        home: None,
        current_dir: "/".to_string(),
    }
}

/// The text of each source's file, looked up among (path, text) pairs.
fn texts_for(sources: &[IgnoreSource], files: &[(&str, &str)]) -> Vec<Option<String>> {
    sources
        .iter()
        .map(|s| {
            files
                .iter()
                .find(|(p, _)| *p == s.file_path)
                .map(|(_, t)| t.to_string())
        })
        .collect()
}

#[test]
fn test_family_filename() {
    assert_eq!(Family::Git.filename(), ".gitignore");
    assert_eq!(Family::Ai.filename(), ".aiignore");
    assert_eq!(Family::Codex.filename(), ".codexignore");
}

#[test]
fn test_family_env_prefix() {
    assert_eq!(Family::Git.env_prefix(), "GIT");
    assert_eq!(Family::Ai.env_prefix(), "AI");
    assert_eq!(Family::Codex.env_prefix(), "CODEX");
}

#[test]
fn test_scope_ordering() {
    assert!(Scope::System < Scope::User);
    assert!(Scope::User < Scope::ProjectRoot);
}

#[test]
fn test_discover_project_files() {
    let root = "/tmp/project";
    let view = host(&["/tmp/project/.aiignore", "/tmp/project/.codexignore"], &[root]);

    let discovery = IgnoreDiscovery::new(&empty_env());
    let sources = discovery.discover(root, &view);

    // Should find both files, with proper ordering (ai first, then codex)
    let project_sources: Vec<_> = sources
        .iter()
        .filter(|s| s.scope == Scope::ProjectRoot)
        .collect();

    assert_eq!(project_sources.len(), 2);

    // AI should come before Codex in the ordering
    let ai_source = project_sources
        .iter()
        .find(|s| s.family == Family::Ai)
        .unwrap();
    let codex_source = project_sources
        .iter()
        .find(|s| s.family == Family::Codex)
        .unwrap();
    assert!(ai_source.order < codex_source.order);
}

#[test]
fn test_ignore_matcher_basic() {
    let root = "/tmp/project";
    let view = host(&["/tmp/project/.codexignore"], &[root]);

    let discovery = IgnoreDiscovery::new(&empty_env());
    let sources = discovery.discover(root, &view);
    let texts = texts_for(&sources, &[("/tmp/project/.codexignore", "*.tmp\n")]);
    let matcher = IgnoreMatcher::new(sources, root.to_string(), "/", texts).unwrap();

    // Test that .tmp files are ignored
    assert!(matcher.matches("test.tmp", false));
    assert!(!matcher.matches("test.txt", false));
}

#[test]
fn dir_name_is_lowercase_prefix() {
    assert_eq!(Family::Git.dir_name(), "git");
    assert_eq!(Family::Ai.dir_name(), "ai");
    assert_eq!(Family::Codex.dir_name(), "codex");
}

#[test]
fn scope_ordering_is_total_chain() {
    assert!(Scope::ProjectRoot < Scope::Directory);
    assert!(Scope::System < Scope::Directory);
}
