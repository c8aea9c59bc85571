use codex_file_search::discovery::{HostView, IgnoreDiscovery, IgnoreEnv};
use codex_file_search::family::{Family, Scope};

fn env_with(
    disable: [Option<&str>; 4],
    files: [Option<&str>; 3],
) -> IgnoreEnv {
    let s = |o: Option<&str>| o.map(|v| v.to_string());
    IgnoreEnv {
        git_ignore_disable: s(disable[0]),
        ai_ignore_disable: s(disable[1]),
        codex_ignore_disable: s(disable[2]),
        codex_no_ignore: s(disable[3]),
        git_ignore_file: s(files[0]),
        ai_ignore_file: s(files[1]),
        codex_ignore_file: s(files[2]),
    }
}

fn no_env() -> IgnoreEnv {
    env_with([None; 4], [None; 3])
}

fn host(existing: &[&str], walked: &[&str], xdg: Option<&str>, home: Option<&str>) -> HostView {
    HostView {
        existing_files: existing.iter().map(|s| s.to_string()).collect(),
        walked_dirs: walked.iter().map(|s| s.to_string()).collect(),
        xdg_config_home: xdg.map(|s| s.to_string()),
        home: home.map(|s| s.to_string()),
        current_dir: "/".to_string(),
    }
}

const EVERY_FILE: &[&str] = &[
    "/etc/git/ignore",
    "/etc/ai/ignore",
    "/etc/codex/ignore",
    "/home/u/.config/git/ignore",
    "/home/u/.config/ai/ignore",
    "/home/u/.config/codex/ignore",
    "/p/.gitignore",
    "/p/.aiignore",
    "/p/.codexignore",
    "/p/src/.gitignore",
    "/p/src/.codexignore",
    "/p/docs/.aiignore",
];

#[test]
fn discovers_every_level_in_precedence_order() {
    let view = host(EVERY_FILE, &["/p", "/p/src", "/p/docs"], None, Some("/home/u"));
    let discovery = IgnoreDiscovery::with_controls(false, false, false, false, &no_env());
    let sources = discovery.discover("/p", &view);
    let got: Vec<(&str, Family, Scope, &str, usize)> = sources
        .iter()
        .map(|s| (s.file_path.as_str(), s.family, s.scope, s.dir.as_str(), s.order))
        .collect();
    assert_eq!(
        got,
        vec![
            ("/etc/git/ignore", Family::Git, Scope::System, "", 0),
            ("/etc/ai/ignore", Family::Ai, Scope::System, "", 1),
            ("/etc/codex/ignore", Family::Codex, Scope::System, "", 2),
            ("/home/u/.config/git/ignore", Family::Git, Scope::User, "", 3),
            ("/home/u/.config/ai/ignore", Family::Ai, Scope::User, "", 4),
            ("/home/u/.config/codex/ignore", Family::Codex, Scope::User, "", 5),
            ("/p/.gitignore", Family::Git, Scope::ProjectRoot, "/p", 6),
            ("/p/.aiignore", Family::Ai, Scope::ProjectRoot, "/p", 7),
            ("/p/.codexignore", Family::Codex, Scope::ProjectRoot, "/p", 8),
            ("/p/src/.gitignore", Family::Git, Scope::Directory, "/p/src", 9),
            ("/p/src/.codexignore", Family::Codex, Scope::Directory, "/p/src", 10),
            ("/p/docs/.aiignore", Family::Ai, Scope::Directory, "/p/docs", 11),
        ]
    );
}

#[test]
fn xdg_config_home_takes_precedence_over_home() {
    let view = host(
        &["/xdg/codex/ignore", "/home/u/.config/codex/ignore"],
        &[],
        Some("/xdg"),
        Some("/home/u"),
    );
    let discovery = IgnoreDiscovery::with_controls(false, false, false, false, &no_env());
    let sources = discovery.discover("/p", &view);
    assert_eq!(sources.len(), 1);
    assert_eq!(sources[0].file_path, "/xdg/codex/ignore");
    assert_eq!(sources[0].scope, Scope::User);
}

#[test]
fn empty_config_home_falls_back_to_home() {
    // XDG_CONFIG_HOME set to the empty string counts as unset
    let view = host(&["/home/u/.config/codex/ignore", "codex/ignore"], &[], Some(""), Some("/home/u"));
    let discovery = IgnoreDiscovery::with_controls(false, false, false, false, &no_env());
    let sources = discovery.discover("/p", &view);
    assert_eq!(sources.len(), 1);
    assert_eq!(sources[0].file_path, "/home/u/.config/codex/ignore");
}

#[test]
fn empty_config_home_without_home_has_no_user_files() {
    let view = host(&["codex/ignore", "/.config/codex/ignore"], &[], Some(""), None);
    let discovery = IgnoreDiscovery::with_controls(false, false, false, false, &no_env());
    assert!(discovery.discover("/p", &view).is_empty());
}

#[test]
fn disabled_families_are_skipped_everywhere() {
    let env = env_with(
        [Some("1"), None, Some("1"), None],
        [Some("/extra/git"), Some("/extra/ai"), Some("/extra/codex")],
    );
    let view = host(EVERY_FILE, &["/p", "/p/src", "/p/docs"], None, Some("/home/u"));
    let discovery = IgnoreDiscovery::new(&env);
    let sources = discovery.discover("/p", &view);
    let paths: Vec<&str> = sources.iter().map(|s| s.file_path.as_str()).collect();
    assert_eq!(
        paths,
        vec![
            "/etc/ai/ignore",
            "/home/u/.config/ai/ignore",
            "/p/.aiignore",
            "/p/docs/.aiignore",
            "/extra/ai",
        ]
    );
    assert!(sources.iter().all(|s| s.family == Family::Ai));
}

#[test]
fn switch_variables_only_count_when_set_to_one() {
    let env = env_with([Some("true"), Some("0"), Some(" 1"), Some("yes")], [None; 3]);
    let view = host(&["/p/.gitignore", "/p/.aiignore", "/p/.codexignore"], &[], None, None);
    let sources = IgnoreDiscovery::new(&env).discover("/p", &view);
    assert_eq!(sources.len(), 3);
}

#[test]
fn no_ignore_switch_discovers_nothing() {
    let env = env_with([None, None, None, Some("1")], [Some("/extra/git"), None, None]);
    let view = host(EVERY_FILE, &["/p", "/p/src"], None, Some("/home/u"));
    assert!(IgnoreDiscovery::new(&env).discover("/p", &view).is_empty());
    let explicit = IgnoreDiscovery::with_controls(false, false, false, true, &no_env());
    assert!(explicit.discover("/p", &view).is_empty());
}

#[test]
fn additional_files_are_trimmed_absolute_and_last() {
    let env = env_with(
        [None; 4],
        [Some(" /a/one ,relative, /a/two\t"), Some(",,/b/one"), Some("\u{3000}/c/one\u{a0}")],
    );
    let view = host(&["/p/.codexignore"], &["/p"], None, None);
    let sources = IgnoreDiscovery::new(&env).discover("/p", &view);
    let got: Vec<(&str, Family, Scope, &str, usize)> = sources
        .iter()
        .map(|s| (s.file_path.as_str(), s.family, s.scope, s.dir.as_str(), s.order))
        .collect();
    assert_eq!(
        got,
        vec![
            ("/p/.codexignore", Family::Codex, Scope::ProjectRoot, "/p", 0),
            ("/a/one", Family::Git, Scope::ProjectRoot, "/p", 1),
            ("/a/two", Family::Git, Scope::ProjectRoot, "/p", 2),
            ("/b/one", Family::Ai, Scope::ProjectRoot, "/p", 3),
            ("/c/one", Family::Codex, Scope::ProjectRoot, "/p", 4),
        ]
    );
}

#[test]
fn project_root_in_walk_is_not_counted_twice() {
    // the walk yields the root, possibly written with a trailing slash
    let view = host(&["/p/.gitignore", "/p/./.gitignore", "/p/.gitignore/"], &["/p/", "/p/."], None, None);
    let sources = IgnoreDiscovery::with_controls(false, false, false, false, &no_env()).discover("/p", &view);
    assert_eq!(sources.len(), 1);
    assert_eq!(sources[0].scope, Scope::ProjectRoot);
}

#[test]
fn relative_project_root_is_made_absolute() {
    let mut view = host(&["/w/proj/.gitignore", "/w/proj/sub/.codexignore"], &["/w/proj", "/w/proj/sub"], None, None);
    view.current_dir = "/w".to_string();
    let sources = IgnoreDiscovery::with_controls(false, false, false, false, &no_env()).discover("proj", &view);
    let got: Vec<(&str, &str)> = sources.iter().map(|s| (s.file_path.as_str(), s.dir.as_str())).collect();
    assert_eq!(got, vec![("/w/proj/.gitignore", "/w/proj"), ("/w/proj/sub/.codexignore", "/w/proj/sub")]);
    let lookups = IgnoreDiscovery::with_controls(false, false, false, false, &no_env()).lookup_paths("proj", &view);
    assert!(lookups.contains(&"/w/proj/.codexignore".to_string()));
    assert!(lookups.contains(&"/w/proj/sub/.gitignore".to_string()));
    assert!(!lookups.iter().any(|p| p.starts_with("proj")));
}

#[test]
fn lookup_paths_cover_every_candidate() {
    let view = host(&[], &["/p", "/p/src"], None, Some("/home/u"));
    let discovery = IgnoreDiscovery::with_controls(false, false, false, false, &no_env());
    let paths = discovery.lookup_paths("/p", &view);
    assert_eq!(
        paths,
        vec![
            "/etc/git/ignore",
            "/etc/ai/ignore",
            "/etc/codex/ignore",
            "/home/u/.config/git/ignore",
            "/home/u/.config/ai/ignore",
            "/home/u/.config/codex/ignore",
            "/p/.gitignore",
            "/p/.aiignore",
            "/p/.codexignore",
            "/p/.gitignore",
            "/p/.aiignore",
            "/p/.codexignore",
            "/p/src/.gitignore",
            "/p/src/.aiignore",
            "/p/src/.codexignore",
        ]
    );
}

#[test]
fn lookup_paths_without_config_home() {
    let view = host(&[], &[], None, None);
    let discovery = IgnoreDiscovery::with_controls(true, true, true, true, &no_env());
    let paths = discovery.lookup_paths("/p/", &view);
    assert_eq!(
        paths,
        vec![
            "/etc/git/ignore",
            "/etc/ai/ignore",
            "/etc/codex/ignore",
            "/p/.gitignore",
            "/p/.aiignore",
            "/p/.codexignore",
        ]
    );
}

#[test]
fn host_view_file_lookup_is_exact() {
    let view = host(&["/p/.gitignore"], &[], None, None);
    assert!(view.has_file(&"/p/.gitignore".to_string()));
    assert!(!view.has_file(&"/p//.gitignore".to_string()));
}

#[test]
fn files_off_the_lookup_paths_change_nothing() {
    let discovery = IgnoreDiscovery::with_controls(false, false, false, false, &no_env());
    let walked = ["/p", "/p/src"];
    let plain = host(&["/p/.gitignore", "/p/src/.aiignore"], &walked, None, Some("/home/u"));
    let noisy = host(
        &["/p/.gitignore", "/p/src/.aiignore", "/p/other/.gitignore", "/etc/other/ignore", "/p/.npmignore"],
        &walked,
        None,
        Some("/home/u"),
    );
    let a: Vec<(String, usize)> =
        discovery.discover("/p", &plain).into_iter().map(|s| (s.file_path, s.order)).collect();
    let b: Vec<(String, usize)> =
        discovery.discover("/p", &noisy).into_iter().map(|s| (s.file_path, s.order)).collect();
    assert_eq!(a, b);
    assert_eq!(a.len(), 2);
}
