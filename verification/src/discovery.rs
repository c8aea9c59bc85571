//! Discovery of ignore files: which files, of which family and scope, take
//! part in matching, and in which global order.
use vstd::prelude::*;
use vstd::string::*;
use crate::family::{Family, Scope, family_filename, family_dir_name};
use crate::path::{path_join, is_absolute, same_path, join, paths_equal, path_is_absolute};
use crate::text::{split_on, trim, views, split_str, trim_str};

verus! {

broadcast use vstd::string::group_string_axioms;

/// A source of ignore patterns with metadata about its origin and precedence
#[derive(Debug, Clone)]
pub struct IgnoreSource {
    /// Absolute path to the ignore file
    pub file_path: String,
    /// Family of the ignore file (ai or codex)
    pub family: Family,
    /// Scope/precedence level
    pub scope: Scope,
    /// Directory this file applies to (absolute path, empty for system/user)
    pub dir: String,
    /// Global ordering index for stable merges
    pub order: usize,
}

/// The plain value of an ignore source.
pub struct SourceSpec {
    pub file_path: Seq<char>,
    pub family: Family,
    pub scope: Scope,
    pub dir: Seq<char>,
    pub order: nat,
}

/// A discovered ignore file before it is given its place in the order.
pub struct EntrySpec {
    pub file_path: Seq<char>,
    pub family: Family,
    pub scope: Scope,
    pub dir: Seq<char>,
}

impl View for IgnoreSource {
    type V = SourceSpec;

    open spec fn view(&self) -> SourceSpec {
        SourceSpec {
            file_path: self.file_path@,
            family: self.family,
            scope: self.scope,
            dir: self.dir@,
            order: self.order as nat,
        }
    }
}

/// The plain values of a sequence of sources.
pub open spec fn source_views(v: Seq<IgnoreSource>) -> Seq<SourceSpec> {
    v.map_values(|s: IgnoreSource| s@)
}

/// Entries numbered consecutively from `start`: the `i`-th gets order
/// `start + i`.
pub open spec fn numbered(es: Seq<EntrySpec>, start: nat) -> Seq<SourceSpec> {
    Seq::new(
        es.len(),
        |i: int|
            SourceSpec {
                file_path: es[i].file_path,
                family: es[i].family,
                scope: es[i].scope,
                dir: es[i].dir,
                order: (start + i) as nat,
            },
    )
}

/// What discovery reads from the host, as plain values: the files that
/// exist (among those it may look for), the directories of the project
/// tree in the order a walk of it yields them, and the two environment
/// variables that locate the user's configuration directory.
pub struct HostView {
    /// Paths of ignore files that exist
    pub existing_files: Vec<String>,
    /// Directories under the project root, in walk order (the root may be among them)
    pub walked_dirs: Vec<String>,
    /// The value of `XDG_CONFIG_HOME`, if it is set
    pub xdg_config_home: Option<String>,
    /// The value of `HOME`, if it is set
    pub home: Option<String>,
    /// The current directory, against which a relative project root is taken
    pub current_dir: String,
}

/// The plain value of a host view.
pub struct HostSpec {
    pub existing_files: Seq<Seq<char>>,
    pub walked_dirs: Seq<Seq<char>>,
    pub xdg_config_home: Option<Seq<char>>,
    pub home: Option<Seq<char>>,
    pub current_dir: Seq<char>,
}

/// The character view of an optional string.
pub open spec fn opt_view(o: Option<String>) -> Option<Seq<char>> {
    match o {
        Some(s) => Some(s@),
        None => None,
    }
}

impl View for HostView {
    type V = HostSpec;

    open spec fn view(&self) -> HostSpec {
        HostSpec {
            existing_files: views(self.existing_files@),
            walked_dirs: views(self.walked_dirs@),
            xdg_config_home: opt_view(self.xdg_config_home),
            home: opt_view(self.home),
            current_dir: self.current_dir@,
        }
    }
}

/// The project root as an absolute path: taken against the host's current
/// directory when it is relative.
pub open spec fn absolute_root(root: Seq<char>, h: HostSpec) -> Seq<char> {
    path_join(h.current_dir, root)
}

/// Whether the host has a file at the path.
pub open spec fn host_has_file(h: HostSpec, p: Seq<char>) -> bool {
    h.existing_files.contains(p)
}

impl HostView {
    /// Whether the host has a file at the path.
    pub fn has_file(&self, p: &String) -> (r: bool)
        ensures
            r == host_has_file(self@, p@),
    {
        let mut i: usize = 0;
        while i < self.existing_files.len()
            invariant
                i <= self.existing_files@.len(),
                forall|k: int| 0 <= k < i ==> self.existing_files@[k]@ != p@,
            decreases self.existing_files@.len() - i,
        {
            if self.existing_files[i] == *p {
                proof {
                    assert(self@.existing_files[i as int] == p@);
                }
                return true;
            }
            i = i + 1;
        }
        proof {
            if self@.existing_files.contains(p@) {
                let k = choose|k: int| 0 <= k < self@.existing_files.len() && self@.existing_files[k] == p@;
                assert(self.existing_files@[k]@ == p@);
            }
        }
        false
    }
}

/// The environment variables that configure discovery, as read by the host.
pub struct IgnoreEnv {
    /// `GIT_IGNORE_DISABLE`
    pub git_ignore_disable: Option<String>,
    /// `AI_IGNORE_DISABLE`
    pub ai_ignore_disable: Option<String>,
    /// `CODEX_IGNORE_DISABLE`
    pub codex_ignore_disable: Option<String>,
    /// `CODEX_NO_IGNORE`
    pub codex_no_ignore: Option<String>,
    /// `GIT_IGNORE_FILE`
    pub git_ignore_file: Option<String>,
    /// `AI_IGNORE_FILE`
    pub ai_ignore_file: Option<String>,
    /// `CODEX_IGNORE_FILE`
    pub codex_ignore_file: Option<String>,
}

/// A switch variable is on exactly when it is set to `1`.
pub open spec fn env_flag(v: Option<Seq<char>>) -> bool {
    v == Some(seq!['1'])
}

/// The trimmed pieces that are absolute paths, in order.
pub open spec fn absolute_trimmed(ps: Seq<Seq<char>>) -> Seq<Seq<char>>
    decreases ps.len(),
{
    if ps.len() == 0 {
        Seq::<Seq<char>>::empty()
    } else {
        let r = absolute_trimmed(ps.drop_last());
        if is_absolute(trim(ps.last())) {
            r.push(trim(ps.last()))
        } else {
            r
        }
    }
}

/// The extra ignore files that a comma-separated variable names for a
/// family: each piece trimmed of white space, the absolute ones kept.
pub open spec fn env_files(f: Family, v: Option<Seq<char>>) -> Seq<(Family, Seq<char>)> {
    match v {
        Some(s) => absolute_trimmed(split_on(s, ',')).map_values(|p: Seq<char>| (f, p)),
        None => Seq::<(Family, Seq<char>)>::empty(),
    }
}

/// The extra files of all three variables, `.gitignore` ones first, then
/// `.aiignore`, then `.codexignore`.
pub open spec fn all_env_files(env: IgnoreEnvSpec) -> Seq<(Family, Seq<char>)> {
    env_files(Family::Git, env.git_ignore_file) + env_files(Family::Ai, env.ai_ignore_file)
        + env_files(Family::Codex, env.codex_ignore_file)
}

/// The plain value of the environment.
pub struct IgnoreEnvSpec {
    pub git_ignore_disable: Option<Seq<char>>,
    pub ai_ignore_disable: Option<Seq<char>>,
    pub codex_ignore_disable: Option<Seq<char>>,
    pub codex_no_ignore: Option<Seq<char>>,
    pub git_ignore_file: Option<Seq<char>>,
    pub ai_ignore_file: Option<Seq<char>>,
    pub codex_ignore_file: Option<Seq<char>>,
}

impl View for IgnoreEnv {
    type V = IgnoreEnvSpec;

    open spec fn view(&self) -> IgnoreEnvSpec {
        IgnoreEnvSpec {
            git_ignore_disable: opt_view(self.git_ignore_disable),
            ai_ignore_disable: opt_view(self.ai_ignore_disable),
            codex_ignore_disable: opt_view(self.codex_ignore_disable),
            codex_no_ignore: opt_view(self.codex_no_ignore),
            git_ignore_file: opt_view(self.git_ignore_file),
            ai_ignore_file: opt_view(self.ai_ignore_file),
            codex_ignore_file: opt_view(self.codex_ignore_file),
        }
    }
}

/// Discover ignore files according to the hierarchy and precedence rules
pub struct IgnoreDiscovery {
    /// Whether Git family files are disabled
    git_disabled: bool,
    /// Whether AI family files are disabled
    ai_disabled: bool,
    /// Whether Codex family files are disabled
    codex_disabled: bool,
    /// Whether all ignoring is disabled
    all_disabled: bool,
    /// Additional ignore files from environment/CLI
    additional_files: Vec<(Family, String)>,
}

/// The plain value of a discovery configuration.
pub struct DiscoverySpec {
    pub git_disabled: bool,
    pub ai_disabled: bool,
    pub codex_disabled: bool,
    pub all_disabled: bool,
    pub additional_files: Seq<(Family, Seq<char>)>,
}

/// The character views of (family, path) pairs.
pub open spec fn pair_views(v: Seq<(Family, String)>) -> Seq<(Family, Seq<char>)> {
    v.map_values(|p: (Family, String)| (p.0, p.1@))
}

impl View for IgnoreDiscovery {
    type V = DiscoverySpec;

    closed spec fn view(&self) -> DiscoverySpec {
        DiscoverySpec {
            git_disabled: self.git_disabled,
            ai_disabled: self.ai_disabled,
            codex_disabled: self.codex_disabled,
            all_disabled: self.all_disabled,
            additional_files: pair_views(self.additional_files@),
        }
    }
}

/// The configuration the environment sets: each switch variable on when
/// set to `1`, and the extra files of the three file-list variables.
pub open spec fn discovery_from_env(env: IgnoreEnvSpec) -> DiscoverySpec {
    DiscoverySpec {
        git_disabled: env_flag(env.git_ignore_disable),
        ai_disabled: env_flag(env.ai_ignore_disable),
        codex_disabled: env_flag(env.codex_ignore_disable),
        all_disabled: env_flag(env.codex_no_ignore),
        additional_files: all_env_files(env),
    }
}

/// Whether the family is switched off.
pub open spec fn family_disabled(d: DiscoverySpec, f: Family) -> bool {
    match f {
        Family::Git => d.git_disabled,
        Family::Ai => d.ai_disabled,
        Family::Codex => d.codex_disabled,
    }
}

/// The system-wide ignore file of a family: `/etc/<name>/ignore`.
pub open spec fn system_global_paths(f: Family) -> Seq<Seq<char>> {
    seq!["/etc/"@ + family_dir_name(f) + "/ignore"@]
}

/// The user's configuration directory: `XDG_CONFIG_HOME` if it is set and
/// not empty, else `$HOME/.config` if `HOME` is set, else empty.
pub open spec fn config_home(xdg: Option<Seq<char>>, home: Option<Seq<char>>) -> Seq<char> {
    let from_home = match home {
        Some(h) => h + "/.config"@,
        None => Seq::<char>::empty(),
    };
    match xdg {
        Some(x) => if x.len() > 0 {
            x
        } else {
            from_home
        },
        None => from_home,
    }
}

/// The user-global ignore file of a family, `<config>/<name>/ignore`; none
/// when the configuration directory is empty.
pub open spec fn user_global_paths(f: Family, home: Seq<char>) -> Seq<Seq<char>> {
    if home.len() == 0 {
        Seq::<Seq<char>>::empty()
    } else {
        seq![path_join(path_join(home, family_dir_name(f)), "ignore"@)]
    }
}

/// The global files of a family at a global scope.
pub open spec fn scope_global_paths(f: Family, scope: Scope, h: HostSpec) -> Seq<Seq<char>> {
    if scope == Scope::System {
        system_global_paths(f)
    } else {
        user_global_paths(f, config_home(h.xdg_config_home, h.home))
    }
}

/// The entries for the paths that exist, in order; a global entry has an
/// empty directory.
pub open spec fn existing_entries(
    paths: Seq<Seq<char>>,
    f: Family,
    scope: Scope,
    h: HostSpec,
) -> Seq<EntrySpec>
    decreases paths.len(),
{
    if paths.len() == 0 {
        Seq::<EntrySpec>::empty()
    } else {
        let r = existing_entries(paths.drop_last(), f, scope, h);
        if host_has_file(h, paths.last()) {
            r.push(EntrySpec { file_path: paths.last(), family: f, scope, dir: Seq::<char>::empty() })
        } else {
            r
        }
    }
}

/// The global entries of one family at a global scope (none if disabled).
pub open spec fn family_global_entries(
    d: DiscoverySpec,
    f: Family,
    scope: Scope,
    h: HostSpec,
) -> Seq<EntrySpec> {
    if family_disabled(d, f) {
        Seq::<EntrySpec>::empty()
    } else {
        existing_entries(scope_global_paths(f, scope, h), f, scope, h)
    }
}

/// The global entries at a scope, in family order.
pub open spec fn global_entries(d: DiscoverySpec, scope: Scope, h: HostSpec) -> Seq<EntrySpec> {
    family_global_entries(d, Family::Git, scope, h) + family_global_entries(d, Family::Ai, scope, h)
        + family_global_entries(d, Family::Codex, scope, h)
}

/// The ignore file of a family in a directory, if it exists.
pub open spec fn dir_entry(dir: Seq<char>, f: Family, scope: Scope, h: HostSpec) -> Seq<EntrySpec> {
    let p = path_join(dir, family_filename(f));
    if host_has_file(h, p) {
        seq![EntrySpec { file_path: p, family: f, scope, dir }]
    } else {
        Seq::<EntrySpec>::empty()
    }
}

/// The ignore file of a family in a directory, unless the family is disabled.
pub open spec fn enabled_dir_entry(
    d: DiscoverySpec,
    dir: Seq<char>,
    f: Family,
    scope: Scope,
    h: HostSpec,
) -> Seq<EntrySpec> {
    if family_disabled(d, f) {
        Seq::<EntrySpec>::empty()
    } else {
        dir_entry(dir, f, scope, h)
    }
}

/// The ignore files of a directory, in family order.
pub open spec fn dir_entries(d: DiscoverySpec, dir: Seq<char>, scope: Scope, h: HostSpec) -> Seq<EntrySpec> {
    enabled_dir_entry(d, dir, Family::Git, scope, h) + enabled_dir_entry(d, dir, Family::Ai, scope, h)
        + enabled_dir_entry(d, dir, Family::Codex, scope, h)
}

/// The ignore files of the walked directories other than the root, in walk order.
pub open spec fn nested_entries(
    d: DiscoverySpec,
    root: Seq<char>,
    dirs: Seq<Seq<char>>,
    h: HostSpec,
) -> Seq<EntrySpec>
    decreases dirs.len(),
{
    if dirs.len() == 0 {
        Seq::<EntrySpec>::empty()
    } else {
        let r = nested_entries(d, root, dirs.drop_last(), h);
        if same_path(dirs.last(), root) {
            r
        } else {
            r + dir_entries(d, dirs.last(), Scope::Directory, h)
        }
    }
}

/// The additional files of enabled families, as project-level entries.
pub open spec fn additional_entries(
    d: DiscoverySpec,
    root: Seq<char>,
    adds: Seq<(Family, Seq<char>)>,
) -> Seq<EntrySpec>
    decreases adds.len(),
{
    if adds.len() == 0 {
        Seq::<EntrySpec>::empty()
    } else {
        let r = additional_entries(d, root, adds.drop_last());
        let (f, p) = adds.last();
        if family_disabled(d, f) {
            r
        } else {
            r.push(EntrySpec { file_path: p, family: f, scope: Scope::ProjectRoot, dir: root })
        }
    }
}

/// Everything discovery finds, in precedence order: system files, user
/// files, project root files, nested directory files, additional files.
pub open spec fn discovered_entries(d: DiscoverySpec, root: Seq<char>, h: HostSpec) -> Seq<EntrySpec> {
    if d.all_disabled {
        Seq::<EntrySpec>::empty()
    } else {
        global_entries(d, Scope::System, h) + global_entries(d, Scope::User, h) + dir_entries(
            d,
            root,
            Scope::ProjectRoot,
            h,
        ) + nested_entries(d, root, h.walked_dirs, h) + additional_entries(
            d,
            root,
            d.additional_files,
        )
    }
}

/// The sources discovery returns: its entries, numbered from zero.
pub open spec fn discovered(d: DiscoverySpec, root: Seq<char>, h: HostSpec) -> Seq<SourceSpec> {
    numbered(discovered_entries(d, root, h), 0)
}

/// An upper bound on the number of sources, for the order counter.
pub open spec fn max_sources(d: DiscoverySpec, h: HostSpec) -> nat {
    9 + 3 * h.walked_dirs.len() + d.additional_files.len()
}

/// The sources of an optional source.
pub open spec fn option_views(o: Option<IgnoreSource>) -> Seq<SourceSpec> {
    match o {
        Some(s) => seq![s@],
        None => Seq::<SourceSpec>::empty(),
    }
}

/// Numbering two runs of entries one after the other numbers their
/// concatenation.
pub proof fn lemma_numbered_concat(a: Seq<EntrySpec>, b: Seq<EntrySpec>, start: nat)
    ensures
        numbered(a, start) + numbered(b, start + a.len()) == numbered(a + b, start),
{
    assert(numbered(a, start) + numbered(b, start + a.len()) =~= numbered(a + b, start));
}

proof fn lemma_existing_entries_len(paths: Seq<Seq<char>>, f: Family, scope: Scope, h: HostSpec)
    ensures
        existing_entries(paths, f, scope, h).len() <= paths.len(),
    decreases paths.len(),
{
    if paths.len() > 0 {
        lemma_existing_entries_len(paths.drop_last(), f, scope, h);
    }
}

proof fn lemma_nested_entries_len(d: DiscoverySpec, root: Seq<char>, dirs: Seq<Seq<char>>, h: HostSpec)
    ensures
        nested_entries(d, root, dirs, h).len() <= 3 * dirs.len(),
    decreases dirs.len(),
{
    if dirs.len() > 0 {
        lemma_nested_entries_len(d, root, dirs.drop_last(), h);
    }
}

proof fn lemma_additional_entries_len(d: DiscoverySpec, root: Seq<char>, adds: Seq<(Family, Seq<char>)>)
    ensures
        additional_entries(d, root, adds).len() <= adds.len(),
    decreases adds.len(),
{
    if adds.len() > 0 {
        lemma_additional_entries_len(d, root, adds.drop_last());
    }
}

/// Whether a string is exactly `1`.
fn is_one(s: &String) -> (r: bool)
    ensures
        r == (s@ == seq!['1']),
{
    let t = s.as_str();
    if t.unicode_len() == 1 {
        let c = t.get_char(0);
        proof {
            if c == '1' {
                assert(s@ =~= seq!['1']);
            }
        }
        c == '1'
    } else {
        false
    }
}

/// Whether a switch variable is set to `1`.
fn env_flag_of(v: &Option<String>) -> (r: bool)
    ensures
        r == env_flag(opt_view(*v)),
{
    match v {
        Some(s) => is_one(s),
        None => false,
    }
}

/// The user's configuration directory, from the host's environment.
fn config_home_of(host: &HostView) -> (r: String)
    ensures
        r@ == config_home(host@.xdg_config_home, host@.home),
{
    let from_home = match &host.home {
        Some(h) => {
            let mut s = h.clone();
            s.append("/.config");
            s
        },
        None => String::new(),
    };
    match &host.xdg_config_home {
        Some(x) => {
            if x.as_str().unicode_len() > 0 {
                x.clone()
            } else {
                from_home
            }
        },
        None => from_home,
    }
}

impl IgnoreDiscovery {
    /// Create a new IgnoreDiscovery with environment variable settings
    pub fn new(env: &IgnoreEnv) -> (r: Self)
        ensures
            r@ == discovery_from_env(env@),
    {
        let git_disabled = env_flag_of(&env.git_ignore_disable);
        let ai_disabled = env_flag_of(&env.ai_ignore_disable);
        let codex_disabled = env_flag_of(&env.codex_ignore_disable);
        let all_disabled = env_flag_of(&env.codex_no_ignore);
        Self::with_controls(git_disabled, ai_disabled, codex_disabled, all_disabled, env)
    }

    /// Create a new IgnoreDiscovery with explicit family controls
    pub fn with_controls(
        git_disabled: bool,
        ai_disabled: bool,
        codex_disabled: bool,
        all_disabled: bool,
        env: &IgnoreEnv,
    ) -> (r: Self)
        ensures
            r@ == (DiscoverySpec {
                git_disabled,
                ai_disabled,
                codex_disabled,
                all_disabled,
                additional_files: all_env_files(env@),
            }),
    {
        let mut additional_files: Vec<(Family, String)> = Vec::new();
        proof {
            assert(pair_views(additional_files@) =~= Seq::<(Family, Seq<char>)>::empty());
        }
        Self::add_env_files(&mut additional_files, Family::Git, &env.git_ignore_file);
        Self::add_env_files(&mut additional_files, Family::Ai, &env.ai_ignore_file);
        Self::add_env_files(&mut additional_files, Family::Codex, &env.codex_ignore_file);
        proof {
            assert(pair_views(additional_files@) =~= all_env_files(env@));
        }
        Self { git_disabled, ai_disabled, codex_disabled, all_disabled, additional_files }
    }

    /// Helper method to add environment variable sources for a family
    fn add_env_files(
        additional_files: &mut Vec<(Family, String)>,
        family: Family,
        value: &Option<String>,
    )
        ensures
            pair_views(final(additional_files)@) == pair_views(old(additional_files)@) + env_files(
                family,
                opt_view(*value),
            ),
    {
        match value {
            None => {
                proof {
                    assert(pair_views(additional_files@) =~= pair_views(additional_files@)
                        + Seq::<(Family, Seq<char>)>::empty());
                }
            },
            Some(files) => {
                let pieces = split_str(files.as_str(), ',');
                let ghost ps = split_on(files@, ',');
                let ghost start = pair_views(additional_files@);
                let mut i: usize = 0;
                proof {
                    assert(ps.take(0) =~= Seq::<Seq<char>>::empty());
                    assert(start + absolute_trimmed(ps.take(0)).map_values(
                        |p: Seq<char>| (family, p),
                    ) =~= start);
                }
                while i < pieces.len()
                    invariant
                        views(pieces@) == ps,
                        i <= pieces@.len(),
                        pair_views(additional_files@) == start + absolute_trimmed(
                            ps.take(i as int),
                        ).map_values(|p: Seq<char>| (family, p)),
                    decreases pieces@.len() - i,
                {
                    let ghost before = pair_views(additional_files@);
                    proof {
                        assert(ps.take(i + 1).drop_last() =~= ps.take(i as int));
                        assert(pieces@[i as int]@ == ps[i as int]);
                    }
                    let path = trim_str(pieces[i].as_str());
                    if path_is_absolute(path.as_str()) {
                        additional_files.push((family, path));
                        proof {
                            assert(pair_views(additional_files@) =~= before.push((family, path@)));
                            assert(absolute_trimmed(ps.take(i + 1)) == absolute_trimmed(
                                ps.take(i as int),
                            ).push(path@));
                            assert(pair_views(additional_files@) =~= start + absolute_trimmed(
                                ps.take(i + 1),
                            ).map_values(|p: Seq<char>| (family, p)));
                        }
                    } else {
                        proof {
                            assert(absolute_trimmed(ps.take(i + 1)) == absolute_trimmed(
                                ps.take(i as int),
                            ));
                        }
                    }
                    i = i + 1;
                }
                proof {
                    assert(ps.take(pieces@.len() as int) =~= ps);
                }
            },
        }
    }
}

impl IgnoreDiscovery {
    /// Discover all ignore sources for a project
    pub fn discover(&self, project_root: &str, host: &HostView) -> (r: Vec<IgnoreSource>)
        requires
            max_sources(self@, host@) <= usize::MAX,
        ensures
            source_views(r@) == discovered(self@, absolute_root(project_root@, host@), host@),
    {
        let absolute = join(host.current_dir.as_str(), project_root);
        let project_root = absolute.as_str();
        let ghost d = self@;
        let ghost h = host@;
        let ghost root = project_root@;
        if self.all_disabled {
            proof {
                assert(source_views(Seq::<IgnoreSource>::empty()) =~= numbered(
                    Seq::<EntrySpec>::empty(),
                    0,
                ));
            }
            return Vec::new();
        }
        let mut sources: Vec<IgnoreSource> = Vec::new();
        let mut order: usize = 0;
        let ghost mut acc: Seq<EntrySpec> = Seq::<EntrySpec>::empty();
        proof {
            assert(source_views(sources@) =~= numbered(acc, 0));
            lemma_existing_entries_len(system_global_paths(Family::Git), Family::Git, Scope::System, h);
            lemma_existing_entries_len(system_global_paths(Family::Ai), Family::Ai, Scope::System, h);
            lemma_existing_entries_len(system_global_paths(Family::Codex), Family::Codex, Scope::System, h);
            let ch = config_home(h.xdg_config_home, h.home);
            lemma_existing_entries_len(user_global_paths(Family::Git, ch), Family::Git, Scope::User, h);
            lemma_existing_entries_len(user_global_paths(Family::Ai, ch), Family::Ai, Scope::User, h);
            lemma_existing_entries_len(user_global_paths(Family::Codex, ch), Family::Codex, Scope::User, h);
            lemma_nested_entries_len(d, root, h.walked_dirs, h);
            lemma_additional_entries_len(d, root, d.additional_files);
        }

        // 1. System global files (in family precedence order)
        self.discover_global(Family::Git, Scope::System, &mut order, host, &mut sources, Ghost(acc));
        proof { acc = acc + family_global_entries(d, Family::Git, Scope::System, h); }
        self.discover_global(Family::Ai, Scope::System, &mut order, host, &mut sources, Ghost(acc));
        proof { acc = acc + family_global_entries(d, Family::Ai, Scope::System, h); }
        self.discover_global(Family::Codex, Scope::System, &mut order, host, &mut sources, Ghost(acc));
        proof {
            acc = acc + family_global_entries(d, Family::Codex, Scope::System, h);
            assert(acc =~= global_entries(d, Scope::System, h));
        }
        let ghost acc_sys = acc;

        // 2. User global files (in family precedence order)
        self.discover_global(Family::Git, Scope::User, &mut order, host, &mut sources, Ghost(acc));
        proof { acc = acc + family_global_entries(d, Family::Git, Scope::User, h); }
        self.discover_global(Family::Ai, Scope::User, &mut order, host, &mut sources, Ghost(acc));
        proof { acc = acc + family_global_entries(d, Family::Ai, Scope::User, h); }
        self.discover_global(Family::Codex, Scope::User, &mut order, host, &mut sources, Ghost(acc));
        proof {
            acc = acc + family_global_entries(d, Family::Codex, Scope::User, h);
            assert(acc =~= acc_sys + global_entries(d, Scope::User, h));
        }
        let ghost acc_user = acc;

        // 3. Project root files (in family precedence order)
        self.discover_dir_files(project_root, Scope::ProjectRoot, &mut order, host, &mut sources, Ghost(acc));
        proof { acc = acc + dir_entries(d, root, Scope::ProjectRoot, h); }

        // 4. Discover nested directory ignore files
        let mut nested = self.discover_nested_directories(project_root, &mut order, host);
        proof {
            lemma_numbered_concat(acc, nested_entries(d, root, h.walked_dirs, h), 0);
        }
        sources.append(&mut nested);
        proof {
            acc = acc + nested_entries(d, root, h.walked_dirs, h);
            assert(source_views(sources@) =~= numbered(acc, 0));
        }

        // 5. Additional files from environment/CLI
        let ghost before_adds = acc;
        let mut k: usize = 0;
        while k < self.additional_files.len()
            invariant
                d == self@,
                root == project_root@,
                h == host@,
                k <= self.additional_files@.len(),
                order as nat == sources@.len(),
                acc == before_adds + additional_entries(d, root, d.additional_files.take(k as int)),
                source_views(sources@) == numbered(acc, 0),
                before_adds.len() <= 9 + 3 * h.walked_dirs.len(),
                max_sources(d, h) <= usize::MAX,
            decreases self.additional_files@.len() - k,
        {
            let ghost prev = acc;
            proof {
                assert(d.additional_files.take(k + 1).drop_last() =~= d.additional_files.take(k as int));
                assert(d.additional_files[k as int] == (self.additional_files@[k as int].0, self.additional_files@[k as int].1@));
                lemma_additional_entries_len(d, root, d.additional_files.take(k as int));
            }
            let family = self.additional_files[k].0;
            proof {
                assert(source_views(sources@).len() == sources@.len());
                assert(numbered(acc, 0).len() == acc.len());
            }
            if !self.is_disabled(family) {
                let src = IgnoreSource {
                    file_path: self.additional_files[k].1.clone(),
                    family,
                    scope: Scope::ProjectRoot,
                    dir: String::from_str(project_root),
                    order,
                };
                let ghost before_push = sources@;
                proof {
                    assert(src@.order == prev.len());
                    assert(src@.dir == root);
                }
                sources.push(src);
                order = order + 1;
                proof {
                    assert(sources@ == before_push.push(src));
                    assert(source_views(sources@) =~= source_views(before_push).push(src@));
                    let e = EntrySpec {
                        file_path: src.file_path@,
                        family,
                        scope: Scope::ProjectRoot,
                        dir: root,
                    };
                    acc = prev.push(e);
                    lemma_numbered_concat(prev, seq![e], 0);
                    assert(numbered(seq![e], prev.len()) =~= seq![src@]);
                    assert(prev + seq![e] =~= acc);
                    assert(source_views(sources@) =~= numbered(prev, 0) + numbered(seq![e], prev.len()));
                    assert(before_adds + additional_entries(d, root, d.additional_files.take(k + 1)) =~= acc);
                }
            } else {
                proof {
                    assert(before_adds + additional_entries(d, root, d.additional_files.take(k + 1)) =~= acc);
                }
            }
            k = k + 1;
        }
        proof {
            assert(d.additional_files.take(self.additional_files@.len() as int) =~= d.additional_files);
            assert(acc =~= discovered_entries(d, root, h));
        }
        sources
    }

    /// Whether a family is switched off.
    fn is_disabled(&self, family: Family) -> (r: bool)
        ensures
            r == family_disabled(self@, family),
    {
        match family {
            Family::Git => self.git_disabled,
            Family::Ai => self.ai_disabled,
            Family::Codex => self.codex_disabled,
        }
    }

    /// Appends the global files of a family at a global scope, unless the
    /// family is disabled.
    fn discover_global(
        &self,
        family: Family,
        scope: Scope,
        order: &mut usize,
        host: &HostView,
        sources: &mut Vec<IgnoreSource>,
        Ghost(acc): Ghost<Seq<EntrySpec>>,
    )
        requires
            scope == Scope::System || scope == Scope::User,
            *old(order) as nat == old(sources)@.len(),
            source_views(old(sources)@) == numbered(acc, 0),
            *old(order) + 1 <= usize::MAX,
        ensures
            *final(order) as nat == final(sources)@.len(),
            *final(order) <= *old(order) + 1,
            source_views(final(sources)@) == numbered(
                acc + family_global_entries(self@, family, scope, host@),
                0,
            ),
    {
        let ghost es = family_global_entries(self@, family, scope, host@);
        proof {
            lemma_existing_entries_len(scope_global_paths(family, scope, host@), family, scope, host@);
        }
        if self.is_disabled(family) {
            proof {
                assert(acc + es =~= acc);
            }
            return;
        }
        let mut found = if scope == Scope::System {
            self.discover_system_global(family, order, host)
        } else {
            self.discover_user_global(family, order, host)
        };
        proof {
            lemma_numbered_concat(acc, es, 0);
        }
        sources.append(&mut found);
        proof {
            assert(source_views(sources@) =~= numbered(acc, 0) + numbered(es, acc.len()));
        }
    }

    /// Appends the ignore files of a directory, in family order, skipping
    /// disabled families.
    fn discover_dir_files(
        &self,
        dir: &str,
        scope: Scope,
        order: &mut usize,
        host: &HostView,
        sources: &mut Vec<IgnoreSource>,
        Ghost(acc): Ghost<Seq<EntrySpec>>,
    )
        requires
            *old(order) as nat == old(sources)@.len(),
            source_views(old(sources)@) == numbered(acc, 0),
            *old(order) + 3 <= usize::MAX,
        ensures
            *final(order) as nat == final(sources)@.len(),
            *final(order) <= *old(order) + 3,
            source_views(final(sources)@) == numbered(acc + dir_entries(self@, dir@, scope, host@), 0),
    {
        let ghost d = self@;
        let ghost h = host@;
        let ghost mut cur = acc;
        let fams = [Family::Git, Family::Ai, Family::Codex];
        let mut j: usize = 0;
        while j < 3
            invariant
                d == self@,
                h == host@,
                fams@ == seq![Family::Git, Family::Ai, Family::Codex],
                j <= 3,
                *order as nat == sources@.len(),
                *order <= *old(order) + j,
                *old(order) + 3 <= usize::MAX,
                source_views(sources@) == numbered(cur, 0),
                cur == acc + (if j == 0 {
                    Seq::<EntrySpec>::empty()
                } else if j == 1 {
                    enabled_dir_entry(d, dir@, Family::Git, scope, h)
                } else if j == 2 {
                    enabled_dir_entry(d, dir@, Family::Git, scope, h) + enabled_dir_entry(d, dir@, Family::Ai, scope, h)
                } else {
                    dir_entries(d, dir@, scope, h)
                }),
            decreases 3 - j,
        {
            let family = fams[j];
            let ghost prev = cur;
            let ghost e = enabled_dir_entry(d, dir@, family, scope, h);
            if !self.is_disabled(family) {
                let found = self.discover_project_file(dir, family, scope, order, host);
                proof {
                    lemma_numbered_concat(prev, e, 0);
                }
                match found {
                    Some(src) => {
                        sources.push(src);
                        proof {
                            assert(source_views(sources@) =~= numbered(prev, 0) + numbered(e, prev.len()));
                        }
                    },
                    None => {
                        proof {
                            assert(source_views(sources@) =~= numbered(prev, 0) + numbered(e, prev.len()));
                        }
                    },
                }
            } else {
                proof {
                    assert(prev + e =~= prev);
                }
            }
            proof {
                cur = prev + e;
                assert(cur =~= acc + (if j + 1 == 1 {
                    enabled_dir_entry(d, dir@, Family::Git, scope, h)
                } else if j + 1 == 2 {
                    enabled_dir_entry(d, dir@, Family::Git, scope, h) + enabled_dir_entry(d, dir@, Family::Ai, scope, h)
                } else {
                    dir_entries(d, dir@, scope, h)
                }));
            }
            j = j + 1;
        }
    }

    /// The system global ignore files of a family that exist.
    fn discover_system_global(&self, family: Family, order: &mut usize, host: &HostView) -> (r: Vec<IgnoreSource>)
        requires
            *old(order) + 1 <= usize::MAX,
        ensures
            source_views(r@) == numbered(existing_entries(system_global_paths(family), family, Scope::System, host@), *old(order) as nat),
            *final(order) == *old(order) + r@.len(),
    {
        let paths = self.get_system_global_paths(family);
        collect_existing(&paths, family, Scope::System, order, host)
    }

    /// The user global ignore files of a family that exist.
    fn discover_user_global(&self, family: Family, order: &mut usize, host: &HostView) -> (r: Vec<IgnoreSource>)
        requires
            *old(order) + 1 <= usize::MAX,
        ensures
            source_views(r@) == numbered(
                existing_entries(
                    user_global_paths(family, config_home(host@.xdg_config_home, host@.home)),
                    family,
                    Scope::User,
                    host@,
                ),
                *old(order) as nat,
            ),
            *final(order) == *old(order) + r@.len(),
    {
        let paths = self.get_user_global_paths(family, host);
        collect_existing(&paths, family, Scope::User, order, host)
    }

    /// The ignore file of a family in a directory, if it exists.
    fn discover_project_file(
        &self,
        dir: &str,
        family: Family,
        scope: Scope,
        order: &mut usize,
        host: &HostView,
    ) -> (r: Option<IgnoreSource>)
        requires
            *old(order) + 1 <= usize::MAX,
        ensures
            option_views(r) == numbered(dir_entry(dir@, family, scope, host@), *old(order) as nat),
            *final(order) == *old(order) + option_views(r).len(),
    {
        let path = join(dir, family.filename());
        if host.has_file(&path) {
            let source = IgnoreSource {
                file_path: path,
                family,
                scope,
                dir: String::from_str(dir),
                order: *order,
            };
            *order = *order + 1;
            proof {
                assert(option_views(Some(source)) =~= numbered(dir_entry(dir@, family, scope, host@), *old(order) as nat));
            }
            Some(source)
        } else {
            proof {
                assert(option_views(None) =~= numbered(dir_entry(dir@, family, scope, host@), *old(order) as nat));
            }
            None
        }
    }

    /// The system-wide ignore file paths of a family.
    fn get_system_global_paths(&self, family: Family) -> (r: Vec<String>)
        ensures
            views(r@) == system_global_paths(family),
    {
        let mut p = String::from_str("/etc/");
        p.append(family.dir_name());
        p.append("/ignore");
        let mut v = Vec::new();
        v.push(p);
        proof {
            assert(views(v@) =~= system_global_paths(family));
        }
        v
    }

    /// The user-global ignore file paths of a family.
    fn get_user_global_paths(&self, family: Family, host: &HostView) -> (r: Vec<String>)
        ensures
            views(r@) == user_global_paths(family, config_home(host@.xdg_config_home, host@.home)),
    {
        let config_home = config_home_of(host);
        let mut v = Vec::new();
        if config_home.as_str().unicode_len() > 0 {
            let dir = join(config_home.as_str(), family.dir_name());
            let p = join(dir.as_str(), "ignore");
            v.push(p);
        }
        proof {
            assert(views(v@) =~= user_global_paths(family, config_home@));
        }
        v
    }

    /// Discover ignore files in nested directories of the walk
    fn discover_nested_directories(
        &self,
        project_root: &str,
        order: &mut usize,
        host: &HostView,
    ) -> (r: Vec<IgnoreSource>)
        requires
            *old(order) + 3 * host@.walked_dirs.len() <= usize::MAX,
        ensures
            source_views(r@) == numbered(
                nested_entries(self@, project_root@, host@.walked_dirs, host@),
                *old(order) as nat,
            ),
            *final(order) == *old(order) + r@.len(),
    {
        let ghost d = self@;
        let ghost h = host@;
        let ghost start = *order as nat;
        let mut sources: Vec<IgnoreSource> = Vec::new();
        let mut local: usize = 0;
        let mut i: usize = 0;
        proof {
            assert(h.walked_dirs.take(0) =~= Seq::<Seq<char>>::empty());
            assert(source_views(sources@) =~= numbered(Seq::<EntrySpec>::empty(), 0));
        }
        while i < host.walked_dirs.len()
            invariant
                d == self@,
                h == host@,
                i <= h.walked_dirs.len(),
                local as nat == sources@.len(),
                local <= 3 * i,
                start + 3 * h.walked_dirs.len() <= usize::MAX,
                source_views(sources@) == numbered(nested_entries(d, project_root@, h.walked_dirs.take(i as int), h), 0),
            decreases h.walked_dirs.len() - i,
        {
            let ghost prev = nested_entries(d, project_root@, h.walked_dirs.take(i as int), h);
            proof {
                assert(h.walked_dirs.take(i + 1).drop_last() =~= h.walked_dirs.take(i as int));
                assert(h.walked_dirs[i as int] == host.walked_dirs@[i as int]@);
            }
            let dir_path = host.walked_dirs[i].as_str();
            if paths_equal(dir_path, project_root) {
                // the project root was handled already
            } else {
                self.discover_dir_files(dir_path, Scope::Directory, &mut local, host, &mut sources, Ghost(prev));
            }
            i = i + 1;
        }
        proof {
            assert(h.walked_dirs.take(h.walked_dirs.len() as int) =~= h.walked_dirs);
        }
        let mut out: Vec<IgnoreSource> = Vec::new();
        let mut k: usize = 0;
        while k < sources.len()
            invariant
                k <= sources@.len(),
                out@.len() == k,
                start + sources@.len() <= usize::MAX,
                *order as nat == start,
                forall|m: int| 0 <= m < k ==> #[trigger] out@[m]@ == (SourceSpec { order: (start + m) as nat, ..sources@[m]@ }),
            decreases sources@.len() - k,
        {
            let s = &sources[k];
            out.push(IgnoreSource {
                file_path: s.file_path.clone(),
                family: s.family,
                scope: s.scope,
                dir: s.dir.clone(),
                order: *order + k,
            });
            k = k + 1;
        }
        *order = *order + sources.len();
        proof {
            let es = nested_entries(d, project_root@, h.walked_dirs, h);
            assert forall|m: int| 0 <= m < out@.len() implies #[trigger] source_views(out@)[m] == numbered(es, start)[m] by {
                assert(source_views(sources@)[m] == numbered(es, 0)[m]);
            }
            assert(source_views(out@) =~= numbered(es, start));
        }
        out
    }
}

/// The sources for the paths that exist, numbered from the counter.
fn collect_existing(
    paths: &Vec<String>,
    family: Family,
    scope: Scope,
    order: &mut usize,
    host: &HostView,
) -> (r: Vec<IgnoreSource>)
    requires
        *old(order) + paths@.len() <= usize::MAX,
    ensures
        source_views(r@) == numbered(existing_entries(views(paths@), family, scope, host@), *old(order) as nat),
        *final(order) == *old(order) + r@.len(),
{
    let ghost start = *order as nat;
    let ghost ps = views(paths@);
    let mut sources: Vec<IgnoreSource> = Vec::new();
    let mut i: usize = 0;
    proof {
        assert(ps.take(0) =~= Seq::<Seq<char>>::empty());
        assert(source_views(sources@) =~= numbered(Seq::<EntrySpec>::empty(), start));
    }
    while i < paths.len()
        invariant
            ps == views(paths@),
            i <= paths@.len(),
            start + paths@.len() <= usize::MAX,
            *order as nat == start + sources@.len(),
            sources@.len() <= i,
            source_views(sources@) == numbered(existing_entries(ps.take(i as int), family, scope, host@), start),
        decreases paths@.len() - i,
    {
        let ghost prev = existing_entries(ps.take(i as int), family, scope, host@);
        proof {
            assert(ps.take(i + 1).drop_last() =~= ps.take(i as int));
            assert(ps[i as int] == paths@[i as int]@);
        }
        if host.has_file(&paths[i]) {
            let src = IgnoreSource {
                file_path: paths[i].clone(),
                family,
                scope,
                dir: String::new(),
                order: *order,
            };
            let ghost before_push = sources@;
            sources.push(src);
            *order = *order + 1;
            proof {
                assert(ps.take(i + 1).last() == ps[i as int]);
                let e = EntrySpec { file_path: ps[i as int], family, scope, dir: Seq::<char>::empty() };
                assert(existing_entries(ps.take(i + 1), family, scope, host@) == prev.push(e));
                assert(source_views(sources@) =~= source_views(before_push).push(src@));
                assert(source_views(sources@) =~= numbered(prev.push(e), start));
            }
        }
        i = i + 1;
    }
    proof {
        assert(ps.take(paths@.len() as int) =~= ps);
    }
    sources
}

/// The number of discovered sources that come from the additional files.
pub open spec fn additional_count(d: DiscoverySpec, root: Seq<char>) -> nat {
    if d.all_disabled {
        0
    } else {
        additional_entries(d, root, d.additional_files).len()
    }
}

proof fn lemma_existing_entries_props(paths: Seq<Seq<char>>, f: Family, scope: Scope, h: HostSpec)
    ensures
        forall|i: int|
            0 <= i < existing_entries(paths, f, scope, h).len() ==> {
                let e = #[trigger] existing_entries(paths, f, scope, h)[i];
                e.family == f && e.scope == scope
            },
    decreases paths.len(),
{
    if paths.len() > 0 {
        lemma_existing_entries_props(paths.drop_last(), f, scope, h);
    }
}

proof fn lemma_global_entries_props(d: DiscoverySpec, scope: Scope, h: HostSpec)
    ensures
        forall|i: int|
            0 <= i < global_entries(d, scope, h).len() ==> {
                let e = #[trigger] global_entries(d, scope, h)[i];
                e.scope == scope && !family_disabled(d, e.family)
            },
{
    lemma_existing_entries_props(scope_global_paths(Family::Git, scope, h), Family::Git, scope, h);
    lemma_existing_entries_props(scope_global_paths(Family::Ai, scope, h), Family::Ai, scope, h);
    lemma_existing_entries_props(scope_global_paths(Family::Codex, scope, h), Family::Codex, scope, h);
    let a = family_global_entries(d, Family::Git, scope, h);
    let b = family_global_entries(d, Family::Ai, scope, h);
    let c = family_global_entries(d, Family::Codex, scope, h);
    assert forall|i: int| 0 <= i < global_entries(d, scope, h).len() implies {
        let e = #[trigger] global_entries(d, scope, h)[i];
        e.scope == scope && !family_disabled(d, e.family)
    } by {
        if i < a.len() {
            assert(global_entries(d, scope, h)[i] == a[i]);
        } else if i < a.len() + b.len() {
            assert(global_entries(d, scope, h)[i] == b[i - a.len()]);
        } else {
            assert(global_entries(d, scope, h)[i] == c[i - a.len() - b.len()]);
        }
    }
}

proof fn lemma_dir_entries_props(d: DiscoverySpec, dir: Seq<char>, scope: Scope, h: HostSpec)
    ensures
        dir_entries(d, dir, scope, h).len() <= 3,
        forall|i: int|
            0 <= i < dir_entries(d, dir, scope, h).len() ==> {
                let e = #[trigger] dir_entries(d, dir, scope, h)[i];
                e.scope == scope && e.dir == dir && !family_disabled(d, e.family)
                    && e.file_path == path_join(dir, family_filename(e.family))
            },
        forall|i: int, j: int|
            0 <= i < j < dir_entries(d, dir, scope, h).len() ==> crate::family::family_rank(
                #[trigger] dir_entries(d, dir, scope, h)[i].family,
            ) < crate::family::family_rank(#[trigger] dir_entries(d, dir, scope, h)[j].family),
{
    let a = enabled_dir_entry(d, dir, Family::Git, scope, h);
    let b = enabled_dir_entry(d, dir, Family::Ai, scope, h);
    let c = enabled_dir_entry(d, dir, Family::Codex, scope, h);
    let es = dir_entries(d, dir, scope, h);
    assert forall|i: int| 0 <= i < es.len() implies {
        let e = #[trigger] es[i];
        e.scope == scope && e.dir == dir && !family_disabled(d, e.family)
            && e.file_path == path_join(dir, family_filename(e.family))
    } by {
        if i < a.len() {
            assert(es[i] == a[i]);
        } else if i < a.len() + b.len() {
            assert(es[i] == b[i - a.len()]);
        } else {
            assert(es[i] == c[i - a.len() - b.len()]);
        }
    }
    assert forall|i: int, j: int| 0 <= i < j < es.len() implies crate::family::family_rank(
        #[trigger] es[i].family,
    ) < crate::family::family_rank(#[trigger] es[j].family) by {
        let fi = if i < a.len() {
            Family::Git
        } else if i < a.len() + b.len() {
            Family::Ai
        } else {
            Family::Codex
        };
        let fj = if j < a.len() {
            Family::Git
        } else if j < a.len() + b.len() {
            Family::Ai
        } else {
            Family::Codex
        };
        if i < a.len() {
            assert(es[i] == a[i]);
        } else if i < a.len() + b.len() {
            assert(es[i] == b[i - a.len()]);
        } else {
            assert(es[i] == c[i - a.len() - b.len()]);
        }
        if j < a.len() {
            assert(es[j] == a[j]);
        } else if j < a.len() + b.len() {
            assert(es[j] == b[j - a.len()]);
        } else {
            assert(es[j] == c[j - a.len() - b.len()]);
        }
        assert(es[i].family == fi);
        assert(es[j].family == fj);
    }
}

proof fn lemma_nested_entries_props(d: DiscoverySpec, root: Seq<char>, dirs: Seq<Seq<char>>, h: HostSpec)
    ensures
        forall|i: int|
            0 <= i < nested_entries(d, root, dirs, h).len() ==> {
                let e = #[trigger] nested_entries(d, root, dirs, h)[i];
                e.scope == Scope::Directory && !family_disabled(d, e.family) && dirs.contains(e.dir)
                    && e.file_path == path_join(e.dir, family_filename(e.family))
            },
        dirs.no_duplicates() ==> forall|i: int, j: int|
            0 <= i < j < nested_entries(d, root, dirs, h).len() && (#[trigger] nested_entries(
                d,
                root,
                dirs,
                h,
            )[i]).dir == (#[trigger] nested_entries(d, root, dirs, h)[j]).dir
                ==> crate::family::family_rank(nested_entries(d, root, dirs, h)[i].family)
                < crate::family::family_rank(nested_entries(d, root, dirs, h)[j].family),
    decreases dirs.len(),
{
    if dirs.len() > 0 {
        let prev = dirs.drop_last();
        lemma_nested_entries_props(d, root, prev, h);
        let r = nested_entries(d, root, prev, h);
        let es = nested_entries(d, root, dirs, h);
        if !same_path(dirs.last(), root) {
            let t = dir_entries(d, dirs.last(), Scope::Directory, h);
            lemma_dir_entries_props(d, dirs.last(), Scope::Directory, h);
            assert(es == r + t);
            assert forall|i: int| 0 <= i < es.len() implies {
                let e = #[trigger] es[i];
                e.scope == Scope::Directory && !family_disabled(d, e.family) && dirs.contains(e.dir)
                    && e.file_path == path_join(e.dir, family_filename(e.family))
            } by {
                if i < r.len() {
                    assert(es[i] == r[i]);
                    let k = choose|k: int| 0 <= k < prev.len() && prev[k] == r[i].dir;
                    assert(dirs[k] == prev[k]);
                } else {
                    assert(es[i] == t[i - r.len()]);
                    assert(dirs[dirs.len() - 1] == dirs.last());
                }
            }
            if dirs.no_duplicates() {
                assert(prev.no_duplicates());
                assert forall|i: int, j: int|
                    0 <= i < j < es.len() && (#[trigger] es[i]).dir == (#[trigger] es[j]).dir implies crate::family::family_rank(
                    es[i].family,
                ) < crate::family::family_rank(es[j].family) by {
                    if j < r.len() {
                        assert(es[i] == r[i]);
                        assert(es[j] == r[j]);
                    } else if i < r.len() {
                        assert(es[i] == r[i]);
                        assert(es[j] == t[j - r.len()]);
                        let k = choose|k: int| 0 <= k < prev.len() && prev[k] == r[i].dir;
                        assert(dirs[k] == dirs[dirs.len() - 1]);
                    } else {
                        assert(es[i] == t[i - r.len()]);
                        assert(es[j] == t[j - r.len()]);
                    }
                }
            }
        } else {
            assert(es == r);
            assert forall|i: int| 0 <= i < es.len() implies {
                let e = #[trigger] es[i];
                e.scope == Scope::Directory && !family_disabled(d, e.family) && dirs.contains(e.dir)
                    && e.file_path == path_join(e.dir, family_filename(e.family))
            } by {
                let k = choose|k: int| 0 <= k < prev.len() && prev[k] == r[i].dir;
                assert(dirs[k] == prev[k]);
            }
            if dirs.no_duplicates() {
                assert(prev.no_duplicates());
            }
        }
    }
}

proof fn lemma_additional_entries_props(d: DiscoverySpec, root: Seq<char>, adds: Seq<(Family, Seq<char>)>)
    ensures
        forall|i: int|
            0 <= i < additional_entries(d, root, adds).len() ==> {
                let e = #[trigger] additional_entries(d, root, adds)[i];
                e.scope == Scope::ProjectRoot && e.dir == root && !family_disabled(d, e.family)
            },
    decreases adds.len(),
{
    if adds.len() > 0 {
        lemma_additional_entries_props(d, root, adds.drop_last());
    }
}

/// Each discovered source carries its own position as its order: the
/// orders run 0, 1, 2, ... in the order the sources are returned.
pub proof fn law_order_is_position(d: DiscoverySpec, root: Seq<char>, h: HostSpec)
    ensures
        forall|i: int|
            0 <= i < discovered(d, root, h).len() ==> #[trigger] discovered(d, root, h)[i].order == i,
{
}

/// When all ignoring is disabled, nothing is discovered.
pub proof fn law_all_disabled_discovers_nothing(d: DiscoverySpec, root: Seq<char>, h: HostSpec)
    requires
        d.all_disabled,
    ensures
        discovered(d, root, h).len() == 0,
{
}

/// No discovered source belongs to a disabled family.
pub proof fn law_disabled_family_absent(d: DiscoverySpec, root: Seq<char>, h: HostSpec)
    ensures
        forall|i: int|
            0 <= i < discovered(d, root, h).len() ==> !family_disabled(
                d,
                (#[trigger] discovered(d, root, h)[i]).family,
            ),
{
    lemma_discovered_props(d, root, h);
}

/// The sources found on the host come in precedence order: system files,
/// then user files, then project root files, then nested directory files
/// (the additional files named by the environment follow them all, as
/// project root files).
pub proof fn law_scope_precedence(d: DiscoverySpec, root: Seq<char>, h: HostSpec)
    ensures
        forall|i: int, j: int|
            0 <= i <= j < discovered(d, root, h).len() - additional_count(d, root) ==> crate::family::scope_rank(
                (#[trigger] discovered(d, root, h)[i]).scope,
            ) <= crate::family::scope_rank((#[trigger] discovered(d, root, h)[j]).scope),
        forall|i: int|
            discovered(d, root, h).len() - additional_count(d, root) <= i < discovered(d, root, h).len()
                ==> (#[trigger] discovered(d, root, h)[i]).scope == Scope::ProjectRoot
                && discovered(d, root, h)[i].dir == root,
{
    lemma_discovered_props(d, root, h);
}

/// Within one directory, the ignore files come in family order:
/// `.gitignore`, then `.aiignore`, then `.codexignore` (for a walk that
/// yields each directory once).
pub proof fn law_family_order_within_directory(d: DiscoverySpec, root: Seq<char>, h: HostSpec)
    requires
        h.walked_dirs.no_duplicates(),
    ensures
        forall|i: int, j: int|
            0 <= i < j < discovered(d, root, h).len() - additional_count(d, root)
                && (#[trigger] discovered(d, root, h)[i]).scope == (#[trigger] discovered(d, root, h)[j]).scope
                && discovered(d, root, h)[i].dir == discovered(d, root, h)[j].dir
                && discovered(d, root, h)[i].scope != Scope::System
                && discovered(d, root, h)[i].scope != Scope::User
                ==> crate::family::family_rank(discovered(d, root, h)[i].family)
                < crate::family::family_rank(discovered(d, root, h)[j].family),
{
    lemma_discovered_props(d, root, h);
}

/// Every project root or directory source is the family's file in its
/// directory.
pub proof fn law_directory_file_names(d: DiscoverySpec, root: Seq<char>, h: HostSpec)
    ensures
        forall|i: int|
            0 <= i < discovered(d, root, h).len() - additional_count(d, root)
                && (#[trigger] discovered(d, root, h)[i]).scope != Scope::System
                && discovered(d, root, h)[i].scope != Scope::User
                ==> discovered(d, root, h)[i].file_path == path_join(
                discovered(d, root, h)[i].dir,
                family_filename(discovered(d, root, h)[i].family),
            ),
{
    lemma_discovered_props(d, root, h);
}

proof fn lemma_discovered_props(d: DiscoverySpec, root: Seq<char>, h: HostSpec)
    ensures
        forall|i: int|
            0 <= i < discovered(d, root, h).len() ==> !family_disabled(
                d,
                (#[trigger] discovered(d, root, h)[i]).family,
            ),
        forall|i: int, j: int|
            0 <= i <= j < discovered(d, root, h).len() - additional_count(d, root) ==> crate::family::scope_rank(
                (#[trigger] discovered(d, root, h)[i]).scope,
            ) <= crate::family::scope_rank((#[trigger] discovered(d, root, h)[j]).scope),
        forall|i: int|
            discovered(d, root, h).len() - additional_count(d, root) <= i < discovered(d, root, h).len()
                ==> (#[trigger] discovered(d, root, h)[i]).scope == Scope::ProjectRoot
                && discovered(d, root, h)[i].dir == root,
        forall|i: int|
            0 <= i < discovered(d, root, h).len() - additional_count(d, root)
                && (#[trigger] discovered(d, root, h)[i]).scope != Scope::System
                && discovered(d, root, h)[i].scope != Scope::User
                ==> discovered(d, root, h)[i].file_path == path_join(
                discovered(d, root, h)[i].dir,
                family_filename(discovered(d, root, h)[i].family),
            ),
        h.walked_dirs.no_duplicates() ==> forall|i: int, j: int|
            0 <= i < j < discovered(d, root, h).len() - additional_count(d, root)
                && (#[trigger] discovered(d, root, h)[i]).scope == (#[trigger] discovered(d, root, h)[j]).scope
                && discovered(d, root, h)[i].dir == discovered(d, root, h)[j].dir
                && discovered(d, root, h)[i].scope != Scope::System
                && discovered(d, root, h)[i].scope != Scope::User
                ==> crate::family::family_rank(discovered(d, root, h)[i].family)
                < crate::family::family_rank(discovered(d, root, h)[j].family),
{
    if d.all_disabled {
        return;
    }
    let s = global_entries(d, Scope::System, h);
    let u = global_entries(d, Scope::User, h);
    let p = dir_entries(d, root, Scope::ProjectRoot, h);
    let n = nested_entries(d, root, h.walked_dirs, h);
    let a = additional_entries(d, root, d.additional_files);
    lemma_global_entries_props(d, Scope::System, h);
    lemma_global_entries_props(d, Scope::User, h);
    lemma_dir_entries_props(d, root, Scope::ProjectRoot, h);
    lemma_nested_entries_props(d, root, h.walked_dirs, h);
    lemma_additional_entries_props(d, root, d.additional_files);
    let es = discovered_entries(d, root, h);
    assert(es == s + u + p + n + a);
    let r = discovered(d, root, h);
    let b1 = s.len() as int;
    let b2 = b1 + u.len();
    let b3 = b2 + p.len();
    let b4 = b3 + n.len();
    // the entry at a position, by segment
    assert forall|i: int| 0 <= i < r.len() implies {
        &&& (i < b1 ==> r[i].scope == Scope::System && r[i].family == s[i].family)
        &&& (b1 <= i < b2 ==> r[i].scope == Scope::User && r[i].family == u[i - b1].family)
        &&& (b2 <= i < b3 ==> r[i].family == p[i - b2].family && r[i].scope == p[i - b2].scope
            && r[i].dir == p[i - b2].dir && r[i].file_path == p[i - b2].file_path)
        &&& (b3 <= i < b4 ==> r[i].family == n[i - b3].family && r[i].scope == n[i - b3].scope
            && r[i].dir == n[i - b3].dir && r[i].file_path == n[i - b3].file_path)
        &&& (b4 <= i ==> r[i].family == a[i - b4].family && r[i].scope == a[i - b4].scope
            && r[i].dir == a[i - b4].dir)
        &&& !family_disabled(d, r[i].family)
    } by {
        assert(r[i].family == es[i].family);
        if i < b1 {
            assert(es[i] == s[i]);
        } else if i < b2 {
            assert(es[i] == u[i - b1]);
        } else if i < b3 {
            assert(es[i] == p[i - b2]);
        } else if i < b4 {
            assert(es[i] == n[i - b3]);
        } else {
            assert(es[i] == a[i - b4]);
        }
    }
    assert forall|i: int, j: int|
        0 <= i <= j < r.len() - additional_count(d, root) implies crate::family::scope_rank(
        (#[trigger] r[i]).scope,
    ) <= crate::family::scope_rank((#[trigger] r[j]).scope) by {
        if b3 <= j && j < b4 {
            assert(n[j - b3].scope == Scope::Directory);
        }
        if b2 <= i && i < b3 {
            assert(p[i - b2].scope == Scope::ProjectRoot);
        }
        if b2 <= j && j < b3 {
            assert(p[j - b2].scope == Scope::ProjectRoot);
        }
        if b3 <= i && i < b4 {
            assert(n[i - b3].scope == Scope::Directory);
        }
    }
    assert forall|i: int|
        r.len() - additional_count(d, root) <= i < r.len() implies (#[trigger] r[i]).scope
        == Scope::ProjectRoot && r[i].dir == root by {
        assert(a[i - b4].scope == Scope::ProjectRoot);
    }
    assert forall|i: int|
        0 <= i < r.len() - additional_count(d, root) && (#[trigger] r[i]).scope != Scope::System
            && r[i].scope != Scope::User implies r[i].file_path == path_join(
        r[i].dir,
        family_filename(r[i].family),
    ) by {
        if b2 <= i && i < b3 {
            assert(p[i - b2].scope == Scope::ProjectRoot);
        } else if b3 <= i && i < b4 {
            assert(n[i - b3].scope == Scope::Directory);
        }
    }
    if h.walked_dirs.no_duplicates() {
        assert forall|i: int, j: int|
            0 <= i < j < r.len() - additional_count(d, root) && (#[trigger] r[i]).scope == (#[trigger] r[j]).scope
                && r[i].dir == r[j].dir && r[i].scope != Scope::System && r[i].scope != Scope::User
                implies crate::family::family_rank(r[i].family) < crate::family::family_rank(r[j].family) by {
            if b2 <= i && i < b3 {
                assert(p[i - b2].scope == Scope::ProjectRoot);
                if b3 <= j {
                    assert(n[j - b3].scope == Scope::Directory);
                }
                assert(p[i - b2] == p[i - b2]);
                assert(crate::family::family_rank(p[i - b2].family) < crate::family::family_rank(p[j - b2].family));
            } else {
                assert(n[i - b3].scope == Scope::Directory);
                assert(n[i - b3].dir == n[j - b3].dir);
                assert(crate::family::family_rank(n[i - b3].family) < crate::family::family_rank(n[j - b3].family));
            }
        }
    }
}

/// The ignore files of every family in a directory.
pub open spec fn dir_candidates(dir: Seq<char>) -> Seq<Seq<char>> {
    seq![
        path_join(dir, family_filename(Family::Git)),
        path_join(dir, family_filename(Family::Ai)),
        path_join(dir, family_filename(Family::Codex)),
    ]
}

/// The ignore files of every family in each of the directories, in order.
pub open spec fn dirs_candidates(dirs: Seq<Seq<char>>) -> Seq<Seq<char>>
    decreases dirs.len(),
{
    if dirs.len() == 0 {
        Seq::<Seq<char>>::empty()
    } else {
        dirs_candidates(dirs.drop_last()) + dir_candidates(dirs.last())
    }
}

/// Every path whose existence discovery may ask about: the system and user
/// files of each family, and each family's file in the project root and
/// in every walked directory.
pub open spec fn lookup_paths(root: Seq<char>, h: HostSpec) -> Seq<Seq<char>> {
    let ch = config_home(h.xdg_config_home, h.home);
    system_global_paths(Family::Git) + system_global_paths(Family::Ai) + system_global_paths(Family::Codex)
        + user_global_paths(Family::Git, ch) + user_global_paths(Family::Ai, ch) + user_global_paths(
        Family::Codex,
        ch,
    ) + dir_candidates(root) + dirs_candidates(h.walked_dirs)
}

/// The ignore files of every family in a directory.
fn dir_candidates_of(dir: &str) -> (r: Vec<String>)
    ensures
        views(r@) == dir_candidates(dir@),
{
    let mut v = Vec::new();
    v.push(join(dir, Family::Git.filename()));
    v.push(join(dir, Family::Ai.filename()));
    v.push(join(dir, Family::Codex.filename()));
    proof {
        assert(views(v@) =~= dir_candidates(dir@));
    }
    v
}

impl IgnoreDiscovery {
    /// Every path whose existence `discover` may ask the host about; a host
    /// view needs to list which of these exist.
    pub fn lookup_paths(&self, project_root: &str, host: &HostView) -> (r: Vec<String>)
        ensures
            views(r@) == lookup_paths(absolute_root(project_root@, host@), host@),
    {
        let absolute = join(host.current_dir.as_str(), project_root);
        let project_root = absolute.as_str();
        let mut out: Vec<String> = Vec::new();
        let mut a = self.get_system_global_paths(Family::Git);
        let mut b = self.get_system_global_paths(Family::Ai);
        let mut c = self.get_system_global_paths(Family::Codex);
        let mut d = self.get_user_global_paths(Family::Git, host);
        let mut e = self.get_user_global_paths(Family::Ai, host);
        let mut f = self.get_user_global_paths(Family::Codex, host);
        let mut g = dir_candidates_of(project_root);
        let ghost parts = views(a@) + views(b@) + views(c@) + views(d@) + views(e@) + views(f@) + views(g@);
        out.append(&mut a);
        out.append(&mut b);
        out.append(&mut c);
        out.append(&mut d);
        out.append(&mut e);
        out.append(&mut f);
        out.append(&mut g);
        proof {
            assert(views(out@) =~= parts);
            assert(host@.walked_dirs.take(0) =~= Seq::<Seq<char>>::empty());
            assert(parts + dirs_candidates(host@.walked_dirs.take(0)) =~= parts);
        }
        let mut i: usize = 0;
        while i < host.walked_dirs.len()
            invariant
                i <= host@.walked_dirs.len(),
                views(out@) == parts + dirs_candidates(host@.walked_dirs.take(i as int)),
            decreases host@.walked_dirs.len() - i,
        {
            let ghost before = views(out@);
            let mut more = dir_candidates_of(host.walked_dirs[i].as_str());
            proof {
                assert(host@.walked_dirs.take(i + 1).drop_last() =~= host@.walked_dirs.take(i as int));
                assert(host@.walked_dirs[i as int] == host.walked_dirs@[i as int]@);
            }
            let ghost m = views(more@);
            out.append(&mut more);
            proof {
                assert(views(out@) =~= before + m);
            }
            i = i + 1;
        }
        proof {
            assert(host@.walked_dirs.take(host@.walked_dirs.len() as int) =~= host@.walked_dirs);
        }
        out
    }
}

/// Two hosts agree on which of the paths exist.
pub open spec fn hosts_agree_on(h1: HostSpec, h2: HostSpec, ps: Seq<Seq<char>>) -> bool {
    forall|i: int| 0 <= i < ps.len() ==> host_has_file(h1, #[trigger] ps[i]) == host_has_file(h2, ps[i])
}

proof fn lemma_agree_split(h1: HostSpec, h2: HostSpec, a: Seq<Seq<char>>, b: Seq<Seq<char>>)
    requires
        hosts_agree_on(h1, h2, a + b),
    ensures
        hosts_agree_on(h1, h2, a),
        hosts_agree_on(h1, h2, b),
{
    assert forall|i: int| 0 <= i < a.len() implies host_has_file(h1, #[trigger] a[i]) == host_has_file(h2, a[i]) by {
        assert((a + b)[i] == a[i]);
    }
    assert forall|i: int| 0 <= i < b.len() implies host_has_file(h1, #[trigger] b[i]) == host_has_file(h2, b[i]) by {
        assert((a + b)[a.len() + i] == b[i]);
    }
}

proof fn lemma_existing_entries_frame(paths: Seq<Seq<char>>, f: Family, scope: Scope, h1: HostSpec, h2: HostSpec)
    requires
        hosts_agree_on(h1, h2, paths),
    ensures
        existing_entries(paths, f, scope, h1) == existing_entries(paths, f, scope, h2),
    decreases paths.len(),
{
    if paths.len() > 0 {
        lemma_agree_split(h1, h2, paths.drop_last(), seq![paths.last()]);
        assert(paths.drop_last() + seq![paths.last()] =~= paths);
        lemma_existing_entries_frame(paths.drop_last(), f, scope, h1, h2);
        assert(seq![paths.last()][0] == paths.last());
    }
}

proof fn lemma_dir_entries_frame(d: DiscoverySpec, dir: Seq<char>, scope: Scope, h1: HostSpec, h2: HostSpec)
    requires
        hosts_agree_on(h1, h2, dir_candidates(dir)),
    ensures
        dir_entries(d, dir, scope, h1) == dir_entries(d, dir, scope, h2),
{
    let c = dir_candidates(dir);
    assert(host_has_file(h1, c[0]) == host_has_file(h2, c[0]));
    assert(host_has_file(h1, c[1]) == host_has_file(h2, c[1]));
    assert(host_has_file(h1, c[2]) == host_has_file(h2, c[2]));
}

proof fn lemma_nested_entries_frame(d: DiscoverySpec, root: Seq<char>, dirs: Seq<Seq<char>>, h1: HostSpec, h2: HostSpec)
    requires
        hosts_agree_on(h1, h2, dirs_candidates(dirs)),
    ensures
        nested_entries(d, root, dirs, h1) == nested_entries(d, root, dirs, h2),
    decreases dirs.len(),
{
    if dirs.len() > 0 {
        lemma_agree_split(h1, h2, dirs_candidates(dirs.drop_last()), dir_candidates(dirs.last()));
        lemma_nested_entries_frame(d, root, dirs.drop_last(), h1, h2);
        lemma_dir_entries_frame(d, dirs.last(), Scope::Directory, h1, h2);
    }
}

/// Discovery asks the host only about the lookup paths: two hosts with
/// the same walk and configuration directory that agree on which lookup
/// paths exist give the same sources.
pub proof fn law_discovery_reads_only_lookup_paths(
    d: DiscoverySpec,
    root: Seq<char>,
    h1: HostSpec,
    h2: HostSpec,
)
    requires
        h1.walked_dirs == h2.walked_dirs,
        h1.xdg_config_home == h2.xdg_config_home,
        h1.home == h2.home,
        hosts_agree_on(h1, h2, lookup_paths(root, h1)),
    ensures
        discovered(d, root, h1) == discovered(d, root, h2),
{
    let ch = config_home(h1.xdg_config_home, h1.home);
    let s1 = system_global_paths(Family::Git);
    let s2 = system_global_paths(Family::Ai);
    let s3 = system_global_paths(Family::Codex);
    let u1 = user_global_paths(Family::Git, ch);
    let u2 = user_global_paths(Family::Ai, ch);
    let u3 = user_global_paths(Family::Codex, ch);
    let pr = dir_candidates(root);
    let nd = dirs_candidates(h1.walked_dirs);
    assert(lookup_paths(root, h1) == s1 + s2 + s3 + u1 + u2 + u3 + pr + nd);
    lemma_agree_split(h1, h2, s1 + s2 + s3 + u1 + u2 + u3 + pr, nd);
    lemma_agree_split(h1, h2, s1 + s2 + s3 + u1 + u2 + u3, pr);
    lemma_agree_split(h1, h2, s1 + s2 + s3 + u1 + u2, u3);
    lemma_agree_split(h1, h2, s1 + s2 + s3 + u1, u2);
    lemma_agree_split(h1, h2, s1 + s2 + s3, u1);
    lemma_agree_split(h1, h2, s1 + s2, s3);
    lemma_agree_split(h1, h2, s1, s2);
    lemma_existing_entries_frame(s1, Family::Git, Scope::System, h1, h2);
    lemma_existing_entries_frame(s2, Family::Ai, Scope::System, h1, h2);
    lemma_existing_entries_frame(s3, Family::Codex, Scope::System, h1, h2);
    lemma_existing_entries_frame(u1, Family::Git, Scope::User, h1, h2);
    lemma_existing_entries_frame(u2, Family::Ai, Scope::User, h1, h2);
    lemma_existing_entries_frame(u3, Family::Codex, Scope::User, h1, h2);
    lemma_dir_entries_frame(d, root, Scope::ProjectRoot, h1, h2);
    lemma_nested_entries_frame(d, root, h1.walked_dirs, h1, h2);
    assert(global_entries(d, Scope::System, h1) == global_entries(d, Scope::System, h2));
    assert(global_entries(d, Scope::User, h1) == global_entries(d, Scope::User, h2));
    assert(discovered_entries(d, root, h1) == discovered_entries(d, root, h2));
}

impl IgnoreDiscovery {
    /// The additional ignore files named by the environment, with their families.
    pub fn additional_files(&self) -> (r: &Vec<(Family, String)>)
        ensures
            pair_views(r@) == self@.additional_files,
    {
        &self.additional_files
    }
}

/// With `CODEX_NO_IGNORE=1`, discovery finds nothing; with
/// `<FAMILY>_IGNORE_DISABLE=1`, it finds nothing of that family.
pub proof fn law_environment_switches(env: IgnoreEnvSpec, root: Seq<char>, h: HostSpec, f: Family)
    ensures
        env.codex_no_ignore == Some(seq!['1']) ==> discovered(discovery_from_env(env), root, h).len() == 0,
        (match f {
            Family::Git => env.git_ignore_disable,
            Family::Ai => env.ai_ignore_disable,
            Family::Codex => env.codex_ignore_disable,
        }) == Some(seq!['1']) ==> forall|i: int|
            0 <= i < discovered(discovery_from_env(env), root, h).len() ==> (#[trigger] discovered(
                discovery_from_env(env),
                root,
                h,
            )[i]).family != f,
{
    law_disabled_family_absent(discovery_from_env(env), root, h);
}

proof fn lemma_join_absolute(base: Seq<char>, rel: Seq<char>)
    requires
        is_absolute(base),
    ensures
        is_absolute(path_join(base, rel)),
{
    if !is_absolute(rel) {
        if base.len() == 0 || crate::text::ends_with_char(base, '/') {
            assert((base + rel)[0] == base[0]);
        } else {
            assert((base + seq!['/'] + rel)[0] == base[0]);
        }
    }
}

/// With an absolute current directory, the project root discovery works
/// from is absolute.
pub proof fn law_absolute_root(root: Seq<char>, h: HostSpec)
    requires
        is_absolute(h.current_dir),
    ensures
        is_absolute(absolute_root(root, h)),
{
    lemma_join_absolute(h.current_dir, root);
}

proof fn lemma_existing_entries_paths(paths: Seq<Seq<char>>, f: Family, scope: Scope, h: HostSpec)
    ensures
        forall|i: int|
            0 <= i < existing_entries(paths, f, scope, h).len() ==> paths.contains(
                (#[trigger] existing_entries(paths, f, scope, h)[i]).file_path,
            ) && existing_entries(paths, f, scope, h)[i].dir.len() == 0,
    decreases paths.len(),
{
    if paths.len() > 0 {
        lemma_existing_entries_paths(paths.drop_last(), f, scope, h);
        let r = existing_entries(paths.drop_last(), f, scope, h);
        let es = existing_entries(paths, f, scope, h);
        assert forall|i: int| 0 <= i < es.len() implies paths.contains((#[trigger] es[i]).file_path)
            && es[i].dir.len() == 0 by {
            if i < r.len() {
                assert(es[i] == r[i]);
                let j = choose|j: int| 0 <= j < paths.drop_last().len() && paths.drop_last()[j] == r[i].file_path;
                assert(paths[j] == paths.drop_last()[j]);
            } else {
                assert(paths[paths.len() - 1] == paths.last());
            }
        }
    }
}

proof fn lemma_additional_entries_paths(d: DiscoverySpec, root: Seq<char>, adds: Seq<(Family, Seq<char>)>)
    ensures
        forall|i: int|
            0 <= i < additional_entries(d, root, adds).len() ==> exists|j: int|
                0 <= j < adds.len() && adds[j].1 == (#[trigger] additional_entries(d, root, adds)[i]).file_path,
    decreases adds.len(),
{
    if adds.len() > 0 {
        lemma_additional_entries_paths(d, root, adds.drop_last());
        let r = additional_entries(d, root, adds.drop_last());
        let es = additional_entries(d, root, adds);
        assert forall|i: int| 0 <= i < es.len() implies exists|j: int|
            0 <= j < adds.len() && adds[j].1 == (#[trigger] es[i]).file_path by {
            if i < r.len() {
                assert(es[i] == r[i]);
                let j = choose|j: int| 0 <= j < adds.drop_last().len() && adds.drop_last()[j].1 == r[i].file_path;
                assert(adds[j] == adds.drop_last()[j]);
            } else {
                assert(adds[adds.len() - 1] == adds.last());
            }
        }
    }
}

proof fn lemma_global_paths_absolute(f: Family, scope: Scope, h: HostSpec)
    requires
        config_home(h.xdg_config_home, h.home).len() == 0 || is_absolute(config_home(h.xdg_config_home, h.home)),
    ensures
        forall|i: int| 0 <= i < scope_global_paths(f, scope, h).len() ==> is_absolute(
            #[trigger] scope_global_paths(f, scope, h)[i],
        ),
{
    reveal_strlit("/etc/");
    let ch = config_home(h.xdg_config_home, h.home);
    if scope == Scope::System {
        assert(system_global_paths(f)[0][0] == '/');
    } else if ch.len() > 0 {
        lemma_join_absolute(ch, family_dir_name(f));
        lemma_join_absolute(path_join(ch, family_dir_name(f)), "ignore"@);
    }
}

/// The sources are absolute paths, and their directories absolute or
/// empty, when discovery works from an absolute root (see
/// `law_absolute_root`), the walk yields absolute directories, the user's
/// configuration directory is absolute (or absent), and the additional
/// files are absolute (as those from the environment are, see
/// `law_env_files_are_absolute`).
pub proof fn law_sources_are_absolute(d: DiscoverySpec, root: Seq<char>, h: HostSpec)
    requires
        is_absolute(root),
        forall|i: int| 0 <= i < h.walked_dirs.len() ==> is_absolute(#[trigger] h.walked_dirs[i]),
        config_home(h.xdg_config_home, h.home).len() == 0 || is_absolute(config_home(h.xdg_config_home, h.home)),
        forall|i: int| 0 <= i < d.additional_files.len() ==> is_absolute((#[trigger] d.additional_files[i]).1),
    ensures
        forall|i: int|
            0 <= i < discovered(d, root, h).len() ==> is_absolute((#[trigger] discovered(d, root, h)[i]).file_path)
                && (is_absolute(discovered(d, root, h)[i].dir) || discovered(d, root, h)[i].dir.len() == 0),
{
    if d.all_disabled {
        return;
    }
    let s = global_entries(d, Scope::System, h);
    let u = global_entries(d, Scope::User, h);
    let p = dir_entries(d, root, Scope::ProjectRoot, h);
    let n = nested_entries(d, root, h.walked_dirs, h);
    let a = additional_entries(d, root, d.additional_files);
    lemma_dir_entries_props(d, root, Scope::ProjectRoot, h);
    lemma_nested_entries_props(d, root, h.walked_dirs, h);
    lemma_additional_entries_props(d, root, d.additional_files);
    lemma_additional_entries_paths(d, root, d.additional_files);
    assert forall|sc: Scope, i: int| (sc == Scope::System || sc == Scope::User) && 0 <= i < global_entries(d, sc, h).len()
        implies is_absolute((#[trigger] global_entries(d, sc, h)[i]).file_path) && global_entries(d, sc, h)[i].dir.len() == 0 by {
        let g = family_global_entries(d, Family::Git, sc, h);
        let ai = family_global_entries(d, Family::Ai, sc, h);
        let c = family_global_entries(d, Family::Codex, sc, h);
        let es = global_entries(d, sc, h);
        let f = if i < g.len() { Family::Git } else if i < g.len() + ai.len() { Family::Ai } else { Family::Codex };
        let part = family_global_entries(d, f, sc, h);
        let k = if i < g.len() { i } else if i < g.len() + ai.len() { i - g.len() } else { i - g.len() - ai.len() };
        assert(es[i] == part[k]);
        let ps = scope_global_paths(f, sc, h);
        lemma_existing_entries_paths(ps, f, sc, h);
        lemma_global_paths_absolute(f, sc, h);
        let j = choose|j: int| 0 <= j < ps.len() && ps[j] == part[k].file_path;
        assert(is_absolute(ps[j]));
    }
    let es = discovered_entries(d, root, h);
    assert(es == s + u + p + n + a);
    let r = discovered(d, root, h);
    let b1 = s.len() as int;
    let b2 = b1 + u.len();
    let b3 = b2 + p.len();
    let b4 = b3 + n.len();
    assert forall|i: int| 0 <= i < r.len() implies is_absolute((#[trigger] r[i]).file_path)
        && (is_absolute(r[i].dir) || r[i].dir.len() == 0) by {
        assert(r[i].file_path == es[i].file_path && r[i].dir == es[i].dir);
        if i < b1 {
            assert(es[i] == s[i]);
        } else if i < b2 {
            assert(es[i] == u[i - b1]);
        } else if i < b3 {
            assert(es[i] == p[i - b2]);
            lemma_join_absolute(root, family_filename(p[i - b2].family));
        } else if i < b4 {
            assert(es[i] == n[i - b3]);
            let e = n[i - b3];
            let j = choose|j: int| 0 <= j < h.walked_dirs.len() && h.walked_dirs[j] == e.dir;
            assert(is_absolute(h.walked_dirs[j]));
            lemma_join_absolute(e.dir, family_filename(e.family));
        } else {
            assert(es[i] == a[i - b4]);
            let j = choose|j: int| 0 <= j < d.additional_files.len() && d.additional_files[j].1 == a[i - b4].file_path;
            assert(is_absolute(d.additional_files[j].1));
        }
    }
}

proof fn lemma_absolute_trimmed_absolute(ps: Seq<Seq<char>>)
    ensures
        forall|i: int| 0 <= i < absolute_trimmed(ps).len() ==> is_absolute(#[trigger] absolute_trimmed(ps)[i]),
    decreases ps.len(),
{
    if ps.len() > 0 {
        lemma_absolute_trimmed_absolute(ps.drop_last());
        let r = absolute_trimmed(ps.drop_last());
        let t = absolute_trimmed(ps);
        assert forall|i: int| 0 <= i < t.len() implies is_absolute(#[trigger] t[i]) by {
            if i < r.len() {
                assert(t[i] == r[i]);
            }
        }
    }
}

/// The additional files taken from the environment are absolute paths.
pub proof fn law_env_files_are_absolute(env: IgnoreEnvSpec)
    ensures
        forall|i: int|
            0 <= i < discovery_from_env(env).additional_files.len() ==> is_absolute(
                (#[trigger] discovery_from_env(env).additional_files[i]).1,
            ),
{
    let g = env_files(Family::Git, env.git_ignore_file);
    let a = env_files(Family::Ai, env.ai_ignore_file);
    let c = env_files(Family::Codex, env.codex_ignore_file);
    assert forall|f: Family, v: Option<Seq<char>>, i: int| 0 <= i < env_files(f, v).len() implies is_absolute(
        (#[trigger] env_files(f, v)[i]).1,
    ) by {
        if let Some(x) = v {
            lemma_absolute_trimmed_absolute(split_on(x, ','));
        }
    }
    let all = discovery_from_env(env).additional_files;
    assert(all == g + a + c);
    assert forall|i: int| 0 <= i < all.len() implies is_absolute((#[trigger] all[i]).1) by {
        if i < g.len() {
            assert(all[i] == g[i]);
        } else if i < g.len() + a.len() {
            assert(all[i] == a[i - g.len()]);
        } else {
            assert(all[i] == c[i - g.len() - a.len()]);
        }
    }
}

/// Each family's switch, and the switch for all ignoring, is on exactly
/// when its own variable is set to `1`; no other variable has a say.
pub proof fn law_each_switch_reads_its_own_variable(env: IgnoreEnvSpec, f: Family)
    ensures
        family_disabled(discovery_from_env(env), f) <==> (match f {
            Family::Git => env.git_ignore_disable,
            Family::Ai => env.ai_ignore_disable,
            Family::Codex => env.codex_ignore_disable,
        }) == Some(seq!['1']),
        discovery_from_env(env).all_disabled <==> env.codex_no_ignore == Some(seq!['1']),
{
}

proof fn lemma_absolute_trimmed_keeps(ps: Seq<Seq<char>>)
    ensures
        forall|i: int|
            0 <= i < ps.len() && is_absolute(trim(#[trigger] ps[i])) ==> absolute_trimmed(ps).contains(trim(ps[i])),
        forall|i: int, j: int|
            0 <= i < j < ps.len() && is_absolute(trim(#[trigger] ps[i])) && is_absolute(trim(#[trigger] ps[j]))
                ==> exists|a: int, b: int|
                0 <= a < b < absolute_trimmed(ps).len() && absolute_trimmed(ps)[a] == trim(ps[i])
                    && absolute_trimmed(ps)[b] == trim(ps[j]),
        forall|i: int|
            0 <= i < absolute_trimmed(ps).len() ==> exists|j: int|
                0 <= j < ps.len() && is_absolute(trim(ps[j])) && #[trigger] absolute_trimmed(ps)[i] == trim(ps[j]),
    decreases ps.len(),
{
    if ps.len() > 0 {
        let q = ps.drop_last();
        lemma_absolute_trimmed_keeps(q);
        let r = absolute_trimmed(q);
        let t = absolute_trimmed(ps);
        let n = ps.len() - 1;
        assert(ps.last() == ps[n]);
        assert forall|i: int| 0 <= i < ps.len() && is_absolute(trim(#[trigger] ps[i])) implies t.contains(trim(ps[i])) by {
            if i < n {
                assert(q[i] == ps[i]);
                assert(r.contains(trim(q[i])));
                let a = choose|a: int| 0 <= a < r.len() && r[a] == trim(q[i]);
                assert(t[a] == r[a]);
            } else {
                assert(t[r.len() as int] == trim(ps[n]));
            }
        }
        assert forall|i: int, j: int|
            0 <= i < j < ps.len() && is_absolute(trim(#[trigger] ps[i])) && is_absolute(trim(#[trigger] ps[j]))
                implies exists|a: int, b: int|
                0 <= a < b < t.len() && t[a] == trim(ps[i]) && t[b] == trim(ps[j]) by {
            assert(q[i] == ps[i]);
            if j < n {
                assert(q[j] == ps[j]);
                assert(is_absolute(trim(q[i])) && is_absolute(trim(q[j])));
                let (a, b) = choose|a: int, b: int| 0 <= a < b < r.len() && r[a] == trim(q[i]) && r[b] == trim(q[j]);
                assert(t[a] == r[a] && t[b] == r[b]);
            } else {
                assert(r.contains(trim(q[i])));
                let a = choose|a: int| 0 <= a < r.len() && r[a] == trim(q[i]);
                assert(t[a] == r[a]);
                assert(t[r.len() as int] == trim(ps[j]));
            }
        }
        assert forall|i: int| 0 <= i < t.len() implies exists|j: int|
            0 <= j < ps.len() && is_absolute(trim(ps[j])) && #[trigger] t[i] == trim(ps[j]) by {
            if i < r.len() {
                assert(t[i] == r[i]);
                let j = choose|j: int| 0 <= j < q.len() && is_absolute(trim(q[j])) && r[i] == trim(q[j]);
                assert(q[j] == ps[j]);
            } else {
                assert(t[i] == trim(ps[n]));
            }
        }
    }
}

/// A file-list variable names exactly its comma-separated pieces that are
/// absolute once trimmed: each such piece, trimmed, is among the family's
/// additional files, two such pieces keep their relative order, and every
/// additional file is such a piece.
pub proof fn law_env_file_pieces_are_kept(f: Family, v: Seq<char>)
    ensures
        forall|i: int|
            0 <= i < split_on(v, ',').len() && is_absolute(trim(#[trigger] split_on(v, ',')[i]))
                ==> env_files(f, Some(v)).contains((f, trim(split_on(v, ',')[i]))),
        forall|i: int, j: int|
            0 <= i < j < split_on(v, ',').len() && is_absolute(trim(#[trigger] split_on(v, ',')[i])) && is_absolute(
                trim(#[trigger] split_on(v, ',')[j]),
            ) ==> exists|a: int, b: int|
                0 <= a < b < env_files(f, Some(v)).len() && env_files(f, Some(v))[a] == (
                    f,
                    trim(split_on(v, ',')[i]),
                ) && env_files(f, Some(v))[b] == (f, trim(split_on(v, ',')[j])),
        forall|k: int|
            0 <= k < env_files(f, Some(v)).len() ==> (#[trigger] env_files(f, Some(v))[k]).0 == f && exists|j: int|
                0 <= j < split_on(v, ',').len() && is_absolute(trim(split_on(v, ',')[j]))
                    && env_files(f, Some(v))[k].1 == trim(split_on(v, ',')[j]),
{
    let ps = split_on(v, ',');
    lemma_absolute_trimmed_keeps(ps);
    let t = absolute_trimmed(ps);
    let e = env_files(f, Some(v));
    assert(e == t.map_values(|p: Seq<char>| (f, p)));
    assert forall|i: int| 0 <= i < ps.len() && is_absolute(trim(#[trigger] ps[i])) implies e.contains((f, trim(ps[i]))) by {
        assert(t.contains(trim(ps[i])));
        let a = choose|a: int| 0 <= a < t.len() && t[a] == trim(ps[i]);
        assert(e[a] == (f, t[a]));
    }
    assert forall|i: int, j: int|
        0 <= i < j < ps.len() && is_absolute(trim(#[trigger] ps[i])) && is_absolute(trim(#[trigger] ps[j]))
            implies exists|a: int, b: int|
            0 <= a < b < e.len() && e[a] == (f, trim(ps[i])) && e[b] == (f, trim(ps[j])) by {
        let (a, b) = choose|a: int, b: int| 0 <= a < b < t.len() && t[a] == trim(ps[i]) && t[b] == trim(ps[j]);
        assert(e[a] == (f, t[a]) && e[b] == (f, t[b]));
    }
    assert forall|k: int| 0 <= k < e.len() implies (#[trigger] e[k]).0 == f && exists|j: int|
        0 <= j < ps.len() && is_absolute(trim(ps[j])) && e[k].1 == trim(ps[j]) by {
        assert(e[k] == (f, t[k]));
        let j = choose|j: int| 0 <= j < ps.len() && is_absolute(trim(ps[j])) && #[trigger] t[k] == trim(ps[j]);
    }
}

/// Each of the three file-list variables contributes all its absolute
/// pieces, trimmed, to the additional files of a configuration, whether
/// made from the environment or with explicit controls.
pub proof fn law_every_absolute_piece_is_an_additional_file(env: IgnoreEnvSpec, f: Family, v: Seq<char>, i: int)
    requires
        (match f {
            Family::Git => env.git_ignore_file,
            Family::Ai => env.ai_ignore_file,
            Family::Codex => env.codex_ignore_file,
        }) == Some(v),
        0 <= i < split_on(v, ',').len(),
        is_absolute(trim(split_on(v, ',')[i])),
    ensures
        all_env_files(env).contains((f, trim(split_on(v, ',')[i]))),
{
    law_env_file_pieces_are_kept(f, v);
    let g = env_files(Family::Git, env.git_ignore_file);
    let a = env_files(Family::Ai, env.ai_ignore_file);
    let c = env_files(Family::Codex, env.codex_ignore_file);
    let all = all_env_files(env);
    let x = (f, trim(split_on(v, ',')[i]));
    assert(all == g + a + c);
    assert(env_files(f, Some(v)).contains(x));
    let k = choose|k: int| 0 <= k < env_files(f, Some(v)).len() && env_files(f, Some(v))[k] == x;
    match f {
        Family::Git => {
            assert(all[k] == g[k]);
        },
        Family::Ai => {
            assert(all[g.len() + k] == a[k]);
        },
        Family::Codex => {
            assert(all[g.len() + a.len() + k] == c[k]);
        },
    }
}

/// A source less its place in the order.
pub open spec fn entry_of(s: SourceSpec) -> EntrySpec {
    EntrySpec { file_path: s.file_path, family: s.family, scope: s.scope, dir: s.dir }
}

/// The file of family `f` in directory `dir`, as a source of scope `scope`.
pub open spec fn dir_file_entry(dir: Seq<char>, f: Family, scope: Scope) -> EntrySpec {
    EntrySpec { file_path: path_join(dir, family_filename(f)), family: f, scope, dir }
}

proof fn lemma_dir_entries_has(d: DiscoverySpec, dir: Seq<char>, scope: Scope, h: HostSpec, f: Family)
    requires
        !family_disabled(d, f),
        host_has_file(h, path_join(dir, family_filename(f))),
    ensures
        dir_entries(d, dir, scope, h).contains(dir_file_entry(dir, f, scope)),
{
    let g = enabled_dir_entry(d, dir, Family::Git, scope, h);
    let a = enabled_dir_entry(d, dir, Family::Ai, scope, h);
    let c = enabled_dir_entry(d, dir, Family::Codex, scope, h);
    let es = dir_entries(d, dir, scope, h);
    assert(es == g + a + c);
    match f {
        Family::Git => {
            assert(es[0] == g[0]);
        },
        Family::Ai => {
            assert(es[g.len() as int] == a[0]);
        },
        Family::Codex => {
            assert(es[(g.len() + a.len()) as int] == c[0]);
        },
    }
}

proof fn lemma_nested_entries_has(
    d: DiscoverySpec,
    root: Seq<char>,
    dirs: Seq<Seq<char>>,
    h: HostSpec,
    w: Seq<char>,
    f: Family,
)
    requires
        dirs.contains(w),
        !same_path(w, root),
        !family_disabled(d, f),
        host_has_file(h, path_join(w, family_filename(f))),
    ensures
        nested_entries(d, root, dirs, h).contains(dir_file_entry(w, f, Scope::Directory)),
    decreases dirs.len(),
{
    let x = dir_file_entry(w, f, Scope::Directory);
    let q = dirs.drop_last();
    let r = nested_entries(d, root, q, h);
    let es = nested_entries(d, root, dirs, h);
    if dirs.last() == w {
        lemma_dir_entries_has(d, w, Scope::Directory, h, f);
        let de = dir_entries(d, w, Scope::Directory, h);
        let k = choose|k: int| 0 <= k < de.len() && de[k] == x;
        assert(es == r + de);
        assert(es[r.len() + k] == de[k]);
    } else {
        let j = choose|j: int| 0 <= j < dirs.len() && dirs[j] == w;
        assert(j < dirs.len() - 1);
        assert(q[j] == w);
        lemma_nested_entries_has(d, root, q, h, w, f);
        let k = choose|k: int| 0 <= k < r.len() && r[k] == x;
        if same_path(dirs.last(), root) {
            assert(es == r);
        } else {
            assert(es[k] == r[k]);
        }
    }
}

proof fn lemma_discovered_has(d: DiscoverySpec, root: Seq<char>, h: HostSpec, x: EntrySpec)
    requires
        discovered_entries(d, root, h).contains(x),
    ensures
        discovered(d, root, h).map_values(|s: SourceSpec| entry_of(s)).contains(x),
{
    let es = discovered_entries(d, root, h);
    let k = choose|k: int| 0 <= k < es.len() && es[k] == x;
    let m = discovered(d, root, h).map_values(|s: SourceSpec| entry_of(s));
    assert(m[k] == x);
}

/// Discovery misses no ignore file in the tree: for every walked directory
/// other than the project root, and every enabled family whose file exists
/// there, a directory-scope source for that file and that directory is
/// discovered (unless all ignoring is off). Hidden directories are no
/// exception.
pub proof fn law_existing_directory_files_are_discovered(
    d: DiscoverySpec,
    root: Seq<char>,
    h: HostSpec,
    w: Seq<char>,
    f: Family,
)
    requires
        !d.all_disabled,
        !family_disabled(d, f),
        h.walked_dirs.contains(w),
        !same_path(w, root),
        host_has_file(h, path_join(w, family_filename(f))),
    ensures
        discovered(d, root, h).map_values(|s: SourceSpec| entry_of(s)).contains(
            EntrySpec { file_path: path_join(w, family_filename(f)), family: f, scope: Scope::Directory, dir: w },
        ),
{
    let x = dir_file_entry(w, f, Scope::Directory);
    lemma_nested_entries_has(d, root, h.walked_dirs, h, w, f);
    let a = global_entries(d, Scope::System, h) + global_entries(d, Scope::User, h) + dir_entries(
        d,
        root,
        Scope::ProjectRoot,
        h,
    );
    let n = nested_entries(d, root, h.walked_dirs, h);
    let b = additional_entries(d, root, d.additional_files);
    let es = discovered_entries(d, root, h);
    assert(es == a + n + b);
    let k = choose|k: int| 0 <= k < n.len() && n[k] == x;
    assert(es[a.len() + k] == n[k]);
    lemma_discovered_has(d, root, h, x);
}

/// Likewise in the project root: for every enabled family whose file
/// exists there, a project-root source for it is discovered (unless all
/// ignoring is off).
pub proof fn law_existing_root_files_are_discovered(d: DiscoverySpec, root: Seq<char>, h: HostSpec, f: Family)
    requires
        !d.all_disabled,
        !family_disabled(d, f),
        host_has_file(h, path_join(root, family_filename(f))),
    ensures
        discovered(d, root, h).map_values(|s: SourceSpec| entry_of(s)).contains(
            EntrySpec {
                file_path: path_join(root, family_filename(f)),
                family: f,
                scope: Scope::ProjectRoot,
                dir: root,
            },
        ),
{
    let x = dir_file_entry(root, f, Scope::ProjectRoot);
    lemma_dir_entries_has(d, root, Scope::ProjectRoot, h, f);
    let g = global_entries(d, Scope::System, h) + global_entries(d, Scope::User, h);
    let de = dir_entries(d, root, Scope::ProjectRoot, h);
    let rest = nested_entries(d, root, h.walked_dirs, h) + additional_entries(d, root, d.additional_files);
    let es = discovered_entries(d, root, h);
    assert(es == g + de + rest);
    let k = choose|k: int| 0 <= k < de.len() && de[k] == x;
    assert(es[g.len() + k] == de[k]);
    lemma_discovered_has(d, root, h, x);
}

/// A family whose own switch variable is not `1` (with `CODEX_NO_IGNORE`
/// not `1` either) keeps its files: its file in the project root, when it
/// exists, is discovered from that environment, whatever the other
/// families' switches say.
pub proof fn law_enabled_family_files_are_discovered_from_env(
    env: IgnoreEnvSpec,
    root: Seq<char>,
    h: HostSpec,
    f: Family,
)
    requires
        (match f {
            Family::Git => env.git_ignore_disable,
            Family::Ai => env.ai_ignore_disable,
            Family::Codex => env.codex_ignore_disable,
        }) != Some(seq!['1']),
        env.codex_no_ignore != Some(seq!['1']),
        host_has_file(h, path_join(root, family_filename(f))),
    ensures
        discovered(discovery_from_env(env), root, h).map_values(|s: SourceSpec| entry_of(s)).contains(
            EntrySpec {
                file_path: path_join(root, family_filename(f)),
                family: f,
                scope: Scope::ProjectRoot,
                dir: root,
            },
        ),
{
    law_each_switch_reads_its_own_variable(env, f);
    law_existing_root_files_are_discovered(discovery_from_env(env), root, h, f);
}

proof fn lemma_existing_entries_has(paths: Seq<Seq<char>>, f: Family, scope: Scope, h: HostSpec, p: Seq<char>)
    requires
        paths.contains(p),
        host_has_file(h, p),
    ensures
        existing_entries(paths, f, scope, h).contains(
            EntrySpec { file_path: p, family: f, scope, dir: Seq::<char>::empty() },
        ),
    decreases paths.len(),
{
    let x = EntrySpec { file_path: p, family: f, scope, dir: Seq::<char>::empty() };
    let q = paths.drop_last();
    let r = existing_entries(q, f, scope, h);
    let es = existing_entries(paths, f, scope, h);
    if paths.last() == p {
        assert(es[r.len() as int] == x);
    } else {
        let j = choose|j: int| 0 <= j < paths.len() && paths[j] == p;
        assert(j < paths.len() - 1);
        assert(q[j] == p);
        lemma_existing_entries_has(q, f, scope, h, p);
        let k = choose|k: int| 0 <= k < r.len() && r[k] == x;
        assert(es[k] == r[k]);
    }
}

proof fn lemma_global_entries_has(d: DiscoverySpec, scope: Scope, h: HostSpec, f: Family, p: Seq<char>)
    requires
        !family_disabled(d, f),
        scope_global_paths(f, scope, h).contains(p),
        host_has_file(h, p),
    ensures
        global_entries(d, scope, h).contains(
            EntrySpec { file_path: p, family: f, scope, dir: Seq::<char>::empty() },
        ),
{
    let x = EntrySpec { file_path: p, family: f, scope, dir: Seq::<char>::empty() };
    lemma_existing_entries_has(scope_global_paths(f, scope, h), f, scope, h, p);
    let g = family_global_entries(d, Family::Git, scope, h);
    let a = family_global_entries(d, Family::Ai, scope, h);
    let c = family_global_entries(d, Family::Codex, scope, h);
    let es = global_entries(d, scope, h);
    assert(es == g + a + c);
    match f {
        Family::Git => {
            let k = choose|k: int| 0 <= k < g.len() && g[k] == x;
            assert(es[k] == g[k]);
        },
        Family::Ai => {
            let k = choose|k: int| 0 <= k < a.len() && a[k] == x;
            assert(es[g.len() + k] == a[k]);
        },
        Family::Codex => {
            let k = choose|k: int| 0 <= k < c.len() && c[k] == x;
            assert(es[g.len() + a.len() + k] == c[k]);
        },
    }
}

/// Discovery misses no global ignore file: for every enabled family whose
/// system-wide file (`/etc/<name>/ignore`) or user file
/// (`<config>/<name>/ignore`) exists, a source of that scope for it, with
/// no directory, is discovered (unless all ignoring is off).
pub proof fn law_existing_global_files_are_discovered(
    d: DiscoverySpec,
    root: Seq<char>,
    h: HostSpec,
    f: Family,
    scope: Scope,
    p: Seq<char>,
)
    requires
        !d.all_disabled,
        !family_disabled(d, f),
        scope == Scope::System || scope == Scope::User,
        scope_global_paths(f, scope, h).contains(p),
        host_has_file(h, p),
    ensures
        discovered(d, root, h).map_values(|s: SourceSpec| entry_of(s)).contains(
            EntrySpec { file_path: p, family: f, scope, dir: Seq::<char>::empty() },
        ),
{
    let x = EntrySpec { file_path: p, family: f, scope, dir: Seq::<char>::empty() };
    lemma_global_entries_has(d, scope, h, f, p);
    let sy = global_entries(d, Scope::System, h);
    let us = global_entries(d, Scope::User, h);
    let rest = dir_entries(d, root, Scope::ProjectRoot, h) + nested_entries(d, root, h.walked_dirs, h)
        + additional_entries(d, root, d.additional_files);
    let es = discovered_entries(d, root, h);
    assert(es == sy + us + rest);
    if scope == Scope::System {
        let k = choose|k: int| 0 <= k < sy.len() && sy[k] == x;
        assert(es[k] == sy[k]);
    } else {
        let k = choose|k: int| 0 <= k < us.len() && us[k] == x;
        assert(es[sy.len() + k] == us[k]);
    }
    lemma_discovered_has(d, root, h, x);
}

proof fn lemma_additional_entries_has(d: DiscoverySpec, root: Seq<char>, adds: Seq<(Family, Seq<char>)>, j: int)
    requires
        0 <= j < adds.len(),
        !family_disabled(d, adds[j].0),
    ensures
        additional_entries(d, root, adds).contains(
            EntrySpec { file_path: adds[j].1, family: adds[j].0, scope: Scope::ProjectRoot, dir: root },
        ),
    decreases adds.len(),
{
    let x = EntrySpec { file_path: adds[j].1, family: adds[j].0, scope: Scope::ProjectRoot, dir: root };
    let q = adds.drop_last();
    let r = additional_entries(d, root, q);
    let es = additional_entries(d, root, adds);
    if j == adds.len() - 1 {
        assert(adds.last() == adds[j]);
        assert(es[r.len() as int] == x);
    } else {
        assert(q[j] == adds[j]);
        lemma_additional_entries_has(d, root, q, j);
        let k = choose|k: int| 0 <= k < r.len() && r[k] == x;
        assert(es[k] == r[k]);
    }
}

/// Every additional file of an enabled family is discovered as a
/// project-root source for the project root (unless all ignoring is off).
pub proof fn law_additional_files_are_discovered(d: DiscoverySpec, root: Seq<char>, h: HostSpec, j: int)
    requires
        !d.all_disabled,
        0 <= j < d.additional_files.len(),
        !family_disabled(d, d.additional_files[j].0),
    ensures
        discovered(d, root, h).map_values(|s: SourceSpec| entry_of(s)).contains(
            EntrySpec {
                file_path: d.additional_files[j].1,
                family: d.additional_files[j].0,
                scope: Scope::ProjectRoot,
                dir: root,
            },
        ),
{
    let x = EntrySpec {
        file_path: d.additional_files[j].1,
        family: d.additional_files[j].0,
        scope: Scope::ProjectRoot,
        dir: root,
    };
    lemma_additional_entries_has(d, root, d.additional_files, j);
    let pre = global_entries(d, Scope::System, h) + global_entries(d, Scope::User, h) + dir_entries(
        d,
        root,
        Scope::ProjectRoot,
        h,
    ) + nested_entries(d, root, h.walked_dirs, h);
    let b = additional_entries(d, root, d.additional_files);
    let es = discovered_entries(d, root, h);
    assert(es == pre + b);
    let k = choose|k: int| 0 <= k < b.len() && b[k] == x;
    assert(es[pre.len() + k] == b[k]);
    lemma_discovered_has(d, root, h, x);
}

} // verus!
