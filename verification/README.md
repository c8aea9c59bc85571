# codex-file-search: ignore-file support, verified

Hierarchical ignore files for file search: `.gitignore`, `.aiignore` and
`.codexignore`, found at the system, user, project-root and directory
levels, and combined so that the most specific rule decides.

Layout:

- `src/family.rs`: the three families and the four scopes.
- `src/text.rs`, `src/path.rs`: splitting, trimming and line structure of
  text; Unix path components, joining and equality.
- `src/discovery.rs`: the environment switches and file lists, and
  `IgnoreDiscovery::discover`, which computes the sources from a plain view
  of the host (which files exist, the directory walk, the configuration
  directory, the current directory against which a relative project root
  is made absolute). Its laws: orders are positions, disabled families never
  appear, scopes come in precedence order, families in order within a
  directory, and only the lookup paths are consulted.
- `src/gitignore.rs`: the trusted boundary to the `ignore` crate's
  `GitignoreBuilder` and `Gitignore`: what a builder holds (its root less a
  leading `./`, and the rules its lines yield: comments, blank lines and
  globs that do not parse yield none, kept lines are trimmed), and what
  the matcher built from it holds.
- `src/matcher.rs`: `IgnoreMatcher`: one gitignore matcher per directory,
  its files compiled in stable `order`, and the decision for a path taken
  from the least to the most specific directory containing it. A nested
  directory's rules are anchored at that directory and asked about the
  path relative to it; the global files are anchored at the project root.
  Its laws: no rules ignore nothing, missing files give no rules, the most
  specific match decides, a directory that does not contain a path has no
  say on it, and the position of a source in the list does not matter.
- `app/lib.rs`: reads the environment, walks the tree, checks which lookup
  paths exist and reads the ignore files.
