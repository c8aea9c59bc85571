//! The gitignore matcher of the `ignore` crate, as this library uses it:
//! a builder made for a root directory, handed rule lines one by one, and
//! the matcher it builds, asked whether a path is ignored.
use vstd::prelude::*;
use ignore::gitignore::{Gitignore, GitignoreBuilder};
use std::path::PathBuf;
use crate::text::trim_end;

verus! {

/// The matcher built from the rule lines of one directory's ignore files.
#[verifier::external_type_specification]
#[verifier::external_body]
pub struct ExGitignore(Gitignore);

/// The builder that collects rule lines for a matcher.
#[verifier::external_type_specification]
#[verifier::external_body]
pub struct ExGitignoreBuilder(GitignoreBuilder);

/// The error of the `ignore` crate.
#[verifier::external_type_specification]
#[verifier::external_body]
pub struct ExIgnoreError(ignore::Error);

/// What a gitignore matcher says of a path: no rule matched it, the last
/// matching rule ignores it, or the last matching rule (a `!` rule)
/// whitelists it.
#[derive(Debug, Clone, Copy, PartialEq, Eq, Structural)]
pub enum RuleMatch {
    Unmatched,
    Ignore,
    Whitelist,
}

/// The root directory a builder holds: the path it was made with, less
/// one leading `./` (the builder strips it; on Unix the strip is on bytes).
pub open spec fn stored_root(root: Seq<char>) -> Seq<char> {
    if root.len() >= 2 && root[0] == '.' && root[1] == '/' {
        root.skip(2)
    } else {
        root
    }
}

/// The text of a rule line as the builder keeps it: trailing white space
/// removed, unless the line ends in an escaped space (`\ `).
pub open spec fn rule_text(line: Seq<char>) -> Seq<char> {
    if line.len() >= 2 && line[line.len() - 2] == '\\' && line.last() == ' ' {
        line
    } else {
        trim_end(line)
    }
}

/// Whether a line can add a rule at all: it is no comment (a line that
/// starts with `#`) and not blank once trimmed.
pub open spec fn is_rule_line(line: Seq<char>) -> bool {
    !(line.len() > 0 && line[0] == '#') && rule_text(line).len() > 0
}

/// The rule a line adds to a builder: the trimmed line, when it can add a
/// rule and its glob parses; none otherwise.
pub open spec fn line_rule(line: Seq<char>) -> Option<Seq<char>> {
    if is_rule_line(line) && glob_parses(rule_text(line)) {
        Some(rule_text(line))
    } else {
        None
    }
}

/// The rules a builder holds after being handed `lines` in order, from none.
pub open spec fn kept_rules(lines: Seq<Seq<char>>) -> Seq<Seq<char>>
    decreases lines.len(),
{
    if lines.len() == 0 {
        Seq::<Seq<char>>::empty()
    } else {
        let r = kept_rules(lines.drop_last());
        match line_rule(lines.last()) {
            Some(x) => r.push(x),
            None => r,
        }
    }
}

/// Whether the glob the builder derives from a (trimmed, non-comment,
/// non-blank) rule text parses, with the settings of a builder made by
/// `GitignoreBuilder::new` (case-sensitive, unclosed classes allowed).
pub uninterp spec fn glob_parses(rule: Seq<char>) -> bool;

/// The root directory a builder holds (its `root` field).
pub uninterp spec fn builder_root(b: GitignoreBuilder) -> Seq<char>;

/// The rules a builder holds: the original text of each of its globs, in
/// the order they were added.
pub uninterp spec fn builder_rules(b: GitignoreBuilder) -> Seq<Seq<char>>;

/// Whether a builder has the settings `GitignoreBuilder::new` gives it
/// (case-sensitive, unclosed classes allowed) and every glob it holds was
/// parsed with them.
pub uninterp spec fn builder_is_plain(b: GitignoreBuilder) -> bool;

/// The root directory a matcher holds (its `root` field).
pub uninterp spec fn gitignore_root(g: Gitignore) -> Seq<char>;

/// The rules a matcher holds: the original text of each of its globs, in
/// order.
pub uninterp spec fn gitignore_rules(g: Gitignore) -> Seq<Seq<char>>;

/// Whether every glob a matcher holds was compiled case-sensitively.
pub uninterp spec fn gitignore_is_plain(g: Gitignore) -> bool;

/// What a case-sensitive matcher holding `root` and the rules `rules` says
/// of `path` (a directory when `is_dir`): gitignore pattern semantics, as
/// the `ignore` crate implements them.
pub uninterp spec fn gitignore_verdict(
    root: Seq<char>,
    rules: Seq<Seq<char>>,
    path: Seq<char>,
    is_dir: bool,
) -> RuleMatch;

/// Whether the globs of the rules can be compiled, case-sensitively, into
/// one matcher.
pub uninterp spec fn gitignore_builds(rules: Seq<Seq<char>>) -> bool;

/// Calls `GitignoreBuilder::new(root)`. Claimed: the new builder holds
/// `root` less one leading `./`, holds no rules, and has the default
/// settings.
#[verifier::external_body]
pub(crate) fn new_builder(root: &str) -> (b: GitignoreBuilder)
    ensures
        builder_root(b) == stored_root(root@),
        builder_rules(b) == Seq::<Seq<char>>::empty(),
        builder_is_plain(b),
{
    GitignoreBuilder::new(root)
}

/// Calls `GitignoreBuilder::add_line(Some(from), line)` and drops its
/// result, as adding a whole file does with the error of a bad line.
/// Claimed: the builder keeps its root and settings, and holds one more
/// rule, the trimmed line, exactly when the line yields one (see
/// `line_rule`); otherwise it is unchanged. (`from` only labels the rule;
/// it takes no part in matching.)
#[verifier::external_body]
pub(crate) fn add_line(b: &mut GitignoreBuilder, from: &str, line: &str)
    requires
        builder_is_plain(*old(b)),
    ensures
        builder_is_plain(*final(b)),
        builder_root(*final(b)) == builder_root(*old(b)),
        builder_rules(*final(b)) == (if is_rule_line(line@) && glob_parses(rule_text(line@)) {
            builder_rules(*old(b)).push(rule_text(line@))
        } else {
            builder_rules(*old(b))
        }),
{
    let _ = b.add_line(Some(PathBuf::from(from)), line);
}

/// Calls `GitignoreBuilder::build`. Claimed: whether it succeeds depends
/// on the rules alone, a builder with no rules always succeeds, and the
/// matcher it builds holds the builder's rules, compiled case-sensitively,
/// and (when there is a rule) the builder's root. (With no rules the
/// result is the empty matcher, whose root is empty.)
#[verifier::external_body]
pub(crate) fn build(b: &GitignoreBuilder) -> (r: Result<Gitignore, ignore::Error>)
    requires
        builder_is_plain(*b),
    ensures
        r is Ok <==> gitignore_builds(builder_rules(*b)),
        builder_rules(*b).len() == 0 ==> r is Ok,
        r matches Ok(g) ==> {
            &&& gitignore_rules(g) == builder_rules(*b)
            &&& gitignore_is_plain(g)
            &&& builder_rules(*b).len() > 0 ==> gitignore_root(g) == builder_root(*b)
        },
{
    b.build()
}

/// Calls `Gitignore::matched(path, is_dir)` and keeps which of the three
/// answers it gave. Claimed: the answer is the verdict of the matcher's
/// root and rules on the path, and a matcher with no rules matches
/// nothing.
#[verifier::external_body]
pub(crate) fn matched(g: &Gitignore, path: &str, is_dir: bool) -> (r: RuleMatch)
    requires
        gitignore_is_plain(*g),
    ensures
        r == gitignore_verdict(gitignore_root(*g), gitignore_rules(*g), path@, is_dir),
        gitignore_rules(*g).len() == 0 ==> r == RuleMatch::Unmatched,
{
    match g.matched(path, is_dir) {
        ignore::Match::None => RuleMatch::Unmatched,
        ignore::Match::Ignore(_) => RuleMatch::Ignore,
        ignore::Match::Whitelist(_) => RuleMatch::Whitelist,
    }
}

} // verus!
