//! The matcher: the ignore files of each directory compiled together in
//! source order, and the decision for a path taken from every directory
//! that contains it, the most specific one last.
use vstd::prelude::*;
use vstd::string::*;
use vstd::set_lib::{lemma_int_range, lemma_subset_equality, set_int_range};
use ignore::gitignore::Gitignore;
use crate::discovery::{IgnoreSource, SourceSpec, source_views, opt_view};
use crate::gitignore::{
    RuleMatch, gitignore_root, gitignore_rules, gitignore_is_plain, gitignore_verdict, gitignore_builds,
    builder_root, builder_rules, builder_is_plain, stored_root, kept_rules, new_builder,
    add_line, build, matched,
};
use crate::path::{path_components, path_join, components, strings_equal, strings_prefix, join, lemma_components_nonempty};
use crate::text::{views, text_lines, strip_leading, lines_of, strip_leading_str};

verus! {

broadcast use vstd::string::group_string_axioms;

/// The byte order mark that may open a text file.
pub open spec fn byte_order_mark() -> char {
    '\u{feff}'
}

/// The rule lines of an ignore file: the lines of its text, the first one
/// without leading byte order marks; none when there is no text (the file
/// does not exist or cannot be read).
pub open spec fn file_rules(text: Option<Seq<char>>) -> Seq<Seq<char>> {
    match text {
        None => Seq::<Seq<char>>::empty(),
        Some(t) => {
            let ls = text_lines(t);
            if ls.len() == 0 {
                ls
            } else {
                ls.update(0, strip_leading(ls[0], byte_order_mark()))
            }
        },
    }
}

/// The orders of a sequence of sources.
pub open spec fn source_orders(ss: Seq<SourceSpec>) -> Seq<nat> {
    ss.map_values(|s: SourceSpec| s.order)
}

/// Position `p` placed into the order-sorted positions `s`: after every
/// position whose order is not greater than its own.
pub open spec fn insert_by_order(s: Seq<int>, p: int, orders: Seq<nat>) -> Seq<int>
    decreases s.len(),
{
    if s.len() == 0 {
        seq![p]
    } else if orders[s.last()] <= orders[p] {
        s.push(p)
    } else {
        insert_by_order(s.drop_last(), p, orders).push(s.last())
    }
}

/// The positions `0..m`, stably sorted by order: by order, and positions
/// of equal order in their own order.
pub open spec fn sorted_positions(orders: Seq<nat>, m: nat) -> Seq<int>
    decreases m,
{
    if m == 0 {
        Seq::<int>::empty()
    } else {
        insert_by_order(sorted_positions(orders, (m - 1) as nat), m - 1, orders)
    }
}

/// The key of a source: the components of its directory.
pub open spec fn dir_key(s: SourceSpec) -> Seq<Seq<char>> {
    path_components(s.dir)
}

/// The rule lines of the sources at positions `ps` whose key is `key`,
/// concatenated in the order of `ps`.
pub open spec fn group_lines(
    ps: Seq<int>,
    srcs: Seq<SourceSpec>,
    texts: Seq<Option<Seq<char>>>,
    key: Seq<Seq<char>>,
) -> Seq<Seq<char>>
    decreases ps.len(),
{
    if ps.len() == 0 {
        Seq::<Seq<char>>::empty()
    } else {
        let r = group_lines(ps.drop_last(), srcs, texts, key);
        if dir_key(srcs[ps.last()]) == key {
            r + file_rules(texts[ps.last()])
        } else {
            r
        }
    }
}

/// For each directory of the sources (by its components), the rule lines
/// of its sources, taken in stable order of their `order`.
pub open spec fn built_rules(srcs: Seq<SourceSpec>, texts: Seq<Option<Seq<char>>>) -> Map<
    Seq<Seq<char>>,
    Seq<Seq<char>>,
> {
    Map::new(
        |k: Seq<Seq<char>>| exists|i: int| 0 <= i < srcs.len() && dir_key(srcs[i]) == k,
        |k: Seq<Seq<char>>|
            group_lines(sorted_positions(source_orders(srcs), srcs.len()), srcs, texts, k),
    )
}

/// The character views of optional texts.
pub open spec fn text_views(v: Seq<Option<String>>) -> Seq<Option<Seq<char>>> {
    v.map_values(|o: Option<String>| opt_view(o))
}

/// The rule lines of an ignore file's text (see `file_rules`).
pub fn file_rules_of(text: &Option<String>) -> (r: Vec<String>)
    ensures
        views(r@) == file_rules(opt_view(*text)),
{
    match text {
        None => {
            let v: Vec<String> = Vec::new();
            proof {
                assert(views(v@) =~= Seq::<Seq<char>>::empty());
            }
            v
        },
        Some(t) => {
            let ls = lines_of(t.as_str());
            if ls.len() == 0 {
                return ls;
            }
            let mut out: Vec<String> = Vec::new();
            out.push(strip_leading_str(ls[0].as_str(), '\u{feff}'));
            let mut i: usize = 1;
            let ghost want = text_lines(t@).update(0, strip_leading(text_lines(t@)[0], byte_order_mark()));
            while i < ls.len()
                invariant
                    views(ls@) == text_lines(t@),
                    want == text_lines(t@).update(0, strip_leading(text_lines(t@)[0], byte_order_mark())),
                    ls@.len() >= 1,
                    1 <= i <= ls@.len(),
                    views(out@) == want.take(i as int),
                decreases ls@.len() - i,
            {
                let ghost prev = views(out@);
                let line = ls[i].clone();
                proof {
                    assert(line@ == views(ls@)[i as int]);
                    assert(want[i as int] == text_lines(t@)[i as int]);
                }
                out.push(line);
                proof {
                    assert(views(out@) =~= prev.push(line@));
                    assert(views(out@) =~= want.take(i + 1));
                }
                i = i + 1;
            }
            proof {
                assert(want.take(ls@.len() as int) =~= want);
            }
            out
        },
    }
}

/// The character views of positions.
pub open spec fn pos_view(v: Seq<usize>) -> Seq<int> {
    v.map_values(|p: usize| p as int)
}

proof fn lemma_insert_by_order_at(s: Seq<int>, p: int, orders: Seq<nat>, j: int)
    requires
        0 <= j <= s.len(),
        forall|k: int| j <= k < s.len() ==> orders[#[trigger] s[k]] > orders[p],
        j == 0 || orders[s[j - 1]] <= orders[p],
    ensures
        insert_by_order(s, p, orders) == s.take(j) + seq![p] + s.skip(j),
    decreases s.len(),
{
    if s.len() == 0 {
        assert(s.take(j) + seq![p] + s.skip(j) =~= seq![p]);
    } else if j == s.len() {
        assert(s.take(j) + seq![p] + s.skip(j) =~= s.push(p));
    } else {
        let t = s.drop_last();
        assert(orders[s[s.len() - 1]] > orders[p]);
        assert forall|k: int| j <= k < t.len() implies orders[#[trigger] t[k]] > orders[p] by {
            assert(t[k] == s[k]);
        }
        if j > 0 {
            assert(t[j - 1] == s[j - 1]);
        }
        lemma_insert_by_order_at(t, p, orders, j);
        assert(t.take(j) + seq![p] + t.skip(j) + seq![s.last()] =~= s.take(j) + seq![p] + s.skip(j));
    }
}

proof fn lemma_sorted_positions_len(orders: Seq<nat>, m: nat)
    ensures
        sorted_positions(orders, m).len() == m,
        forall|k: int| 0 <= k < m ==> 0 <= #[trigger] sorted_positions(orders, m)[k] < m,
    decreases m,
{
    if m > 0 {
        lemma_sorted_positions_len(orders, (m - 1) as nat);
        lemma_insert_by_order_props(sorted_positions(orders, (m - 1) as nat), m - 1, orders);
    }
}

proof fn lemma_insert_by_order_props(s: Seq<int>, p: int, orders: Seq<nat>)
    ensures
        insert_by_order(s, p, orders).len() == s.len() + 1,
        forall|k: int|
            0 <= k < insert_by_order(s, p, orders).len() ==> #[trigger] insert_by_order(s, p, orders)[k] == p
                || s.contains(insert_by_order(s, p, orders)[k]),
    decreases s.len(),
{
    if s.len() > 0 && !(orders[s.last()] <= orders[p]) {
        let t = s.drop_last();
        lemma_insert_by_order_props(t, p, orders);
        let r = insert_by_order(s, p, orders);
        assert forall|k: int| 0 <= k < r.len() implies #[trigger] r[k] == p || s.contains(r[k]) by {
            if k < r.len() - 1 {
                if r[k] != p {
                    let q = choose|q: int| 0 <= q < t.len() && t[q] == r[k];
                    assert(s[q] == t[q]);
                }
            } else {
                assert(s[s.len() - 1] == s.last());
            }
        }
    } else if s.len() > 0 {
        let r = insert_by_order(s, p, orders);
        assert forall|k: int| 0 <= k < r.len() implies #[trigger] r[k] == p || s.contains(r[k]) by {
            if k < s.len() {
                assert(r[k] == s[k]);
            }
        }
    }
}

/// The positions of the sources, stably sorted by order.
fn stable_order(sources: &Vec<IgnoreSource>) -> (r: Vec<usize>)
    ensures
        pos_view(r@) == sorted_positions(source_orders(source_views(sources@)), sources@.len()),
{
    let ghost orders = source_orders(source_views(sources@));
    let n = sources.len();
    let mut r: Vec<usize> = Vec::new();
    let mut p: usize = 0;
    proof {
        assert(pos_view(r@) =~= sorted_positions(orders, 0));
    }
    while p < n
        invariant
            n == sources@.len(),
            orders == source_orders(source_views(sources@)),
            p <= n,
            pos_view(r@) == sorted_positions(orders, p as nat),
        decreases n - p,
    {
        proof {
            lemma_sorted_positions_len(orders, p as nat);
            assert forall|k: int| 0 <= k < p implies #[trigger] r@[k] < p by {
                assert(pos_view(r@)[k] == r@[k] as int);
            }
        }
        let mut j: usize = r.len();
        while j > 0 && sources[r[j - 1]].order > sources[p].order
            invariant
                n == sources@.len(),
                orders == source_orders(source_views(sources@)),
                p < n,
                j <= r@.len(),
                r@.len() == p,
                pos_view(r@) == sorted_positions(orders, p as nat),
                forall|k: int| 0 <= k < p ==> #[trigger] r@[k] < p,
                forall|k: int| j <= k < r@.len() ==> orders[#[trigger] pos_view(r@)[k]] > orders[p as int],
            decreases j,
        {
            proof {
                assert(pos_view(r@)[j - 1] == r@[j - 1] as int);
                assert(orders[r@[j - 1] as int] == sources@[r@[j - 1] as int].order);
            }
            j = j - 1;
        }
        proof {
            if j > 0 {
                assert(pos_view(r@)[j - 1] == r@[j - 1] as int);
                assert(orders[r@[j - 1] as int] == sources@[r@[j - 1] as int].order);
            }
            assert(orders[p as int] == sources@[p as int].order);
            lemma_insert_by_order_at(pos_view(r@), p as int, orders, j as int);
        }
        let ghost before = r@;
        r.insert(j, p);
        proof {
            assert(pos_view(r@) =~= pos_view(before).take(j as int) + seq![p as int] + pos_view(before).skip(j as int));
        }
        p = p + 1;
    }
    r
}

/// Why a matcher could not be made.
#[derive(Debug, Clone, Copy, PartialEq, Eq, Structural)]
pub enum IgnoreError {
    /// The rules of some directory could not be compiled into one gitignore matcher.
    MatcherBuild,
}

/// The matcher of one directory: the components of the directory, the
/// gitignore matcher built from the rule lines of its ignore files, and
/// those lines.
struct DirMatcher {
    key: Vec<String>,
    gitignore: Gitignore,
    lines: Ghost<Seq<Seq<char>>>,
}

/// Core ignore matcher that handles hierarchical ignore rules
pub struct IgnoreMatcher {
    /// All ignore sources in precedence order
    sources: Vec<IgnoreSource>,
    /// Compiled gitignore matchers for each directory
    matchers: Vec<DirMatcher>,
    /// Root directory for path normalization
    root: String,
}

/// The plain value of a matcher: its sources, its root, and for each
/// directory (by its components) the rule lines compiled for it.
pub struct MatcherSpec {
    pub sources: Seq<SourceSpec>,
    pub root: Seq<char>,
    pub rules: Map<Seq<Seq<char>>, Seq<Seq<char>>>,
}

spec fn matcher_keys(ms: Seq<DirMatcher>) -> Seq<Seq<Seq<char>>> {
    ms.map_values(|m: DirMatcher| views(m.key@))
}

spec fn matcher_rules(ms: Seq<DirMatcher>) -> Map<Seq<Seq<char>>, Seq<Seq<char>>> {
    Map::new(
        |k: Seq<Seq<char>>| matcher_keys(ms).contains(k),
        |k: Seq<Seq<char>>| ms[matcher_keys(ms).index_of(k)].lines@,
    )
}

/// The root a directory's gitignore matcher is built for: the project root
/// for the global files (the directory with no components), and `.` for a
/// real directory, whose matcher is asked about paths relative to it.
pub open spec fn group_root(key: Seq<Seq<char>>, root: Seq<char>) -> Seq<char> {
    if key.len() == 0 {
        root
    } else {
        seq!['.']
    }
}

spec fn dir_matcher_well_formed(m: DirMatcher, key: Seq<Seq<char>>, root: Seq<char>) -> bool {
    &&& gitignore_is_plain(m.gitignore)
    &&& gitignore_rules(m.gitignore) == kept_rules(m.lines@)
    &&& gitignore_rules(m.gitignore).len() > 0 ==> gitignore_root(m.gitignore) == stored_root(
        group_root(key, root),
    )
}

spec fn matchers_well_formed(ms: Seq<DirMatcher>, root: Seq<char>) -> bool {
    &&& matcher_keys(ms).no_duplicates()
    &&& forall|i: int|
        0 <= i < ms.len() ==> dir_matcher_well_formed(#[trigger] ms[i], matcher_keys(ms)[i], root)
}

impl IgnoreMatcher {
    #[verifier::type_invariant]
    spec fn well_formed(self) -> bool {
        matchers_well_formed(self.matchers@, self.root@)
    }
}

impl View for IgnoreMatcher {
    type V = MatcherSpec;

    closed spec fn view(&self) -> MatcherSpec {
        MatcherSpec {
            sources: source_views(self.sources@),
            root: self.root@,
            rules: matcher_rules(self.matchers@),
        }
    }
}

/// Whether every directory's rules compile (no rules at all always do).
pub open spec fn all_build(rules: Map<Seq<Seq<char>>, Seq<Seq<char>>>) -> bool {
    forall|k: Seq<Seq<char>>|
        rules.contains_key(k) ==> kept_rules(#[trigger] rules[k]).len() == 0 || gitignore_builds(
            kept_rules(rules[k]),
        )
}

/// The outcome of a sequence of verdicts taken in order: the last one that
/// matched decides (an ignore rule ignores, a `!` rule keeps); a path no
/// rule matched is kept.
pub open spec fn resolve(vs: Seq<RuleMatch>) -> bool
    decreases vs.len(),
{
    if vs.len() == 0 {
        false
    } else if vs.last() == RuleMatch::Ignore {
        true
    } else if vs.last() == RuleMatch::Whitelist {
        false
    } else {
        resolve(vs.drop_last())
    }
}

/// Components joined by `/` into a relative path.
pub open spec fn join_components(cs: Seq<Seq<char>>) -> Seq<char>
    decreases cs.len(),
{
    if cs.len() == 0 {
        Seq::<char>::empty()
    } else if cs.len() == 1 {
        cs[0]
    } else {
        join_components(cs.drop_last()) + seq!['/'] + cs.last()
    }
}

/// The verdict at depth `d` of a path with components `comps`: that of the
/// matcher of the directory made of the first `d` components, if there is
/// one with rules. The global files (depth 0) are asked about the path as
/// given, relative to the project root; a real directory is asked about
/// the rest of the path below it, so that its rules are anchored where its
/// ignore files are, and it has no say on the directory itself.
pub open spec fn verdict_at(
    m: MatcherSpec,
    comps: Seq<Seq<char>>,
    d: int,
    rel: Seq<char>,
    is_dir: bool,
) -> RuleMatch {
    let key = comps.take(d);
    if !m.rules.contains_key(key) || kept_rules(m.rules[key]).len() == 0 {
        RuleMatch::Unmatched
    } else if d == 0 {
        gitignore_verdict(stored_root(m.root), kept_rules(m.rules[key]), rel, is_dir)
    } else if d < comps.len() {
        gitignore_verdict(seq!['.'], kept_rules(m.rules[key]), join_components(comps.skip(d)), is_dir)
    } else {
        RuleMatch::Unmatched
    }
}

/// The verdicts of the directories that contain the path (the root joined
/// with `rel`), from the least specific (no components: the global
/// sources) to the most specific.
pub open spec fn verdict_chain(m: MatcherSpec, rel: Seq<char>, is_dir: bool) -> Seq<RuleMatch> {
    let comps = path_components(path_join(m.root, rel));
    Seq::new(comps.len() + 1, |d: int| verdict_at(m, comps, d, rel, is_dir))
}

/// Whether the matcher ignores the path.
pub open spec fn decision(m: MatcherSpec, rel: Seq<char>, is_dir: bool) -> bool {
    resolve(verdict_chain(m, rel, is_dir))
}

/// Folds one more verdict into a running outcome.
fn apply_verdict(current: bool, v: RuleMatch) -> (r: bool)
    ensures
        r == (if v == RuleMatch::Ignore {
            true
        } else if v == RuleMatch::Whitelist {
            false
        } else {
            current
        }),
{
    match v {
        RuleMatch::Unmatched => current,
        RuleMatch::Ignore => true,
        RuleMatch::Whitelist => false,
    }
}

impl IgnoreMatcher {
    /// Create a new IgnoreMatcher from the given sources. A relative `root`
    /// is taken against `current_dir`. `texts[i]` is the text of the file of
    /// `sources[i]`, `None` where it does not exist or cannot be read.
    pub fn new(
        sources: Vec<IgnoreSource>,
        root: String,
        current_dir: &str,
        texts: Vec<Option<String>>,
    ) -> (r: Result<Self, IgnoreError>)
        requires
            texts@.len() == sources@.len(),
        ensures
            r is Ok <==> all_build(built_rules(source_views(sources@), text_views(texts@))),
            r matches Ok(m) ==> m@ == (MatcherSpec {
                sources: source_views(sources@),
                root: path_join(current_dir@, root@),
                rules: built_rules(source_views(sources@), text_views(texts@)),
            }),
    {
        let root = join(current_dir, root.as_str());
        let matchers = Self::build_matchers(&sources, &root, &texts)?;
        Ok(IgnoreMatcher { sources, matchers, root })
    }

    /// Build gitignore matchers for each directory scope
    fn build_matchers(
        sources: &Vec<IgnoreSource>,
        root: &String,
        texts: &Vec<Option<String>>,
    ) -> (r: Result<Vec<DirMatcher>, IgnoreError>)
        requires
            texts@.len() == sources@.len(),
        ensures
            r is Ok <==> all_build(built_rules(source_views(sources@), text_views(texts@))),
            r matches Ok(ms) ==> matchers_well_formed(ms@, root@) && matcher_rules(ms@) == built_rules(
                source_views(sources@),
                text_views(texts@),
            ),
    {
        let ghost srcs = source_views(sources@);
        let ghost tx = text_views(texts@);
        let ghost sorted = sorted_positions(source_orders(srcs), srcs.len());
        let n = sources.len();
        let order = stable_order(sources);
        proof {
            lemma_sorted_positions_len(source_orders(srcs), srcs.len());
        }

        // the directory key of each source
        let mut keys: Vec<Vec<String>> = Vec::new();
        let mut i: usize = 0;
        while i < n
            invariant
                n == sources@.len(),
                srcs == source_views(sources@),
                i <= n,
                keys@.len() == i,
                forall|p: int| 0 <= p < i ==> views(#[trigger] keys@[p]@) == dir_key(srcs[p]),
            decreases n - i,
        {
            keys.push(components(sources[i].dir.as_str()));
            i = i + 1;
        }

        // one representative source for each directory, the first of its kind
        let mut reps: Vec<usize> = Vec::new();
        i = 0;
        while i < n
            invariant
                n == sources@.len() == keys@.len(),
                srcs == source_views(sources@),
                forall|p: int| 0 <= p < n ==> views(#[trigger] keys@[p]@) == dir_key(srcs[p]),
                i <= n,
                forall|g: int| 0 <= g < reps@.len() ==> #[trigger] reps@[g] < i,
                forall|g1: int, g2: int|
                    0 <= g1 < g2 < reps@.len() ==> dir_key(srcs[#[trigger] reps@[g1] as int]) != dir_key(
                        srcs[#[trigger] reps@[g2] as int],
                    ),
                forall|p: int|
                    0 <= p < i ==> exists|g: int|
                        0 <= g < reps@.len() && dir_key(srcs[#[trigger] reps@[g] as int]) == dir_key(
                            #[trigger] srcs[p],
                        ),
            decreases n - i,
        {
            let mut found = false;
            let mut g: usize = 0;
            let ghost old_reps = reps@;
            while g < reps.len()
                invariant
                    n == keys@.len() == sources@.len(),
                    srcs == source_views(sources@),
                    reps@ == old_reps,
                    i < n,
                    forall|p: int| 0 <= p < n ==> views(#[trigger] keys@[p]@) == dir_key(srcs[p]),
                    forall|h: int| 0 <= h < reps@.len() ==> #[trigger] reps@[h] < i,
                    g <= reps@.len(),
                    found ==> exists|h: int|
                        0 <= h < reps@.len() && dir_key(srcs[#[trigger] reps@[h] as int]) == dir_key(srcs[i as int]),
                    !found ==> forall|h: int|
                        0 <= h < g ==> dir_key(srcs[#[trigger] reps@[h] as int]) != dir_key(srcs[i as int]),
                decreases reps@.len() - g,
            {
                let rep = reps[g];
                if strings_equal(&keys[rep], &keys[i]) {
                    found = true;
                }
                g = g + 1;
            }
            if !found {
                reps.push(i);
                proof {
                    assert(reps@[reps@.len() - 1] == i);
                }
            }
            proof {
                assert forall|p: int| 0 <= p < i + 1 implies exists|h: int|
                    0 <= h < reps@.len() && dir_key(srcs[#[trigger] reps@[h] as int]) == dir_key(
                        #[trigger] srcs[p],
                    ) by {
                    if p == i {
                        if !found {
                            assert(reps@[reps@.len() - 1] == i);
                        }
                    } else {
                        let h = choose|h: int|
                            0 <= h < old_reps.len() && dir_key(srcs[#[trigger] old_reps[h] as int]) == dir_key(srcs[p]);
                        assert(reps@[h] == old_reps[h]);
                    }
                }
            }
            i = i + 1;
        }

        // one gitignore matcher for each directory
        let mut ms: Vec<DirMatcher> = Vec::new();
        let mut g: usize = 0;
        while g < reps.len()
            invariant
                n == sources@.len() == keys@.len() == texts@.len() == order@.len(),
                srcs == source_views(sources@),
                tx == text_views(texts@),
                sorted == sorted_positions(source_orders(srcs), srcs.len()),
                pos_view(order@) == sorted,
                sorted.len() == n,
                forall|k: int| 0 <= k < n ==> 0 <= #[trigger] sorted[k] < n,
                forall|p: int| 0 <= p < n ==> views(#[trigger] keys@[p]@) == dir_key(srcs[p]),
                forall|h: int| 0 <= h < reps@.len() ==> #[trigger] reps@[h] < n,
                forall|g1: int, g2: int|
                    0 <= g1 < g2 < reps@.len() ==> dir_key(srcs[#[trigger] reps@[g1] as int]) != dir_key(
                        srcs[#[trigger] reps@[g2] as int],
                    ),
                g <= reps@.len(),
                ms@.len() == g,
                forall|h: int|
                    0 <= h < g ==> {
                        &&& views((#[trigger] ms@[h]).key@) == dir_key(srcs[reps@[h] as int])
                        &&& ms@[h].lines@ == group_lines(sorted, srcs, tx, dir_key(srcs[reps@[h] as int]))
                        &&& dir_matcher_well_formed(ms@[h], dir_key(srcs[reps@[h] as int]), root@)
                        &&& (kept_rules(ms@[h].lines@).len() == 0 || gitignore_builds(
                            kept_rules(ms@[h].lines@),
                        ))
                    },
            decreases reps@.len() - g,
        {
            let rep = reps[g];
            let ghost key = dir_key(srcs[rep as int]);
            let key_strings = components(sources[rep].dir.as_str());
            proof {
                reveal_strlit(".");
                assert("."@ =~= seq!['.']);
            }
            let mut b = if key_strings.len() == 0 {
                new_builder(root.as_str())
            } else {
                new_builder(".")
            };
            let mut t: usize = 0;
            proof {
                assert(sorted.take(0) =~= Seq::<int>::empty());
            }
            while t < n
                invariant
                    n == sources@.len() == keys@.len() == texts@.len() == order@.len(),
                    srcs == source_views(sources@),
                    tx == text_views(texts@),
                    pos_view(order@) == sorted,
                    sorted.len() == n,
                    forall|k: int| 0 <= k < n ==> 0 <= #[trigger] sorted[k] < n,
                    forall|p: int| 0 <= p < n ==> views(#[trigger] keys@[p]@) == dir_key(srcs[p]),
                    rep < n,
                    key == dir_key(srcs[rep as int]),
                    t <= n,
                    builder_is_plain(b),
                    builder_root(b) == stored_root(group_root(key, root@)),
                    builder_rules(b) == kept_rules(group_lines(sorted.take(t as int), srcs, tx, key)),
                decreases n - t,
            {
                let p = order[t];
                proof {
                    assert(pos_view(order@)[t as int] == p as int);
                    assert(sorted.take(t + 1).drop_last() =~= sorted.take(t as int));
                    assert(sorted.take(t + 1).last() == p as int);
                }
                if strings_equal(&keys[p], &keys[rep]) {
                    let rules = file_rules_of(&texts[p]);
                    let ghost base = group_lines(sorted.take(t as int), srcs, tx, key);
                    proof {
                        assert(tx[p as int] == opt_view(texts@[p as int]));
                        assert(views(rules@).take(0) =~= Seq::<Seq<char>>::empty());
                        assert(base + views(rules@).take(0) =~= base);
                    }
                    let mut l: usize = 0;
                    while l < rules.len()
                        invariant
                            p < sources@.len(),
                            l <= rules@.len(),
                            builder_is_plain(b),
                            builder_root(b) == stored_root(group_root(key, root@)),
                            builder_rules(b) == kept_rules(base + views(rules@).take(l as int)),
                        decreases rules@.len() - l,
                    {
                        add_line(&mut b, sources[p].file_path.as_str(), rules[l].as_str());
                        proof {
                            let prev = base + views(rules@).take(l as int);
                            let next = base + views(rules@).take(l + 1);
                            assert(next =~= prev.push(rules@[l as int]@));
                            assert(next.drop_last() =~= prev);
                            assert(next.last() == rules@[l as int]@);
                        }
                        l = l + 1;
                    }
                    proof {
                        assert(views(rules@).take(rules@.len() as int) =~= views(rules@));
                        assert(group_lines(sorted.take(t + 1), srcs, tx, key) == base + views(rules@));
                    }
                }
                t = t + 1;
            }
            proof {
                assert(sorted.take(n as int) =~= sorted);
            }
            match build(&b) {
                Ok(gitignore) => {
                    let ghost lines = group_lines(sorted, srcs, tx, key);
                    ms.push(DirMatcher { key: key_strings, gitignore, lines: Ghost(lines) });
                    proof {
                        assert(ms@[g as int].lines@ == lines);
                    }
                },
                Err(_) => {
                    proof {
                        let br = built_rules(srcs, tx);
                        assert(br.contains_key(key));
                        assert(kept_rules(br[key]) == builder_rules(b));
                        assert(kept_rules(br[key]).len() != 0);
                    }
                    return Err(IgnoreError::MatcherBuild);
                },
            }
            g = g + 1;
        }
        proof {
            let br = built_rules(srcs, tx);
            let mk = matcher_keys(ms@);
            assert forall|h: int| 0 <= h < mk.len() implies #[trigger] mk[h] == dir_key(srcs[reps@[h] as int]) by {
                assert(mk[h] == views(ms@[h].key@));
            }
            assert(mk.no_duplicates()) by {
                assert forall|a: int, c: int| 0 <= a < mk.len() && 0 <= c < mk.len() && a != c implies mk[a] != mk[c] by {
                    if a < c {
                        assert(dir_key(srcs[reps@[a] as int]) != dir_key(srcs[reps@[c] as int]));
                    } else {
                        assert(dir_key(srcs[reps@[c] as int]) != dir_key(srcs[reps@[a] as int]));
                    }
                }
            }
            assert forall|k: Seq<Seq<char>>| #[trigger] br.contains_key(k) <==> matcher_rules(ms@).contains_key(k) by {
                if br.contains_key(k) {
                    let p = choose|p: int| 0 <= p < srcs.len() && dir_key(srcs[p]) == k;
                    assert(dir_key(srcs[p]) == dir_key(srcs[p]));
                    let h = choose|h: int| 0 <= h < reps@.len() && dir_key(srcs[#[trigger] reps@[h] as int]) == dir_key(srcs[p]);
                    assert(mk[h] == k);
                }
                if mk.contains(k) {
                    let h = choose|h: int| 0 <= h < mk.len() && mk[h] == k;
                    assert(dir_key(srcs[reps@[h] as int]) == k);
                }
            }
            assert forall|k: Seq<Seq<char>>| #[trigger] br.contains_key(k) implies matcher_rules(ms@)[k] == br[k] && (kept_rules(br[k]).len() == 0 || gitignore_builds(kept_rules(br[k]))) by {
                let h = mk.index_of(k);
                assert(mk.contains(k));
                assert(0 <= h < mk.len() && mk[h] == k);
            }
            assert(matcher_rules(ms@) =~= br);
        }
        Ok(ms)
    }
}

proof fn lemma_resolve_push(vs: Seq<RuleMatch>, v: RuleMatch)
    ensures
        resolve(vs.push(v)) == (if v == RuleMatch::Ignore {
            true
        } else if v == RuleMatch::Whitelist {
            false
        } else {
            resolve(vs)
        }),
{
    assert(vs.push(v).drop_last() =~= vs);
}

/// The components from position `from` on, joined by `/`.
fn join_components_of(comps: &Vec<String>, from: usize) -> (r: String)
    requires
        from <= comps@.len(),
    ensures
        r@ == join_components(views(comps@).skip(from as int)),
{
    proof {
        reveal_strlit("/");
        assert("/"@ =~= seq!['/']);
    }
    let ghost cs = views(comps@);
    let mut out = String::new();
    let mut i = from;
    proof {
        assert(cs.subrange(from as int, from as int) =~= Seq::<Seq<char>>::empty());
    }
    while i < comps.len()
        invariant
            cs == views(comps@),
            "/"@ == seq!['/'],
            from <= i <= comps@.len(),
            out@ == join_components(cs.subrange(from as int, i as int)),
        decreases comps@.len() - i,
    {
        let ghost part = cs.subrange(from as int, i + 1);
        proof {
            assert(part.drop_last() =~= cs.subrange(from as int, i as int));
            assert(part.last() == comps@[i as int]@);
        }
        let ghost before = out@;
        if i > from {
            out.append("/");
        } else {
            proof {
                assert(part.len() == 1);
            }
        }
        out.append(comps[i].as_str());
        proof {
            if i > from {
                assert(out@ =~= before + seq!['/'] + part.last());
                assert(join_components(part) == join_components(part.drop_last()) + seq!['/'] + part.last());
            } else {
                assert(before =~= Seq::<char>::empty());
                assert(out@ =~= part[0]);
            }
        }
        i = i + 1;
    }
    proof {
        assert(cs.subrange(from as int, comps@.len() as int) =~= cs.skip(from as int));
    }
    out
}

impl IgnoreMatcher {
    /// The position of the matcher of the directory whose components are
    /// the first `d` of `comps`.
    fn find_matcher(&self, comps: &Vec<String>, d: usize) -> (r: Option<usize>)
        requires
            d <= comps@.len(),
            matchers_well_formed(self.matchers@, self.root@),
        ensures
            r matches Some(i) ==> i < self.matchers@.len() && matcher_keys(self.matchers@)[i as int]
                == views(comps@).take(d as int),
            r is None ==> !matcher_keys(self.matchers@).contains(views(comps@).take(d as int)),
    {
        let ghost want = views(comps@).take(d as int);
        let ghost mk = matcher_keys(self.matchers@);
        let mut i: usize = 0;
        while i < self.matchers.len()
            invariant
                d <= comps@.len(),
                want == views(comps@).take(d as int),
                mk == matcher_keys(self.matchers@),
                i <= self.matchers@.len(),
                forall|h: int| 0 <= h < i ==> mk[h] != want,
            decreases self.matchers@.len() - i,
        {
            let key = &self.matchers[i].key;
            proof {
                assert(mk[i as int] == views(key@));
            }
            if key.len() == d && strings_prefix(key, comps) {
                proof {
                    assert(views(key@) =~= want);
                }
                return Some(i);
            }
            proof {
                if views(key@) == want {
                    assert(views(key@).len() == d);
                    assert(views(key@).is_prefix_of(views(comps@)));
                }
            }
            i = i + 1;
        }
        None
    }

    /// The verdict at depth `d` of the path's components (see `verdict_at`).
    fn verdict_at_depth(&self, comps: &Vec<String>, d: usize, rel_path: &str, is_dir: bool) -> (r: RuleMatch)
        requires
            d <= comps@.len(),
            matchers_well_formed(self.matchers@, self.root@),
        ensures
            r == verdict_at(self@, views(comps@), d as int, rel_path@, is_dir),
    {
        match self.find_matcher(comps, d) {
            Some(i) => {
                let ghost mk = matcher_keys(self.matchers@);
                let ghost k = views(comps@).take(d as int);
                proof {
                    assert(mk.contains(k));
                    let j = mk.index_of(k);
                    assert(0 <= j < mk.len() && mk[j] == k);
                    assert(j == i);
                    assert(dir_matcher_well_formed(self.matchers@[i as int], k, self.root@));
                }
                if d == 0 {
                    matched(&self.matchers[i].gitignore, rel_path, is_dir)
                } else if d < comps.len() {
                    let rest = join_components_of(comps, d);
                    matched(&self.matchers[i].gitignore, rest.as_str(), is_dir)
                } else {
                    RuleMatch::Unmatched
                }
            },
            None => RuleMatch::Unmatched,
        }
    }

    /// Check if a path should be ignored
    ///
    /// Returns true if the path should be ignored, false if it should be included.
    ///
    /// This method evaluates all applicable ignore scopes in precedence order,
    /// allowing later (more specific) rules to override earlier (more general) ones.
    pub fn matches(&self, rel_path: &str, is_dir: bool) -> (r: bool)
        ensures
            r == decision(self@, rel_path@, is_dir),
    {
        proof {
            use_type_invariant(self);
        }
        let path_absolute = join(self.root.as_str(), rel_path);
        let comps = components(path_absolute.as_str());
        let ghost chain = verdict_chain(self@, rel_path@, is_dir);
        let n = comps.len();
        let mut final_result = false;
        let mut d: usize = 0;
        proof {
            assert(chain.take(0) =~= Seq::<RuleMatch>::empty());
        }
        while d < n
            invariant
                n == comps@.len(),
                views(comps@) == path_components(path_join(self@.root, rel_path@)),
                chain == verdict_chain(self@, rel_path@, is_dir),
                matchers_well_formed(self.matchers@, self.root@),
                d <= n,
                final_result == resolve(chain.take(d as int)),
            decreases n - d,
        {
            let v = self.verdict_at_depth(&comps, d, rel_path, is_dir);
            proof {
                assert(chain[d as int] == v);
                assert(chain.take(d + 1) =~= chain.take(d as int).push(v));
                lemma_resolve_push(chain.take(d as int), v);
            }
            final_result = apply_verdict(final_result, v);
            d = d + 1;
        }
        let v = self.verdict_at_depth(&comps, n, rel_path, is_dir);
        proof {
            assert(chain[n as int] == v);
            assert(chain =~= chain.take(n as int).push(v));
            lemma_resolve_push(chain.take(n as int), v);
        }
        apply_verdict(final_result, v)
    }

    /// Get all sources used by this matcher
    pub fn sources(&self) -> (r: &[IgnoreSource])
        ensures
            source_views(r@) == self@.sources,
    {
        self.sources.as_slice()
    }
}

/// Position `a` comes before position `b` in the stable order: by order,
/// and by position where the orders are equal.
pub open spec fn stably_before(orders: Seq<nat>, a: int, b: int) -> bool {
    orders[a] < orders[b] || (orders[a] == orders[b] && a < b)
}

proof fn lemma_insert_by_order_sorted(s: Seq<int>, p: int, orders: Seq<nat>)
    requires
        forall|i: int, j: int| 0 <= i < j < s.len() ==> stably_before(orders, #[trigger] s[i], #[trigger] s[j]),
        forall|i: int| 0 <= i < s.len() ==> #[trigger] s[i] < p,
    ensures
        forall|i: int, j: int|
            0 <= i < j < insert_by_order(s, p, orders).len() ==> stably_before(
                orders,
                #[trigger] insert_by_order(s, p, orders)[i],
                #[trigger] insert_by_order(s, p, orders)[j],
            ),
    decreases s.len(),
{
    lemma_insert_by_order_props(s, p, orders);
    if s.len() == 0 {
    } else if orders[s.last()] <= orders[p] {
        let r = s.push(p);
        assert forall|i: int, j: int| 0 <= i < j < r.len() implies stably_before(orders, #[trigger] r[i], #[trigger] r[j]) by {
            if j == s.len() {
                if i < s.len() - 1 {
                    assert(stably_before(orders, s[i], s[s.len() - 1]));
                }
                assert(s[i] < p);
            }
        }
    } else {
        let t = s.drop_last();
        lemma_insert_by_order_sorted(t, p, orders);
        lemma_insert_by_order_props(t, p, orders);
        let r0 = insert_by_order(t, p, orders);
        let r = r0.push(s.last());
        assert forall|i: int, j: int| 0 <= i < j < r.len() implies stably_before(orders, #[trigger] r[i], #[trigger] r[j]) by {
            if j == r.len() - 1 {
                if r0[i] != p {
                    let q = choose|q: int| 0 <= q < t.len() && t[q] == r0[i];
                    assert(stably_before(orders, s[q], s[s.len() - 1]));
                }
            } else {
                assert(r[i] == r0[i] && r[j] == r0[j]);
            }
        }
    }
}

/// The sources are compiled in stable order: the positions `0..m` each
/// appear once, and a position comes before another exactly when its
/// order is smaller, or equal with an earlier position.
pub proof fn law_stable_order(orders: Seq<nat>, m: nat)
    ensures
        sorted_positions(orders, m).len() == m,
        forall|k: int| 0 <= k < m ==> 0 <= #[trigger] sorted_positions(orders, m)[k] < m,
        forall|i: int, j: int|
            0 <= i < j < m ==> stably_before(
                orders,
                #[trigger] sorted_positions(orders, m)[i],
                #[trigger] sorted_positions(orders, m)[j],
            ),
        sorted_positions(orders, m).no_duplicates(),
    decreases m,
{
    lemma_sorted_positions_len(orders, m);
    if m > 0 {
        law_stable_order(orders, (m - 1) as nat);
        let s = sorted_positions(orders, (m - 1) as nat);
        lemma_insert_by_order_sorted(s, m - 1, orders);
    }
    let r = sorted_positions(orders, m);
    assert forall|i: int, j: int| 0 <= i < r.len() && 0 <= j < r.len() && i != j implies r[i] != r[j] by {
        if i < j {
            assert(stably_before(orders, r[i], r[j]));
        } else {
            assert(stably_before(orders, r[j], r[i]));
        }
    }
}

proof fn lemma_resolve_last_match(vs: Seq<RuleMatch>, d: int)
    requires
        0 <= d < vs.len(),
        vs[d] != RuleMatch::Unmatched,
        forall|e: int| d < e < vs.len() ==> #[trigger] vs[e] == RuleMatch::Unmatched,
    ensures
        resolve(vs) == (vs[d] == RuleMatch::Ignore),
    decreases vs.len(),
{
    if d < vs.len() - 1 {
        let t = vs.drop_last();
        assert(vs[vs.len() - 1] == RuleMatch::Unmatched);
        assert forall|e: int| d < e < t.len() implies #[trigger] t[e] == RuleMatch::Unmatched by {
            assert(t[e] == vs[e]);
        }
        lemma_resolve_last_match(t, d);
    }
}

proof fn lemma_resolve_no_match(vs: Seq<RuleMatch>)
    requires
        forall|e: int| 0 <= e < vs.len() ==> #[trigger] vs[e] == RuleMatch::Unmatched,
    ensures
        !resolve(vs),
    decreases vs.len(),
{
    if vs.len() > 0 {
        let t = vs.drop_last();
        assert(vs[vs.len() - 1] == RuleMatch::Unmatched);
        assert forall|e: int| 0 <= e < t.len() implies #[trigger] t[e] == RuleMatch::Unmatched by {
            assert(t[e] == vs[e]);
        }
        lemma_resolve_no_match(t);
    }
}

/// The most specific directory whose rules match the path decides: if it
/// ignores the path, the path is ignored, and if it keeps it (a `!` rule),
/// the path is kept, whatever less specific directories and the global
/// files say.
pub proof fn law_most_specific_match_decides(m: MatcherSpec, rel: Seq<char>, is_dir: bool, d: int)
    requires
        0 <= d < verdict_chain(m, rel, is_dir).len(),
        verdict_chain(m, rel, is_dir)[d] != RuleMatch::Unmatched,
        forall|e: int|
            d < e < verdict_chain(m, rel, is_dir).len() ==> #[trigger] verdict_chain(m, rel, is_dir)[e]
                == RuleMatch::Unmatched,
    ensures
        decision(m, rel, is_dir) == (verdict_chain(m, rel, is_dir)[d] == RuleMatch::Ignore),
{
    lemma_resolve_last_match(verdict_chain(m, rel, is_dir), d);
}

/// A path that no rule matches is not ignored.
pub proof fn law_unmatched_path_is_kept(m: MatcherSpec, rel: Seq<char>, is_dir: bool)
    requires
        forall|e: int|
            0 <= e < verdict_chain(m, rel, is_dir).len() ==> #[trigger] verdict_chain(m, rel, is_dir)[e]
                == RuleMatch::Unmatched,
    ensures
        !decision(m, rel, is_dir),
{
    lemma_resolve_no_match(verdict_chain(m, rel, is_dir));
}

/// A matcher made from no sources ignores nothing.
pub proof fn law_no_sources_ignore_nothing(root: Seq<char>, rel: Seq<char>, is_dir: bool)
    ensures
        !decision(
            MatcherSpec {
                sources: Seq::<SourceSpec>::empty(),
                root,
                rules: built_rules(Seq::<SourceSpec>::empty(), Seq::<Option<Seq<char>>>::empty()),
            },
            rel,
            is_dir,
        ),
{
    let m = MatcherSpec {
        sources: Seq::<SourceSpec>::empty(),
        root,
        rules: built_rules(Seq::<SourceSpec>::empty(), Seq::<Option<Seq<char>>>::empty()),
    };
    let chain = verdict_chain(m, rel, is_dir);
    assert forall|e: int| 0 <= e < chain.len() implies #[trigger] chain[e] == RuleMatch::Unmatched by {
        let comps = path_components(path_join(root, rel));
        assert(!m.rules.contains_key(comps.take(e)));
    }
    lemma_resolve_no_match(chain);
}

/// Sources whose orders are their positions (as discovery numbers them)
/// are compiled in the order they are given.
pub proof fn law_numbered_sources_keep_their_order(orders: Seq<nat>, m: nat)
    requires
        m <= orders.len(),
        forall|i: int| 0 <= i < m ==> #[trigger] orders[i] == i,
    ensures
        sorted_positions(orders, m) == Seq::new(m, |i: int| i),
    decreases m,
{
    if m > 0 {
        law_numbered_sources_keep_their_order(orders, (m - 1) as nat);
        let s = sorted_positions(orders, (m - 1) as nat);
        if s.len() > 0 {
            assert(s.last() == m - 2);
            assert(orders[m - 2] == m - 2);
            assert(orders[m - 1] == m - 1);
        }
        assert(insert_by_order(s, m - 1, orders) =~= Seq::new(m, |i: int| i));
    }
}

/// A matcher made from what discovery returns compiles each directory's
/// files in discovery order: system files before user files, and within a
/// directory `.gitignore` before `.aiignore` before `.codexignore`.
pub proof fn law_discovered_sources_compile_in_discovery_order(
    d: crate::discovery::DiscoverySpec,
    root: Seq<char>,
    h: crate::discovery::HostSpec,
    texts: Seq<Option<Seq<char>>>,
)
    ensures
        ({
            let srcs = crate::discovery::discovered(d, root, h);
            forall|k: Seq<Seq<char>>|
                #[trigger] built_rules(srcs, texts).contains_key(k) ==> built_rules(srcs, texts)[k]
                    == group_lines(Seq::new(srcs.len(), |i: int| i), srcs, texts, k)
        }),
{
    let srcs = crate::discovery::discovered(d, root, h);
    crate::discovery::law_order_is_position(d, root, h);
    let orders = source_orders(srcs);
    assert forall|i: int| 0 <= i < srcs.len() implies #[trigger] orders[i] == i by {
        assert(srcs[i].order == i);
    }
    law_numbered_sources_keep_their_order(orders, srcs.len());
}

/// A matcher whose directories hold no rules (no lines, or only comments,
/// blank lines and lines whose globs do not parse) ignores nothing.
pub proof fn law_no_rules_ignore_nothing(m: MatcherSpec, rel: Seq<char>, is_dir: bool)
    requires
        forall|k: Seq<Seq<char>>| #[trigger] m.rules.contains_key(k) ==> kept_rules(m.rules[k]).len() == 0,
    ensures
        !decision(m, rel, is_dir),
{
    let chain = verdict_chain(m, rel, is_dir);
    assert forall|e: int| 0 <= e < chain.len() implies #[trigger] chain[e] == RuleMatch::Unmatched by {
        let comps = path_components(path_join(m.root, rel));
        let key = comps.take(e);
        if m.rules.contains_key(key) {
            assert(kept_rules(m.rules[key]).len() == 0);
        }
    }
    lemma_resolve_no_match(chain);
}

proof fn lemma_group_lines_without_texts(
    ps: Seq<int>,
    srcs: Seq<SourceSpec>,
    texts: Seq<Option<Seq<char>>>,
    key: Seq<Seq<char>>,
)
    requires
        forall|i: int| 0 <= i < ps.len() ==> texts[#[trigger] ps[i]] is None,
    ensures
        group_lines(ps, srcs, texts, key).len() == 0,
    decreases ps.len(),
{
    if ps.len() > 0 {
        assert forall|i: int| 0 <= i < ps.drop_last().len() implies texts[#[trigger] ps.drop_last()[i]] is None by {
            assert(ps.drop_last()[i] == ps[i]);
        }
        lemma_group_lines_without_texts(ps.drop_last(), srcs, texts, key);
        assert(texts[ps[ps.len() - 1]] is None);
    }
}

/// When none of the sources' files exists, every directory has no rules:
/// the matcher is made (`new` succeeds) and it ignores nothing (see
/// `law_no_rules_ignore_nothing`).
pub proof fn law_missing_files_give_no_rules(srcs: Seq<SourceSpec>, texts: Seq<Option<Seq<char>>>)
    requires
        texts.len() == srcs.len(),
        forall|i: int| 0 <= i < texts.len() ==> #[trigger] texts[i] is None,
    ensures
        forall|k: Seq<Seq<char>>|
            #[trigger] built_rules(srcs, texts).contains_key(k) ==> built_rules(srcs, texts)[k].len() == 0,
        all_build(built_rules(srcs, texts)),
{
    let sorted = sorted_positions(source_orders(srcs), srcs.len());
    lemma_sorted_positions_len(source_orders(srcs), srcs.len());
    assert forall|i: int| 0 <= i < sorted.len() implies texts[#[trigger] sorted[i]] is None by {
        assert(0 <= sorted[i] < srcs.len());
    }
    assert forall|k: Seq<Seq<char>>| #[trigger] built_rules(srcs, texts).contains_key(k) implies built_rules(srcs, texts)[k].len() == 0 by {
        lemma_group_lines_without_texts(sorted, srcs, texts, k);
    }
}

proof fn lemma_group_lines_skip_insert(
    s: Seq<int>,
    p: int,
    orders: Seq<nat>,
    srcs: Seq<SourceSpec>,
    texts: Seq<Option<Seq<char>>>,
    key: Seq<Seq<char>>,
)
    requires
        dir_key(srcs[p]) != key,
    ensures
        group_lines(insert_by_order(s, p, orders), srcs, texts, key) == group_lines(s, srcs, texts, key),
    decreases s.len(),
{
    if s.len() == 0 {
        let t = seq![p];
        assert(t.drop_last() =~= Seq::<int>::empty());
        assert(t.last() == p);
        assert(insert_by_order(s, p, orders) == t);
        assert(group_lines(t, srcs, texts, key) == group_lines(Seq::<int>::empty(), srcs, texts, key));
        assert(s =~= Seq::<int>::empty());
    } else if orders[s.last()] <= orders[p] {
        assert(s.push(p).drop_last() =~= s);
        assert(s.push(p).last() == p);
    } else {
        lemma_group_lines_skip_insert(s.drop_last(), p, orders, srcs, texts, key);
        let r = insert_by_order(s.drop_last(), p, orders);
        assert(r.push(s.last()).drop_last() =~= r);
        assert(r.push(s.last()).last() == s.last());
    }
}

proof fn lemma_group_lines_prefix_sources(
    ps: Seq<int>,
    srcs: Seq<SourceSpec>,
    texts: Seq<Option<Seq<char>>>,
    srcs2: Seq<SourceSpec>,
    texts2: Seq<Option<Seq<char>>>,
    key: Seq<Seq<char>>,
)
    requires
        forall|i: int| 0 <= i < ps.len() ==> srcs2[#[trigger] ps[i]] == srcs[ps[i]] && texts2[ps[i]] == texts[ps[i]],
    ensures
        group_lines(ps, srcs2, texts2, key) == group_lines(ps, srcs, texts, key),
    decreases ps.len(),
{
    if ps.len() > 0 {
        assert forall|i: int| 0 <= i < ps.drop_last().len() implies srcs2[#[trigger] ps.drop_last()[i]]
            == srcs[ps.drop_last()[i]] && texts2[ps.drop_last()[i]] == texts[ps.drop_last()[i]] by {
            assert(ps.drop_last()[i] == ps[i]);
        }
        lemma_group_lines_prefix_sources(ps.drop_last(), srcs, texts, srcs2, texts2, key);
        assert(srcs2[ps[ps.len() - 1]] == srcs[ps[ps.len() - 1]]);
    }
}

proof fn lemma_insert_by_order_congruent(s: Seq<int>, p: int, o1: Seq<nat>, o2: Seq<nat>)
    requires
        o1[p] == o2[p],
        forall|i: int| 0 <= i < s.len() ==> o1[#[trigger] s[i]] == o2[s[i]],
    ensures
        insert_by_order(s, p, o1) == insert_by_order(s, p, o2),
    decreases s.len(),
{
    if s.len() > 0 {
        assert(o1[s[s.len() - 1]] == o2[s[s.len() - 1]]);
        assert forall|i: int| 0 <= i < s.drop_last().len() implies o1[#[trigger] s.drop_last()[i]] == o2[s.drop_last()[i]] by {
            assert(s.drop_last()[i] == s[i]);
        }
        lemma_insert_by_order_congruent(s.drop_last(), p, o1, o2);
    }
}

proof fn lemma_sorted_positions_prefix(o1: Seq<nat>, o2: Seq<nat>, m: nat)
    requires
        forall|i: int| 0 <= i < m ==> #[trigger] o1[i] == o2[i],
    ensures
        sorted_positions(o1, m) == sorted_positions(o2, m),
    decreases m,
{
    if m > 0 {
        lemma_sorted_positions_prefix(o1, o2, (m - 1) as nat);
        let s = sorted_positions(o1, (m - 1) as nat);
        lemma_sorted_positions_len(o1, (m - 1) as nat);
        assert forall|i: int| 0 <= i < s.len() implies o1[#[trigger] s[i]] == o2[s[i]] by {
            assert(0 <= s[i] < m - 1);
        }
        assert(o1[m - 1] == o2[m - 1]);
        lemma_insert_by_order_congruent(s, m - 1, o1, o2);
    }
}

/// An ignore file in a directory that does not contain the path has no
/// say on it: adding such a source (with any order and text) leaves the
/// decision on the path unchanged.
pub proof fn law_unrelated_directory_has_no_say(
    srcs: Seq<SourceSpec>,
    texts: Seq<Option<Seq<char>>>,
    x: SourceSpec,
    text: Option<Seq<char>>,
    root: Seq<char>,
    rel: Seq<char>,
    is_dir: bool,
)
    requires
        texts.len() == srcs.len(),
        x.dir.len() > 0,
        !dir_key(x).is_prefix_of(path_components(path_join(root, rel))),
    ensures
        decision(MatcherSpec { sources: srcs, root, rules: built_rules(srcs, texts) }, rel, is_dir)
            == decision(
            MatcherSpec { sources: srcs.push(x), root, rules: built_rules(srcs.push(x), texts.push(text)) },
            rel,
            is_dir,
        ),
{
    let n = srcs.len();
    let srcs2 = srcs.push(x);
    let texts2 = texts.push(text);
    let m1 = MatcherSpec { sources: srcs, root, rules: built_rules(srcs, texts) };
    let m2 = MatcherSpec { sources: srcs2, root, rules: built_rules(srcs2, texts2) };
    let o1 = source_orders(srcs);
    let o2 = source_orders(srcs2);
    lemma_components_nonempty(x.dir);
    lemma_sorted_positions_prefix(o1, o2, n);
    let s = sorted_positions(o1, n);
    lemma_sorted_positions_len(o1, n);
    assert(sorted_positions(o2, n + 1) == insert_by_order(s, n as int, o2));
    let comps = path_components(path_join(root, rel));
    let c1 = verdict_chain(m1, rel, is_dir);
    let c2 = verdict_chain(m2, rel, is_dir);
    assert forall|d: int| 0 <= d < c1.len() implies #[trigger] c1[d] == c2[d] by {
        let key = comps.take(d);
        if key == dir_key(x) {
            assert(dir_key(x).is_prefix_of(comps));
        }
        assert(srcs2[n as int] == x);
        assert(m1.rules.contains_key(key) == m2.rules.contains_key(key)) by {
            if m2.rules.contains_key(key) {
                let i = choose|i: int| 0 <= i < srcs2.len() && dir_key(srcs2[i]) == key;
                assert(i < n);
                assert(srcs2[i] == srcs[i]);
            }
            if m1.rules.contains_key(key) {
                let i = choose|i: int| 0 <= i < srcs.len() && dir_key(srcs[i]) == key;
                assert(srcs2[i] == srcs[i]);
            }
        }
        if m1.rules.contains_key(key) {
            lemma_group_lines_skip_insert(s, n as int, o2, srcs2, texts2, key);
            assert forall|i: int| 0 <= i < s.len() implies srcs2[#[trigger] s[i]] == srcs[s[i]] && texts2[s[i]] == texts[s[i]] by {
                assert(0 <= s[i] < n);
            }
            lemma_group_lines_prefix_sources(s, srcs, texts, srcs2, texts2, key);
            assert(m1.rules[key] == m2.rules[key]);
        }
    }
    assert(c1 =~= c2);
}

proof fn lemma_insert_by_order_contains(s: Seq<int>, p: int, orders: Seq<nat>)
    ensures
        insert_by_order(s, p, orders).contains(p),
        forall|i: int| 0 <= i < s.len() ==> insert_by_order(s, p, orders).contains(#[trigger] s[i]),
    decreases s.len(),
{
    let r = insert_by_order(s, p, orders);
    if s.len() == 0 {
        assert(r[0] == p);
    } else if orders[s.last()] <= orders[p] {
        assert(r[s.len() as int] == p);
        assert forall|i: int| 0 <= i < s.len() implies r.contains(#[trigger] s[i]) by {
            assert(r[i] == s[i]);
        }
    } else {
        let t = s.drop_last();
        lemma_insert_by_order_contains(t, p, orders);
        let r0 = insert_by_order(t, p, orders);
        let k = choose|k: int| 0 <= k < r0.len() && r0[k] == p;
        assert(r[k] == p);
        assert forall|i: int| 0 <= i < s.len() implies r.contains(#[trigger] s[i]) by {
            if i < t.len() {
                assert(t[i] == s[i]);
                let k = choose|k: int| 0 <= k < r0.len() && r0[k] == t[i];
                assert(r[k] == s[i]);
            } else {
                assert(r[r.len() - 1] == s[i]);
            }
        }
    }
}

proof fn lemma_sorted_positions_cover(orders: Seq<nat>, m: nat)
    ensures
        forall|q: int| 0 <= q < m ==> #[trigger] sorted_positions(orders, m).contains(q),
    decreases m,
{
    if m > 0 {
        lemma_sorted_positions_cover(orders, (m - 1) as nat);
        let s = sorted_positions(orders, (m - 1) as nat);
        lemma_insert_by_order_contains(s, m - 1, orders);
        assert forall|q: int| 0 <= q < m implies #[trigger] sorted_positions(orders, m).contains(q) by {
            if q < m - 1 {
                assert(s.contains(q));
                let k = choose|k: int| 0 <= k < s.len() && s[k] == q;
                assert(insert_by_order(s, m - 1, orders).contains(s[k]));
            }
        }
    }
}

/// A source together with the text of its file.
pub open spec fn source_entry(
    srcs: Seq<SourceSpec>,
    texts: Seq<Option<Seq<char>>>,
    q: int,
) -> (SourceSpec, Option<Seq<char>>) {
    (srcs[q], texts[q])
}

/// Every source, each with its text, in the given order.
pub open spec fn entries_of(srcs: Seq<SourceSpec>, texts: Seq<Option<Seq<char>>>) -> Seq<
    (SourceSpec, Option<Seq<char>>),
> {
    Seq::new(srcs.len(), |q: int| source_entry(srcs, texts, q))
}

/// The sources at positions `ps`, each with its text.
pub open spec fn entries_at(
    ps: Seq<int>,
    srcs: Seq<SourceSpec>,
    texts: Seq<Option<Seq<char>>>,
) -> Seq<(SourceSpec, Option<Seq<char>>)> {
    ps.map_values(|q: int| source_entry(srcs, texts, q))
}

/// The rule lines of the entries whose key is `key`, concatenated in order.
pub open spec fn entries_lines(es: Seq<(SourceSpec, Option<Seq<char>>)>, key: Seq<Seq<char>>) -> Seq<
    Seq<char>,
>
    decreases es.len(),
{
    if es.len() == 0 {
        Seq::<Seq<char>>::empty()
    } else {
        let r = entries_lines(es.drop_last(), key);
        if dir_key(es.last().0) == key {
            r + file_rules(es.last().1)
        } else {
            r
        }
    }
}

proof fn lemma_group_lines_entries(
    ps: Seq<int>,
    srcs: Seq<SourceSpec>,
    texts: Seq<Option<Seq<char>>>,
    key: Seq<Seq<char>>,
)
    ensures
        group_lines(ps, srcs, texts, key) == entries_lines(entries_at(ps, srcs, texts), key),
    decreases ps.len(),
{
    if ps.len() > 0 {
        lemma_group_lines_entries(ps.drop_last(), srcs, texts, key);
        let es = entries_at(ps, srcs, texts);
        assert(es.drop_last() =~= entries_at(ps.drop_last(), srcs, texts));
        assert(es.last() == source_entry(srcs, texts, ps.last()));
    }
}

proof fn lemma_sorted_entries_unique(
    a: Seq<(SourceSpec, Option<Seq<char>>)>,
    b: Seq<(SourceSpec, Option<Seq<char>>)>,
)
    requires
        a.len() == b.len(),
        forall|i: int, j: int| 0 <= i < j < a.len() ==> (#[trigger] a[i]).0.order < (#[trigger] a[j]).0.order,
        forall|i: int, j: int| 0 <= i < j < b.len() ==> (#[trigger] b[i]).0.order < (#[trigger] b[j]).0.order,
        forall|i: int| 0 <= i < a.len() ==> b.contains(#[trigger] a[i]),
        forall|i: int| 0 <= i < b.len() ==> a.contains(#[trigger] b[i]),
    ensures
        a == b,
    decreases a.len(),
{
    if a.len() > 0 {
        let j = choose|j: int| 0 <= j < b.len() && b[j] == a[0];
        let i = choose|i: int| 0 <= i < a.len() && a[i] == b[0];
        if j > 0 {
            assert(b[0].0.order < b[j].0.order);
            if i > 0 {
                assert(a[0].0.order < a[i].0.order);
            }
            assert(false);
        }
        let a2 = a.drop_first();
        let b2 = b.drop_first();
        assert forall|k: int| 0 <= k < a2.len() implies b2.contains(#[trigger] a2[k]) by {
            assert(a2[k] == a[k + 1]);
            assert(a[0].0.order < a[k + 1].0.order);
            let h = choose|h: int| 0 <= h < b.len() && b[h] == a[k + 1];
            assert(h != 0);
            assert(b2[h - 1] == b[h]);
        }
        assert forall|k: int| 0 <= k < b2.len() implies a2.contains(#[trigger] b2[k]) by {
            assert(b2[k] == b[k + 1]);
            assert(b[0].0.order < b[k + 1].0.order);
            let h = choose|h: int| 0 <= h < a.len() && a[h] == b[k + 1];
            assert(h != 0);
            assert(a2[h - 1] == a[h]);
        }
        assert forall|x: int, y: int| 0 <= x < y < a2.len() implies (#[trigger] a2[x]).0.order < (#[trigger] a2[y]).0.order by {
            assert(a2[x] == a[x + 1] && a2[y] == a[y + 1]);
        }
        assert forall|x: int, y: int| 0 <= x < y < b2.len() implies (#[trigger] b2[x]).0.order < (#[trigger] b2[y]).0.order by {
            assert(b2[x] == b[x + 1] && b2[y] == b[y + 1]);
        }
        lemma_sorted_entries_unique(a2, b2);
        assert(a =~= seq![a[0]] + a2);
        assert(b =~= seq![b[0]] + b2);
    }
}

/// The sources in stable order, each with its text, strictly increasing in
/// order when the orders are distinct, and containing every source.
proof fn lemma_sorted_entries(srcs: Seq<SourceSpec>, texts: Seq<Option<Seq<char>>>)
    requires
        forall|i: int, j: int| 0 <= i < j < srcs.len() ==> (#[trigger] srcs[i]).order != (#[trigger] srcs[j]).order,
    ensures
        ({
            let ps = sorted_positions(source_orders(srcs), srcs.len());
            let es = entries_at(ps, srcs, texts);
            &&& es.len() == srcs.len()
            &&& forall|i: int, j: int| 0 <= i < j < es.len() ==> (#[trigger] es[i]).0.order < (#[trigger] es[j]).0.order
            &&& forall|q: int| 0 <= q < srcs.len() ==> es.contains(#[trigger] source_entry(srcs, texts, q))
            &&& forall|i: int| 0 <= i < es.len() ==> 0 <= ps[i] < srcs.len() && #[trigger] es[i] == source_entry(srcs, texts, ps[i])
        }),
{
    let orders = source_orders(srcs);
    let n = srcs.len();
    let s = sorted_positions(orders, n);
    law_stable_order(orders, n);
    lemma_sorted_positions_cover(orders, n);
    let es = entries_at(s, srcs, texts);
    assert forall|i: int, j: int| 0 <= i < j < es.len() implies (#[trigger] es[i]).0.order < (#[trigger] es[j]).0.order by {
        assert(stably_before(orders, s[i], s[j]));
        assert(s[i] != s[j]);
        assert(orders[s[i]] == srcs[s[i]].order);
        assert(orders[s[j]] == srcs[s[j]].order);
        if s[i] < s[j] {
            assert(srcs[s[i]].order != srcs[s[j]].order);
        } else {
            assert(srcs[s[j]].order != srcs[s[i]].order);
        }
    }
    assert forall|q: int| 0 <= q < n implies es.contains(#[trigger] source_entry(srcs, texts, q)) by {
        assert(s.contains(q));
        let k = choose|k: int| 0 <= k < s.len() && s[k] == q;
        assert(es[k] == source_entry(srcs, texts, q));
    }
    assert forall|i: int| 0 <= i < es.len() implies 0 <= s[i] < n && #[trigger] es[i] == source_entry(srcs, texts, s[i]) by {
        assert(0 <= s[i] < n);
    }
}

/// The position of a source in the given list does not matter: two lists
/// of the same length in which every source (with its text) of each one is
/// among the sources of the other, with pairwise distinct orders, compile
/// the same rules, and so decide every path the same way. (See
/// `law_permuted_sources_change_nothing` for the same law stated over a
/// permutation.)
pub proof fn law_reordering_changes_nothing(
    srcs: Seq<SourceSpec>,
    texts: Seq<Option<Seq<char>>>,
    srcs2: Seq<SourceSpec>,
    texts2: Seq<Option<Seq<char>>>,
    root: Seq<char>,
)
    requires
        texts.len() == srcs.len(),
        texts2.len() == srcs2.len(),
        srcs2.len() == srcs.len(),
        forall|i: int, j: int| 0 <= i < j < srcs.len() ==> (#[trigger] srcs[i]).order != (#[trigger] srcs[j]).order,
        forall|i: int, j: int| 0 <= i < j < srcs2.len() ==> (#[trigger] srcs2[i]).order != (#[trigger] srcs2[j]).order,
        forall|i: int| 0 <= i < srcs2.len() ==> entries_of(srcs, texts).contains(#[trigger] source_entry(srcs2, texts2, i)),
        forall|j: int| 0 <= j < srcs.len() ==> entries_of(srcs2, texts2).contains(#[trigger] source_entry(srcs, texts, j)),
    ensures
        built_rules(srcs, texts) == built_rules(srcs2, texts2),
        forall|rel: Seq<char>, is_dir: bool|
            #[trigger] decision(MatcherSpec { sources: srcs, root, rules: built_rules(srcs, texts) }, rel, is_dir)
                == decision(MatcherSpec { sources: srcs2, root, rules: built_rules(srcs2, texts2) }, rel, is_dir),
{
    let n = srcs.len();
    lemma_sorted_entries(srcs, texts);
    lemma_sorted_entries(srcs2, texts2);
    let s1 = sorted_positions(source_orders(srcs), n);
    let s2 = sorted_positions(source_orders(srcs2), n);
    let a = entries_at(s1, srcs, texts);
    let b = entries_at(s2, srcs2, texts2);
    let e1 = entries_of(srcs, texts);
    let e2 = entries_of(srcs2, texts2);
    assert forall|i: int| 0 <= i < a.len() implies b.contains(#[trigger] a[i]) by {
        let q = s1[i];
        assert(a[i] == source_entry(srcs, texts, q));
        assert(e2.contains(source_entry(srcs, texts, q)));
        let i2 = choose|i2: int| 0 <= i2 < e2.len() && e2[i2] == source_entry(srcs, texts, q);
        assert(e2[i2] == source_entry(srcs2, texts2, i2));
        assert(b.contains(source_entry(srcs2, texts2, i2)));
    }
    assert forall|i: int| 0 <= i < b.len() implies a.contains(#[trigger] b[i]) by {
        let q = s2[i];
        assert(b[i] == source_entry(srcs2, texts2, q));
        assert(e1.contains(source_entry(srcs2, texts2, q)));
        let j = choose|j: int| 0 <= j < e1.len() && e1[j] == source_entry(srcs2, texts2, q);
        assert(e1[j] == source_entry(srcs, texts, j));
        assert(a.contains(source_entry(srcs, texts, j)));
    }
    lemma_sorted_entries_unique(a, b);
    let r1 = built_rules(srcs, texts);
    let r2 = built_rules(srcs2, texts2);
    assert forall|k: Seq<Seq<char>>| #[trigger] r1.contains_key(k) <==> r2.contains_key(k) by {
        if r1.contains_key(k) {
            let j = choose|j: int| 0 <= j < n && dir_key(srcs[j]) == k;
            assert(e2.contains(source_entry(srcs, texts, j)));
            let i = choose|i: int| 0 <= i < e2.len() && e2[i] == source_entry(srcs, texts, j);
            assert(e2[i] == source_entry(srcs2, texts2, i));
            assert(dir_key(srcs2[i]) == k);
        }
        if r2.contains_key(k) {
            let i = choose|i: int| 0 <= i < n && dir_key(srcs2[i]) == k;
            assert(e1.contains(source_entry(srcs2, texts2, i)));
            let j = choose|j: int| 0 <= j < e1.len() && e1[j] == source_entry(srcs2, texts2, i);
            assert(e1[j] == source_entry(srcs, texts, j));
            assert(dir_key(srcs[j]) == k);
        }
    }
    assert forall|k: Seq<Seq<char>>| #[trigger] r1.contains_key(k) implies r1[k] == r2[k] by {
        lemma_group_lines_entries(s1, srcs, texts, k);
        lemma_group_lines_entries(s2, srcs2, texts2, k);
    }
    assert(r1 =~= r2);
    assert forall|rel: Seq<char>, is_dir: bool|
        #[trigger] decision(MatcherSpec { sources: srcs, root, rules: r1 }, rel, is_dir)
            == decision(MatcherSpec { sources: srcs2, root, rules: r2 }, rel, is_dir) by {
        let m1 = MatcherSpec { sources: srcs, root, rules: r1 };
        let m2 = MatcherSpec { sources: srcs2, root, rules: r2 };
        assert(verdict_chain(m1, rel, is_dir) =~= verdict_chain(m2, rel, is_dir));
    }
}

/// The sequence `s` reordered by `perm`: its element `perm[i]` at `i`.
pub open spec fn permuted<A>(s: Seq<A>, perm: Seq<int>) -> Seq<A> {
    perm.map_values(|i: int| s[i])
}

/// Reordering the sources (each with its text) by any permutation changes
/// nothing when their orders are pairwise distinct: the same rules are
/// compiled, and every path is decided the same way.
pub proof fn law_permuted_sources_change_nothing(
    srcs: Seq<SourceSpec>,
    texts: Seq<Option<Seq<char>>>,
    perm: Seq<int>,
    root: Seq<char>,
)
    requires
        texts.len() == srcs.len(),
        perm.len() == srcs.len(),
        forall|i: int| 0 <= i < perm.len() ==> 0 <= #[trigger] perm[i] < srcs.len(),
        perm.no_duplicates(),
        forall|i: int, j: int| 0 <= i < j < srcs.len() ==> (#[trigger] srcs[i]).order != (#[trigger] srcs[j]).order,
    ensures
        built_rules(srcs, texts) == built_rules(permuted(srcs, perm), permuted(texts, perm)),
        forall|rel: Seq<char>, is_dir: bool|
            #[trigger] decision(MatcherSpec { sources: srcs, root, rules: built_rules(srcs, texts) }, rel, is_dir)
                == decision(
                MatcherSpec {
                    sources: permuted(srcs, perm),
                    root,
                    rules: built_rules(permuted(srcs, perm), permuted(texts, perm)),
                },
                rel,
                is_dir,
            ),
{
    broadcast use vstd::seq_lib::seq_to_set_is_finite;
    let n = srcs.len();
    let srcs2 = permuted(srcs, perm);
    let texts2 = permuted(texts, perm);
    assert forall|i: int, j: int| 0 <= i < j < srcs2.len() implies (#[trigger] srcs2[i]).order
        != (#[trigger] srcs2[j]).order by {
        assert(perm[i] != perm[j]);
        if perm[i] < perm[j] {
            assert(srcs[perm[i]].order != srcs[perm[j]].order);
        } else {
            assert(srcs[perm[j]].order != srcs[perm[i]].order);
        }
    }
    let e1 = entries_of(srcs, texts);
    let e2 = entries_of(srcs2, texts2);
    assert forall|i: int| 0 <= i < srcs2.len() implies e1.contains(#[trigger] source_entry(srcs2, texts2, i)) by {
        let j = perm[i];
        assert(0 <= j < srcs.len());
        assert(srcs2[i] == srcs[j] && texts2[i] == texts[j]);
        assert(e1[j] == source_entry(srcs, texts, j));
    }
    perm.unique_seq_to_set();
    lemma_int_range(0, n as int);
    assert(perm.to_set().subset_of(set_int_range(0, n as int)));
    lemma_subset_equality(perm.to_set(), set_int_range(0, n as int));
    assert forall|j: int| 0 <= j < srcs.len() implies e2.contains(#[trigger] source_entry(srcs, texts, j)) by {
        assert(set_int_range(0, n as int).contains(j));
        assert(perm.to_set().contains(j));
        let i = choose|i: int| 0 <= i < perm.len() && perm[i] == j;
        assert(srcs2[i] == srcs[j] && texts2[i] == texts[j]);
        assert(e2[i] == source_entry(srcs, texts, j));
    }
    law_reordering_changes_nothing(srcs, texts, srcs2, texts2, root);
}

proof fn lemma_resolve_first_decides(vs: Seq<RuleMatch>)
    requires
        vs.len() >= 1,
        forall|e: int| 1 <= e < vs.len() ==> #[trigger] vs[e] == RuleMatch::Unmatched,
    ensures
        resolve(vs) == (vs[0] == RuleMatch::Ignore),
    decreases vs.len(),
{
    if vs.len() > 1 {
        let t = vs.drop_last();
        assert forall|e: int| 1 <= e < t.len() implies #[trigger] t[e] == RuleMatch::Unmatched by {
            assert(t[e] == vs[e]);
        }
        lemma_resolve_first_decides(t);
        assert(t[0] == vs[0]);
        assert(vs.last() == vs[vs.len() - 1]);
        assert(vs[vs.len() - 1] == RuleMatch::Unmatched);
    } else {
        assert(vs.drop_last().len() == 0);
        assert(!resolve(vs.drop_last()));
        assert(vs.last() == vs[0]);
    }
}

/// The global ignore files (those of no directory) judge the path exactly
/// as the caller gives it: the whole path, relative to the project root,
/// with the caller's `is_dir`. When no directory has rules of its own, the
/// path is ignored exactly when there are global rules and their verdict
/// on that path is to ignore it.
pub proof fn law_global_rules_judge_the_whole_path(m: MatcherSpec, rel: Seq<char>, is_dir: bool)
    requires
        forall|k: Seq<Seq<char>>|
            #[trigger] m.rules.contains_key(k) && k.len() > 0 ==> kept_rules(m.rules[k]).len() == 0,
    ensures
        decision(m, rel, is_dir) == ({
            let g = Seq::<Seq<char>>::empty();
            &&& m.rules.contains_key(g)
            &&& kept_rules(m.rules[g]).len() > 0
            &&& gitignore_verdict(stored_root(m.root), kept_rules(m.rules[g]), rel, is_dir) == RuleMatch::Ignore
        }),
{
    let comps = path_components(path_join(m.root, rel));
    let chain = verdict_chain(m, rel, is_dir);
    assert(comps.take(0) =~= Seq::<Seq<char>>::empty());
    assert forall|e: int| 1 <= e < chain.len() implies #[trigger] chain[e] == RuleMatch::Unmatched by {
        let key = comps.take(e);
        assert(key.len() == e);
        if m.rules.contains_key(key) {
            assert(kept_rules(m.rules[key]).len() == 0);
        }
    }
    lemma_resolve_first_decides(chain);
}

proof fn lemma_resolve_single(vs: Seq<RuleMatch>, p: int)
    requires
        0 <= p < vs.len(),
        forall|e: int| 0 <= e < vs.len() && e != p ==> #[trigger] vs[e] == RuleMatch::Unmatched,
    ensures
        resolve(vs) == (vs[p] == RuleMatch::Ignore),
    decreases vs.len(),
{
    let t = vs.drop_last();
    assert(vs.last() == vs[vs.len() - 1]);
    if p < vs.len() - 1 {
        assert forall|e: int| 0 <= e < t.len() && e != p implies #[trigger] t[e] == RuleMatch::Unmatched by {
            assert(t[e] == vs[e]);
        }
        lemma_resolve_single(t, p);
        assert(t[p] == vs[p]);
    } else {
        assert forall|e: int| 0 <= e < t.len() implies #[trigger] t[e] == RuleMatch::Unmatched by {
            assert(t[e] == vs[e]);
        }
        lemma_resolve_no_match(t);
    }
}

/// The rules of a directory judge the rest of the path below that
/// directory (its components after the directory's, joined by `/`), with
/// the caller's `is_dir`, and anchored at the directory itself: when the
/// directory is the only one with rules and it strictly contains the path,
/// the path is ignored exactly when that verdict is to ignore it.
pub proof fn law_directory_rules_judge_the_rest_of_the_path(
    m: MatcherSpec,
    k: Seq<Seq<char>>,
    rel: Seq<char>,
    is_dir: bool,
)
    requires
        k.len() > 0,
        m.rules.contains_key(k),
        kept_rules(m.rules[k]).len() > 0,
        forall|j: Seq<Seq<char>>| #[trigger] m.rules.contains_key(j) && j != k ==> kept_rules(m.rules[j]).len() == 0,
        k.is_prefix_of(path_components(path_join(m.root, rel))),
        k.len() < path_components(path_join(m.root, rel)).len(),
    ensures
        decision(m, rel, is_dir) == (gitignore_verdict(
            seq!['.'],
            kept_rules(m.rules[k]),
            join_components(path_components(path_join(m.root, rel)).skip(k.len() as int)),
            is_dir,
        ) == RuleMatch::Ignore),
{
    let comps = path_components(path_join(m.root, rel));
    let chain = verdict_chain(m, rel, is_dir);
    let p = k.len() as int;
    assert(comps.take(p) =~= k);
    assert forall|e: int| 0 <= e < chain.len() && e != p implies #[trigger] chain[e] == RuleMatch::Unmatched by {
        let key = comps.take(e);
        assert(key.len() == e);
        if m.rules.contains_key(key) {
            assert(key != k);
            assert(kept_rules(m.rules[key]).len() == 0);
        }
    }
    lemma_resolve_single(chain, p);
}

} // verus!
