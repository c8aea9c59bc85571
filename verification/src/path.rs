//! Paths as strings, with the component semantics of Unix paths: `/`
//! separates components, repeated separators and a trailing separator do
//! not count, `.` is dropped except at the very start of a relative path,
//! and a leading `/` is the root component.
use vstd::prelude::*;
use vstd::string::*;
use crate::text::{views, split_on, split_str, lemma_split_on_nonempty, starts_with_char, ends_with_char, chars_of};

verus! {

broadcast use vstd::string::group_string_axioms;

/// A piece between separators that names a real path component.
pub open spec fn is_normal_component(p: Seq<char>) -> bool {
    p.len() > 0 && p != seq!['.']
}

/// The normal components among the pieces of a path, in order.
pub open spec fn normals(ps: Seq<Seq<char>>) -> Seq<Seq<char>>
    decreases ps.len(),
{
    if ps.len() == 0 {
        ps
    } else {
        let r = normals(ps.drop_last());
        if is_normal_component(ps.last()) {
            r.push(ps.last())
        } else {
            r
        }
    }
}

/// The components of a path. The root is the component `/`, a leading
/// `.` of a relative path is the component `.`.
pub open spec fn path_components(s: Seq<char>) -> Seq<Seq<char>> {
    let ps = split_on(s, '/');
    let lead = if starts_with_char(s, '/') {
        seq![seq!['/']]
    } else if ps[0] == seq!['.'] {
        seq![seq!['.']]
    } else {
        Seq::<Seq<char>>::empty()
    };
    lead + normals(ps)
}

/// Two paths are the same path when their components are equal.
pub open spec fn same_path(a: Seq<char>, b: Seq<char>) -> bool {
    path_components(a) == path_components(b)
}

/// A path is absolute when it begins with the root `/`.
pub open spec fn is_absolute(p: Seq<char>) -> bool {
    starts_with_char(p, '/')
}

/// `base` extended by `rel`: an absolute `rel` replaces `base`; otherwise
/// `rel` is appended, with a `/` between them unless `base` is empty or
/// already ends with one.
pub open spec fn path_join(base: Seq<char>, rel: Seq<char>) -> Seq<char> {
    if is_absolute(rel) {
        rel
    } else if base.len() == 0 || ends_with_char(base, '/') {
        base + rel
    } else {
        base + seq!['/'] + rel
    }
}

/// The components of a path, computed.
pub fn components(p: &str) -> (r: Vec<String>)
    ensures
        views(r@) == path_components(p@),
{
    let pieces = split_str(p, '/');
    let ghost ps = split_on(p@, '/');
    proof {
        lemma_split_on_nonempty(p@, '/');
        reveal_strlit("/");
        reveal_strlit(".");
        assert("/"@ =~= seq!['/']);
        assert("."@ =~= seq!['.']);
    }
    let cs = chars_of(p);
    let mut out: Vec<String> = Vec::new();
    let ghost lead: Seq<Seq<char>>;
    if cs.len() > 0 && cs[0] == '/' {
        out.push(String::from_str("/"));
        proof {
            lead = seq![seq!['/']];
        }
    } else {
        assert(pieces@[0]@ == ps[0]);
        if is_dot(pieces[0].as_str()) {
            out.push(String::from_str("."));
            proof {
                lead = seq![seq!['.']];
            }
        } else {
            proof {
                lead = Seq::<Seq<char>>::empty();
            }
        }
    }
    proof {
        assert(views(out@) =~= lead);
        assert(ps.take(0) =~= Seq::<Seq<char>>::empty());
        assert(lead + normals(ps.take(0)) =~= lead);
        assert(path_components(p@) == lead + normals(ps));
    }
    let n = pieces.len();
    let mut i: usize = 0;
    while i < n
        invariant
            n == pieces@.len() == ps.len(),
            views(pieces@) == ps,
            i <= n,
            views(out@) == lead + normals(ps.take(i as int)),
        decreases n - i,
    {
        let ghost before = views(out@);
        proof {
            assert(ps.take(i + 1).drop_last() =~= ps.take(i as int));
            assert(pieces@[i as int]@ == ps[i as int]);
        }
        if !pieces[i].as_str().is_empty() && !is_dot(pieces[i].as_str()) {
            out.push(pieces[i].clone());
            proof {
                assert(views(out@) =~= before.push(ps[i as int]));
            }
        }
        i = i + 1;
    }
    proof {
        assert(ps.take(n as int) =~= ps);
    }
    out
}

/// Whether a string is exactly `.`.
fn is_dot(s: &str) -> (r: bool)
    ensures
        r == (s@ == seq!['.']),
{
    let n = s.unicode_len();
    if n == 1 {
        let c = s.get_char(0);
        proof {
            if c == '.' {
                assert(s@ =~= seq!['.']);
            }
        }
        c == '.'
    } else {
        false
    }
}

/// Whether two string sequences are equal, element by element.
pub fn strings_equal(a: &Vec<String>, b: &Vec<String>) -> (r: bool)
    ensures
        r == (views(a@) == views(b@)),
{
    if a.len() != b.len() {
        proof {
            assert(views(a@).len() != views(b@).len());
        }
        return false;
    }
    let mut i: usize = 0;
    while i < a.len()
        invariant
            a@.len() == b@.len(),
            i <= a@.len(),
            forall|k: int| 0 <= k < i ==> a@[k]@ == b@[k]@,
        decreases a@.len() - i,
    {
        if a[i] != b[i] {
            proof {
                assert(views(a@)[i as int] != views(b@)[i as int]);
            }
            return false;
        }
        i = i + 1;
    }
    proof {
        assert(views(a@) =~= views(b@));
    }
    true
}

/// Whether the string sequence `pre` begins the string sequence `s`.
pub fn strings_prefix(pre: &Vec<String>, s: &Vec<String>) -> (r: bool)
    ensures
        r == views(pre@).is_prefix_of(views(s@)),
{
    if pre.len() > s.len() {
        return false;
    }
    let mut i: usize = 0;
    while i < pre.len()
        invariant
            pre@.len() <= s@.len(),
            i <= pre@.len(),
            forall|k: int| 0 <= k < i ==> pre@[k]@ == s@[k]@,
        decreases pre@.len() - i,
    {
        if pre[i] != s[i] {
            proof {
                assert(views(pre@)[i as int] != views(s@).subrange(0, pre@.len() as int)[i as int]);
            }
            return false;
        }
        i = i + 1;
    }
    proof {
        assert(views(pre@) =~= views(s@).subrange(0, pre@.len() as int));
    }
    true
}

/// Whether two paths are the same path.
pub fn paths_equal(a: &str, b: &str) -> (r: bool)
    ensures
        r == same_path(a@, b@),
{
    let ca = components(a);
    let cb = components(b);
    strings_equal(&ca, &cb)
}

/// Whether a path is absolute.
pub fn path_is_absolute(p: &str) -> (r: bool)
    ensures
        r == is_absolute(p@),
{
    if p.unicode_len() == 0 {
        false
    } else {
        p.get_char(0) == '/'
    }
}

/// `base` extended by `rel` (see `path_join`).
pub fn join(base: &str, rel: &str) -> (r: String)
    ensures
        r@ == path_join(base@, rel@),
{
    proof {
        reveal_strlit("/");
    }
    if path_is_absolute(rel) {
        return String::from_str(rel);
    }
    let n = base.unicode_len();
    let mut out = String::from_str(base);
    if n > 0 && base.get_char(n - 1) != '/' {
        out.append("/");
    }
    out.append(rel);
    out
}

proof fn lemma_split_first_piece(s: Seq<char>, sep: char)
    requires
        s.len() > 0,
        s[0] != sep,
    ensures
        split_on(s, sep).len() >= 1,
        split_on(s, sep)[0].len() > 0,
        split_on(s, sep)[0][0] == s[0],
    decreases s.len(),
{
    lemma_split_on_nonempty(s, sep);
    if s.len() == 1 {
        assert(s.drop_last() =~= Seq::<char>::empty());
    } else {
        let t = s.drop_last();
        assert(t[0] == s[0]);
        lemma_split_first_piece(t, sep);
    }
}

proof fn lemma_normals_nonempty(ps: Seq<Seq<char>>, i: int)
    requires
        0 <= i < ps.len(),
        is_normal_component(ps[i]),
    ensures
        normals(ps).len() > 0,
    decreases ps.len(),
{
    if i < ps.len() - 1 {
        assert(ps.drop_last()[i] == ps[i]);
        lemma_normals_nonempty(ps.drop_last(), i);
    }
}

/// A path written with at least one character has at least one component.
pub proof fn lemma_components_nonempty(s: Seq<char>)
    requires
        s.len() > 0,
    ensures
        path_components(s).len() > 0,
{
    let ps = split_on(s, '/');
    lemma_split_on_nonempty(s, '/');
    if !starts_with_char(s, '/') {
        lemma_split_first_piece(s, '/');
        if ps[0] != seq!['.'] {
            lemma_normals_nonempty(ps, 0);
        }
    }
}

} // verus!
