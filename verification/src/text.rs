//! Character-level text handling: splitting at a separator, Unicode
//! whitespace trimming, and the line structure of a text file.
use vstd::prelude::*;
use vstd::string::*;
use vstd::std_specs::iter::IteratorSpec;

verus! {

broadcast use vstd::string::group_string_axioms;

/// The character views of a sequence of strings.
pub open spec fn views(v: Seq<String>) -> Seq<Seq<char>> {
    v.map_values(|s: String| s@)
}

/// The pieces of `s` between occurrences of `sep`, in order; empty pieces
/// are kept, so there is always one piece more than there are separators.
pub open spec fn split_on(s: Seq<char>, sep: char) -> Seq<Seq<char>>
    decreases s.len(),
{
    if s.len() == 0 {
        seq![Seq::<char>::empty()]
    } else {
        let r = split_on(s.drop_last(), sep);
        if s.last() == sep {
            r.push(Seq::<char>::empty())
        } else {
            r.update(r.len() - 1, r.last().push(s.last()))
        }
    }
}

/// A split always has at least one piece.
pub proof fn lemma_split_on_nonempty(s: Seq<char>, sep: char)
    ensures
        split_on(s, sep).len() >= 1,
    decreases s.len(),
{
    if s.len() > 0 {
        lemma_split_on_nonempty(s.drop_last(), sep);
    }
}

/// Whether `c` has the Unicode `White_Space` property.
pub open spec fn is_white_space(c: char) -> bool {
    ||| '\u{9}' <= c && c <= '\u{d}'
    ||| c == ' '
    ||| c == '\u{85}'
    ||| c == '\u{a0}'
    ||| c == '\u{1680}'
    ||| '\u{2000}' <= c && c <= '\u{200a}'
    ||| c == '\u{2028}'
    ||| c == '\u{2029}'
    ||| c == '\u{202f}'
    ||| c == '\u{205f}'
    ||| c == '\u{3000}'
}

/// `s` without its leading white space.
pub open spec fn trim_start(s: Seq<char>) -> Seq<char>
    decreases s.len(),
{
    if s.len() > 0 && is_white_space(s[0]) {
        trim_start(s.drop_first())
    } else {
        s
    }
}

/// `s` without its trailing white space.
pub open spec fn trim_end(s: Seq<char>) -> Seq<char>
    decreases s.len(),
{
    if s.len() > 0 && is_white_space(s.last()) {
        trim_end(s.drop_last())
    } else {
        s
    }
}

/// `s` without leading and trailing white space.
pub open spec fn trim(s: Seq<char>) -> Seq<char> {
    trim_end(trim_start(s))
}

/// Whether a character sequence starts with the character `c`.
pub open spec fn starts_with_char(s: Seq<char>, c: char) -> bool {
    s.len() > 0 && s[0] == c
}

/// Whether a character sequence ends with the character `c`.
pub open spec fn ends_with_char(s: Seq<char>, c: char) -> bool {
    s.len() > 0 && s.last() == c
}

/// `s` without one trailing `c`, if it ends with one.
pub open spec fn strip_last_char(s: Seq<char>, c: char) -> Seq<char> {
    if ends_with_char(s, c) {
        s.drop_last()
    } else {
        s
    }
}

/// `s` without all its leading occurrences of `c`.
pub open spec fn strip_leading(s: Seq<char>, c: char) -> Seq<char>
    decreases s.len(),
{
    if starts_with_char(s, c) {
        strip_leading(s.drop_first(), c)
    } else {
        s
    }
}

/// The lines of a text, as a buffered reader yields them: the text is cut
/// at each `'\n'`, which is not part of the line, nor is a `'\r'` just
/// before it; a last piece with no line break after it is a line as it
/// stands, unless it is empty.
pub open spec fn text_lines(t: Seq<char>) -> Seq<Seq<char>> {
    let pieces = split_on(t, '\n');
    let body = pieces.drop_last().map_values(|l: Seq<char>| strip_last_char(l, '\r'));
    if pieces.last().len() == 0 {
        body
    } else {
        body.push(pieces.last())
    }
}

/// The characters of a string slice, in order.
pub fn chars_of(s: &str) -> (r: Vec<char>)
    ensures
        r@ == s@,
{
    let mut out: Vec<char> = Vec::new();
    let mut it = s.chars();
    let ghost n = s@.len();
    loop
        invariant_except_break
            it.remaining() == s@.skip(out@.len() as int),
            out@ == s@.take(out@.len() as int),
            out@.len() <= n,
            n == s@.len(),
        ensures
            out@ == s@,
        decreases n - out@.len(),
    {
        let ghost before = it.remaining();
        match it.next() {
            Some(c) => {
                proof {
                    assert(before.len() > 0);
                    assert(s@.take(out@.len() as int).push(c) =~= s@.take(out@.len() as int + 1));
                    assert(s@.skip(out@.len() as int).drop_first() =~= s@.skip(out@.len() as int + 1));
                }
                out.push(c);
            },
            None => {
                proof {
                    assert(before.len() == 0);
                    assert(out@ =~= s@);
                }
                break ;
            },
        }
    }
    out
}

/// Calls `String::push`. Claimed: the string gains `c` at its end and is
/// otherwise unchanged.
#[verifier::external_body]
fn push_char(s: &mut String, c: char)
    ensures
        final(s)@ == old(s)@.push(c),
{
    s.push(c);
}

/// The string made of the characters `cs[from..to]`.
pub fn string_from_range(cs: &Vec<char>, from: usize, to: usize) -> (r: String)
    requires
        from <= to <= cs@.len(),
    ensures
        r@ == cs@.subrange(from as int, to as int),
{
    let mut out = String::new();
    let mut i = from;
    while i < to
        invariant
            from <= i <= to <= cs@.len(),
            out@ == cs@.subrange(from as int, i as int),
        decreases to - i,
    {
        push_char(&mut out, cs[i]);
        proof {
            assert(cs@.subrange(from as int, i as int).push(cs@[i as int]) =~= cs@.subrange(
                from as int,
                i + 1,
            ));
        }
        i = i + 1;
    }
    out
}

/// The pieces of a character sequence between occurrences of `sep`.
pub fn split_chars(cs: &Vec<char>, sep: char) -> (r: Vec<String>)
    ensures
        views(r@) == split_on(cs@, sep),
{
    let mut pieces: Vec<String> = Vec::new();
    let mut start: usize = 0;
    let mut i: usize = 0;
    let n = cs.len();
    proof {
        assert(cs@.take(0) =~= Seq::<char>::empty());
        assert(views(pieces@).push(cs@.subrange(0, 0)) =~= seq![Seq::<char>::empty()]);
    }
    while i < n
        invariant
            n == cs@.len(),
            start <= i <= n,
            views(pieces@).push(cs@.subrange(start as int, i as int)) == split_on(
                cs@.take(i as int),
                sep,
            ),
        decreases n - i,
    {
        let ghost prev = cs@.take(i as int);
        proof {
            assert(cs@.take(i + 1).drop_last() =~= prev);
            assert(cs@.take(i + 1).last() == cs@[i as int]);
            lemma_split_on_nonempty(prev, sep);
        }
        if cs[i] == sep {
            let piece = string_from_range(cs, start, i);
            pieces.push(piece);
            start = i + 1;
            proof {
                assert(views(pieces@) =~= split_on(prev, sep));
                assert(cs@.subrange(start as int, i + 1) =~= Seq::<char>::empty());
            }
        } else {
            proof {
                assert(cs@.subrange(start as int, i as int).push(cs@[i as int]) =~= cs@.subrange(
                    start as int,
                    i + 1,
                ));
            }
        }
        i = i + 1;
    }
    let last = string_from_range(cs, start, n);
    pieces.push(last);
    proof {
        assert(cs@.take(n as int) =~= cs@);
        assert(views(pieces@) =~= views(pieces@.drop_last()).push(last@));
    }
    pieces
}

/// The pieces of a string between occurrences of `sep`.
pub fn split_str(s: &str, sep: char) -> (r: Vec<String>)
    ensures
        views(r@) == split_on(s@, sep),
{
    let cs = chars_of(s);
    split_chars(&cs, sep)
}

/// Whether `c` has the Unicode `White_Space` property.
pub fn char_is_white_space(c: char) -> (r: bool)
    ensures
        r == is_white_space(c),
{
    ('\u{9}' <= c && c <= '\u{d}') || c == ' ' || c == '\u{85}' || c == '\u{a0}' || c
        == '\u{1680}' || ('\u{2000}' <= c && c <= '\u{200a}') || c == '\u{2028}' || c
        == '\u{2029}' || c == '\u{202f}' || c == '\u{205f}' || c == '\u{3000}'
}

proof fn lemma_trim_start_skip(s: Seq<char>, a: int)
    requires
        0 <= a <= s.len(),
        forall|k: int| 0 <= k < a ==> is_white_space(#[trigger] s[k]),
        a == s.len() || !is_white_space(s[a]),
    ensures
        trim_start(s) == s.skip(a),
    decreases a,
{
    if a == 0 {
        assert(s.skip(0) =~= s);
    } else {
        let t = s.drop_first();
        assert forall|k: int| 0 <= k < a - 1 implies is_white_space(#[trigger] t[k]) by {
            assert(t[k] == s[k + 1]);
        }
        lemma_trim_start_skip(t, a - 1);
        assert(t.skip(a - 1) =~= s.skip(a));
    }
}

proof fn lemma_trim_end_take(s: Seq<char>, b: int)
    requires
        0 <= b <= s.len(),
        forall|k: int| b <= k < s.len() ==> is_white_space(#[trigger] s[k]),
        b == 0 || !is_white_space(s[b - 1]),
    ensures
        trim_end(s) == s.take(b),
    decreases s.len() - b,
{
    if b == s.len() {
        assert(s.take(b) =~= s);
    } else {
        let t = s.drop_last();
        lemma_trim_end_take(t, b);
        assert(t.take(b) =~= s.take(b));
    }
}

/// A string slice with leading and trailing white space removed.
pub fn trim_str(s: &str) -> (r: String)
    ensures
        r@ == trim(s@),
{
    let cs = chars_of(s);
    let n = cs.len();
    let mut a: usize = 0;
    while a < n && char_is_white_space(cs[a])
        invariant
            n == cs@.len(),
            a <= n,
            forall|k: int| 0 <= k < a ==> is_white_space(#[trigger] cs@[k]),
        decreases n - a,
    {
        a = a + 1;
    }
    let mut b: usize = n;
    while b > a && char_is_white_space(cs[b - 1])
        invariant
            n == cs@.len(),
            a <= b <= n,
            forall|k: int| b <= k < n ==> is_white_space(#[trigger] cs@[k]),
        decreases b,
    {
        b = b - 1;
    }
    proof {
        lemma_trim_start_skip(cs@, a as int);
        let t = cs@.skip(a as int);
        assert forall|k: int| (b - a) as int <= k < t.len() implies is_white_space(#[trigger] t[k]) by {
            assert(t[k] == cs@[k + a]);
        }
        if b > a {
            assert(t[b - a - 1] == cs@[b - 1]);
        }
        lemma_trim_end_take(t, (b - a) as int);
        assert(t.take((b - a) as int) =~= cs@.subrange(a as int, b as int));
    }
    string_from_range(&cs, a, b)
}

proof fn lemma_strip_leading_skip(s: Seq<char>, c: char, a: int)
    requires
        0 <= a <= s.len(),
        forall|k: int| 0 <= k < a ==> #[trigger] s[k] == c,
        a == s.len() || s[a] != c,
    ensures
        strip_leading(s, c) == s.skip(a),
    decreases a,
{
    if a == 0 {
        assert(s.skip(0) =~= s);
    } else {
        let t = s.drop_first();
        assert forall|k: int| 0 <= k < a - 1 implies #[trigger] t[k] == c by {
            assert(t[k] == s[k + 1]);
        }
        lemma_strip_leading_skip(t, c, a - 1);
        assert(t.skip(a - 1) =~= s.skip(a));
    }
}

/// A string without all its leading occurrences of `c`.
pub fn strip_leading_str(s: &str, c: char) -> (r: String)
    ensures
        r@ == strip_leading(s@, c),
{
    let cs = chars_of(s);
    let n = cs.len();
    let mut a: usize = 0;
    while a < n && cs[a] == c
        invariant
            n == cs@.len(),
            a <= n,
            forall|k: int| 0 <= k < a ==> #[trigger] cs@[k] == c,
        decreases n - a,
    {
        a = a + 1;
    }
    proof {
        lemma_strip_leading_skip(cs@, c, a as int);
        assert(cs@.skip(a as int) =~= cs@.subrange(a as int, n as int));
    }
    string_from_range(&cs, a, n)
}

/// A string without one trailing `c`, if it ends with one.
pub fn strip_last_char_str(s: &str, c: char) -> (r: String)
    ensures
        r@ == strip_last_char(s@, c),
{
    let cs = chars_of(s);
    let n = cs.len();
    if n > 0 && cs[n - 1] == c {
        proof {
            assert(cs@.drop_last() =~= cs@.subrange(0, n - 1));
        }
        string_from_range(&cs, 0, n - 1)
    } else {
        proof {
            assert(cs@ =~= cs@.subrange(0, n as int));
        }
        string_from_range(&cs, 0, n)
    }
}

/// The lines of a text (see `text_lines`).
pub fn lines_of(t: &str) -> (r: Vec<String>)
    ensures
        views(r@) == text_lines(t@),
{
    let pieces = split_str(t, '\n');
    let ghost ps = split_on(t@, '\n');
    proof {
        lemma_split_on_nonempty(t@, '\n');
    }
    let np = pieces.len();
    let mut out: Vec<String> = Vec::new();
    let mut i: usize = 0;
    while i + 1 < np
        invariant
            np == pieces@.len() == ps.len(),
            np >= 1,
            views(pieces@) == ps,
            i <= np - 1,
            out@.len() == i,
            forall|k: int|
                0 <= k < i ==> #[trigger] out@[k]@ == strip_last_char(ps[k], '\r'),
        decreases np - i,
    {
        assert(pieces@[i as int]@ == ps[i as int]);
        let line = strip_last_char_str(pieces[i].as_str(), '\r');
        out.push(line);
        i = i + 1;
    }
    let ghost body = ps.drop_last().map_values(|l: Seq<char>| strip_last_char(l, '\r'));
    proof {
        assert(views(out@) =~= body);
        assert(pieces@[np - 1]@ == ps.last());
    }
    if !pieces[np - 1].as_str().is_empty() {
        out.push(pieces[np - 1].clone());
        proof {
            assert(views(out@) =~= body.push(ps.last()));
        }
    }
    out
}

} // verus!
