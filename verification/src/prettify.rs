//! Stripping the indentation and comment prefix off a table embedded in code
//! or prose, and putting it back after the table is re-rendered.

use vstd::prelude::*;
use vstd::string::*;
use crate::text;

verus! {

/// The indentation and comment prefix found on a block of table lines.
#[derive(Debug)]
pub struct PrettifyMeta {
    /// The widest indentation before the comment marker (a tab counts 2).
    pub pre_comment_spaces: usize,
    /// The comment marker of the first commented line.
    pub comment: Option<String>,
    /// The widest gap between the comment marker and the table.
    pub post_comment_spaces: usize,
}

/// A space or a tab.
pub open spec fn is_indent(c: char) -> bool {
    c == ' ' || c == '\t'
}

/// The number of leading spaces and tabs of `s`.
pub open spec fn indent_len(s: Seq<char>) -> nat
    decreases s.len(),
{
    if s.len() > 0 && is_indent(s[0]) {
        1 + indent_len(s.drop_first())
    } else {
        0
    }
}

/// The width of the leading spaces and tabs of `s`, a tab counting 2.
pub open spec fn indent_width(s: Seq<char>) -> nat
    decreases s.len(),
{
    if s.len() > 0 && is_indent(s[0]) {
        (if s[0] == '\t' {
            2nat
        } else {
            1nat
        }) + indent_width(s.drop_first())
    } else {
        0
    }
}

/// `n`, or `usize::MAX` when `n` does not fit.
pub open spec fn capped(n: nat) -> nat {
    if n <= usize::MAX {
        n
    } else {
        usize::MAX as nat
    }
}

/// `s` without its leading spaces and tabs.
pub open spec fn dedent(s: Seq<char>) -> Seq<char> {
    s.skip(indent_len(s) as int)
}

/// The comment markers, longest first where one is a prefix of another.
pub open spec fn comment_markers() -> Seq<Seq<char>> {
    seq![seq!['/', '/', '/'], seq!['/', '/'], seq!['#'], seq!['*']]
}

/// The first comment marker that `s` begins with.
pub open spec fn comment_of(s: Seq<char>) -> Option<Seq<char>> {
    if text::starts_with(s, comment_markers()[0]) {
        Some(comment_markers()[0])
    } else if text::starts_with(s, comment_markers()[1]) {
        Some(comment_markers()[1])
    } else if text::starts_with(s, comment_markers()[2]) {
        Some(comment_markers()[2])
    } else if text::starts_with(s, comment_markers()[3]) {
        Some(comment_markers()[3])
    } else {
        None
    }
}

/// The table content of a line: indentation, one comment marker and the
/// indentation after it removed.
pub open spec fn bare_of(l: Seq<char>) -> Seq<char> {
    let after = dedent(l);
    match comment_of(after) {
        Some(c) => dedent(after.skip(c.len() as int)),
        None => after,
    }
}

/// The width of the gap after a line's comment marker (0 without one).
pub open spec fn post_width(l: Seq<char>) -> nat {
    let after = dedent(l);
    match comment_of(after) {
        Some(c) => indent_width(after.skip(c.len() as int)),
        None => 0,
    }
}

/// The widest indentation over `ls`.
pub open spec fn max_pre(ls: Seq<Seq<char>>) -> nat
    decreases ls.len(),
{
    if ls.len() == 0 {
        0
    } else {
        let m = max_pre(ls.drop_last());
        let w = indent_width(ls.last());
        if w > m {
            w
        } else {
            m
        }
    }
}

/// The widest gap after a comment marker over `ls`.
pub open spec fn max_post(ls: Seq<Seq<char>>) -> nat
    decreases ls.len(),
{
    if ls.len() == 0 {
        0
    } else {
        let m = max_post(ls.drop_last());
        let w = post_width(ls.last());
        if w > m {
            w
        } else {
            m
        }
    }
}

/// The comment marker of the first commented line of `ls`.
pub open spec fn first_comment(ls: Seq<Seq<char>>) -> Option<Seq<char>>
    decreases ls.len(),
{
    if ls.len() == 0 {
        None
    } else {
        match first_comment(ls.drop_last()) {
            Some(c) => Some(c),
            None => comment_of(dedent(ls.last())),
        }
    }
}

/// Counts the leading spaces and tabs of `s`: their width (a tab counting 2,
/// capped at `usize::MAX`) and their number.
fn measure_leading_ws(s: &[char]) -> (r: (usize, usize))
    ensures
        r.0 == capped(indent_width(s@)),
        r.1 == indent_len(s@),
        r.1 <= s.len(),
{
    let mut width: usize = 0;
    let mut i: usize = 0;
    assert(s@.skip(0) =~= s@);
    while i < s.len() && (s[i] == '\t' || s[i] == ' ')
        invariant
            i <= s.len(),
            forall|j: int| 0 <= j < i ==> is_indent(#[trigger] s@[j]),
            indent_len(s@) == i + indent_len(s@.skip(i as int)),
            capped(indent_width(s@)) == capped((width + indent_width(s@.skip(i as int))) as nat),
            width <= usize::MAX,
        decreases s.len() - i,
    {
        assert(s@.skip(i as int).drop_first() =~= s@.skip(i + 1));
        if s[i] == '\t' {
            width = width.saturating_add(2);
        } else {
            width = width.saturating_add(1);
        }
        i = i + 1;
    }
    (width, i)
}

/// The comment marker that `s` begins with, as an index into `comment_markers`.
fn comment_index(s: &[char]) -> (r: Option<usize>)
    ensures
        r matches Some(k) ==> k < 4 && comment_of(s@) == Some(comment_markers()[k as int]),
        r is None ==> comment_of(s@) is None,
{
    let m0: [char; 3] = ['/', '/', '/'];
    let m1: [char; 2] = ['/', '/'];
    let m2: [char; 1] = ['#'];
    let m3: [char; 1] = ['*'];
    assert(m0@ == comment_markers()[0]);
    assert(m1@ == comment_markers()[1]);
    assert(m2@ == comment_markers()[2]);
    assert(m3@ == comment_markers()[3]);
    if text::has_prefix(s, &m0) {
        Some(0)
    } else if text::has_prefix(s, &m1) {
        Some(1)
    } else if text::has_prefix(s, &m2) {
        Some(2)
    } else if text::has_prefix(s, &m3) {
        Some(3)
    } else {
        None
    }
}

/// The length of comment marker `k`.
fn marker_len(k: usize) -> (n: usize)
    requires
        k < 4,
    ensures
        n == comment_markers()[k as int].len(),
{
    if k == 0 {
        3
    } else if k == 1 {
        2
    } else {
        1
    }
}

/// Comment marker `k` as a string.
fn marker_string(k: usize) -> (s: String)
    requires
        k < 4,
    ensures
        s@ == comment_markers()[k as int],
{
    let mut s = String::new();
    if k == 0 {
        s.push('/');
        s.push('/');
        s.push('/');
    } else if k == 1 {
        s.push('/');
        s.push('/');
    } else if k == 2 {
        s.push('#');
    } else {
        s.push('*');
    }
    assert(s@ =~= comment_markers()[k as int]);
    s
}

/// Where the table content of `v` starts: past the indentation, one comment
/// marker and the indentation after it. Also returns the indentation width
/// and, for a commented line, the marker and the width after it.
fn bare_start(v: &[char]) -> (r: (usize, usize, Option<usize>, usize))
    ensures
        r.0 <= v.len(),
        v@.skip(r.0 as int) == bare_of(v@),
        r.1 == capped(indent_width(v@)),
        r.2 matches Some(k) ==> k < 4 && comment_of(dedent(v@)) == Some(comment_markers()[k as int]),
        r.2 is None ==> comment_of(dedent(v@)) is None,
        r.3 == capped(post_width(v@)),
{
    let (pre, n) = measure_leading_ws(v);
    let after = &v[n..v.len()];
    assert(after@ == dedent(v@));
    match comment_index(after) {
        Some(k) => {
            let ml = marker_len(k);
            let rest = &after[ml..after.len()];
            assert(rest@ == dedent(v@).skip(ml as int));
            let (post, m) = measure_leading_ws(rest);
            assert(v@.skip((n + ml + m) as int) =~= rest@.skip(m as int));
            (n + ml + m, pre, Some(k), post)
        },
        None => {
            assert(v@.skip(n as int) =~= after@);
            (n, pre, None, 0)
        },
    }
}

/// The table content of `line` with indentation and comment marker removed.
pub fn bare_line(line: &str) -> (r: &str)
    ensures
        r@ == bare_of(line@),
        r@.len() <= line@.len(),
{
    let v = text::chars_of(line);
    let (a, _, _, _) = bare_start(v.as_slice());
    line.substring_char(a, v.len())
}

/// The bare lines of `input` and the indentation and comment prefix they had.
pub fn preprocess(input: &str) -> (r: (Vec<String>, PrettifyMeta))
    ensures
        r.0.deep_view() == text::lines_of(input@).map_values(|l: Seq<char>| bare_of(l)),
        r.1.pre_comment_spaces == capped(max_pre(text::lines_of(input@))),
        r.1.post_comment_spaces == capped(max_post(text::lines_of(input@))),
        r.1.comment matches Some(c) ==> first_comment(text::lines_of(input@)) == Some(c@),
        r.1.comment is None ==> first_comment(text::lines_of(input@)) is None,
{
    let chars = text::chars_of(input);
    let lines = text::split_lines(chars.as_slice());
    let ghost ls = text::char_rows(lines@);
    let mut bare: Vec<String> = Vec::new();
    let mut max_pre_w: usize = 0;
    let mut max_post_w: usize = 0;
    let mut comment: Option<String> = None;
    let mut i: usize = 0;
    while i < lines.len()
        invariant
            i <= lines@.len(),
            ls == text::char_rows(lines@),
            ls == text::lines_of(input@),
            bare@.len() == i,
            forall|j: int| 0 <= j < i ==> #[trigger] bare@[j]@ == bare_of(ls[j]),
            max_pre_w == capped(max_pre(ls.take(i as int))),
            max_post_w == capped(max_post(ls.take(i as int))),
            comment matches Some(c) ==> first_comment(ls.take(i as int)) == Some(c@),
            comment is None ==> first_comment(ls.take(i as int)) is None,
        decreases lines.len() - i,
    {
        assert(ls.take(i + 1).drop_last() =~= ls.take(i as int));
        assert(ls.take(i + 1).last() == lines@[i as int]@);
        let v = lines[i].as_slice();
        let (start, pre, k, post) = bare_start(v);
        bare.push(text::string_of(&v[start..v.len()]));
        if pre > max_pre_w {
            max_pre_w = pre;
        }
        if post > max_post_w {
            max_post_w = post;
        }
        if comment.is_none() {
            match k {
                Some(k) => {
                    comment = Some(marker_string(k));
                },
                None => {},
            }
        }
        i = i + 1;
    }
    assert(ls.take(lines.len() as int) =~= ls);
    assert(bare.deep_view() =~= ls.map_values(|l: Seq<char>| bare_of(l)));
    (
        bare,
        PrettifyMeta {
            pre_comment_spaces: max_pre_w,
            comment,
            post_comment_spaces: max_post_w,
        },
    )
}


/// `n` spaces.
pub open spec fn spaces(n: nat) -> Seq<char> {
    Seq::new(n, |i: int| ' ')
}

impl PrettifyMeta {
    /// The prefix put back in front of every rendered line: the indentation,
    /// then the comment marker followed by at least one space.
    pub open spec fn line_prefix(&self) -> Seq<char> {
        spaces(self.pre_comment_spaces as nat) + match self.comment {
            None => Seq::empty(),
            Some(c) => c@ + spaces(
                if self.post_comment_spaces >= 1 {
                    self.post_comment_spaces as nat
                } else {
                    1nat
                },
            ),
        }
    }
}

/// `rendered` with `prefix` in front of every line, keeping a final newline.
pub open spec fn with_prefix(rendered: Seq<char>, prefix: Seq<char>) -> Seq<char> {
    text::join_lines(text::lines_of(rendered).map_values(|l: Seq<char>| prefix + l)) + if rendered.len()
        > 0 && rendered.last() == '\n' {
        seq!['\n']
    } else {
        Seq::empty()
    }
}

/// Appends `n` spaces to `s`.
fn push_spaces(s: &mut String, n: usize)
    ensures
        final(s)@ == old(s)@ + spaces(n as nat),
{
    let mut i: usize = 0;
    while i < n
        invariant
            i <= n,
            s@ == old(s)@ + spaces(i as nat),
        decreases n - i,
    {
        s.push(' ');
        i = i + 1;
        assert(s@ =~= old(s)@ + spaces(i as nat));
    }
}

/// Puts the indentation and comment prefix of `meta` back in front of every
/// line of `rendered`.
pub fn postprocess(rendered: &str, meta: &PrettifyMeta) -> (out: String)
    ensures
        out@ == with_prefix(rendered@, meta.line_prefix()),
{
    let mut prefix = String::new();
    push_spaces(&mut prefix, meta.pre_comment_spaces);
    match &meta.comment {
        None => {},
        Some(c) => {
            prefix.append(c.as_str());
            let n = if meta.post_comment_spaces >= 1 {
                meta.post_comment_spaces
            } else {
                1
            };
            push_spaces(&mut prefix, n);
        },
    }
    assert(prefix@ =~= meta.line_prefix());
    let chars = text::chars_of(rendered);
    let lines = text::split_lines(chars.as_slice());
    let ghost ls = text::char_rows(lines@).map_values(|l: Seq<char>| prefix@ + l);
    let mut out = String::new();
    let mut i: usize = 0;
    while i < lines.len()
        invariant
            i <= lines@.len(),
            ls == text::char_rows(lines@).map_values(|l: Seq<char>| prefix@ + l),
            out@ == text::join_lines(ls.take(i as int)),
        decreases lines.len() - i,
    {
        assert(ls.take(i + 1).drop_last() =~= ls.take(i as int));
        assert(ls.take(i + 1).last() == prefix@ + lines@[i as int]@);
        if i > 0 {
            out.push('\n');
        }
        out.append(prefix.as_str());
        text::push_chars(&mut out, lines[i].as_slice());
        i = i + 1;
        assert(out@ =~= text::join_lines(ls.take(i as int)));
    }
    assert(ls.take(lines.len() as int) =~= ls);
    let n = chars.len();
    if n > 0 && chars[n - 1] == '\n' {
        out.push('\n');
    }
    out
}


/// Stripping the indentation off `n` spaces before a text that does not
/// begin with a space or a tab leaves that text.
proof fn lemma_dedent_spaces(n: nat, x: Seq<char>)
    requires
        x.len() == 0 || !is_indent(x[0]),
    ensures
        indent_len(spaces(n) + x) == n,
        indent_width(spaces(n) + x) == n,
        dedent(spaces(n) + x) == x,
    decreases n,
{
    let s = spaces(n) + x;
    if n == 0 {
        assert(s =~= x);
        assert(s.skip(0) =~= x);
    } else {
        assert(s[0] == ' ');
        assert(s.drop_first() =~= spaces((n - 1) as nat) + x);
        lemma_dedent_spaces((n - 1) as nat, x);
        assert(s.skip(n as int) =~= x);
    }
}

/// The number of spaces after the comment marker of a prefix: at least one.
pub open spec fn post_spaces(meta: PrettifyMeta) -> nat {
    if meta.post_comment_spaces >= 1 {
        meta.post_comment_spaces as nat
    } else {
        1nat
    }
}

/// What stripping sees on a prefixed line: the indentation the prefix gives,
/// its comment marker and the gap after it, and the line itself.
proof fn lemma_prefixed_line(meta: PrettifyMeta, l: Seq<char>)
    requires
        meta.comment matches Some(c) ==> comment_markers().contains(c@),
        l.len() == 0 || !is_indent(l[0]),
        meta.comment is None ==> comment_of(l) is None,
    ensures
        bare_of(meta.line_prefix() + l) == l,
        indent_width(meta.line_prefix() + l) == meta.pre_comment_spaces,
        comment_of(dedent(meta.line_prefix() + l)) == match meta.comment {
            Some(c) => Some(c@),
            None => None::<Seq<char>>,
        },
        post_width(meta.line_prefix() + l) == if meta.comment is Some {
            post_spaces(meta)
        } else {
            0
        },
{
    let pre = spaces(meta.pre_comment_spaces as nat);
    match meta.comment {
        None => {
            assert(meta.line_prefix() + l =~= pre + l);
            lemma_dedent_spaces(meta.pre_comment_spaces as nat, l);
        },
        Some(c) => {
            let k = post_spaces(meta);
            let cm = c@;
            let tail = spaces(k) + l;
            let after = cm + tail;
            assert(meta.line_prefix() + l =~= pre + after);
            let i = choose|i: int| 0 <= i < comment_markers().len() && comment_markers()[i] == cm;
            assert(!is_indent(after[0]));
            lemma_dedent_spaces(meta.pre_comment_spaces as nat, after);
            assert(tail[0] == ' ');
            if i == 0 {
                assert(after.take(3) =~= cm);
            } else if i == 1 {
                assert(after.take(2) =~= cm);
                assert(after[2] == ' ');
                assert(!text::starts_with(after, comment_markers()[0]));
            } else {
                assert(after.take(1) =~= cm);
                assert(!text::starts_with(after, comment_markers()[0]));
                assert(!text::starts_with(after, comment_markers()[1]));
                if i == 3 {
                    assert(!text::starts_with(after, comment_markers()[2]));
                }
            }
            assert(comment_of(after) == Some(cm));
            assert(after.skip(cm.len() as int) =~= tail);
            lemma_dedent_spaces(k, l);
        },
    }
}

/// The prefix that `postprocess` puts in front of a line is the one that
/// stripping takes off again: a line that does not begin with a space or a
/// tab, nor (when the prefix has no comment marker) with a comment marker,
/// comes back unchanged.
pub proof fn law_prefix_strips_back(meta: PrettifyMeta, l: Seq<char>)
    requires
        meta.comment matches Some(c) ==> comment_markers().contains(c@),
        l.len() == 0 || !is_indent(l[0]),
        meta.comment is None ==> comment_of(l) is None,
    ensures
        bare_of(meta.line_prefix() + l) == l,
{
    lemma_prefixed_line(meta, l);
}

/// Lines that stripping leaves as they are: none begins with a space or a
/// tab, nor (when `meta` has no comment marker) with a comment marker.
pub open spec fn fits_prefix(meta: PrettifyMeta, ls: Seq<Seq<char>>) -> bool {
    forall|q: int|
        0 <= q < ls.len() ==> ((#[trigger] ls[q]).len() == 0 || !is_indent(ls[q][0])) && (
        meta.comment is None ==> comment_of(ls[q]) is None)
}

/// The lines of `ls`, each with the prefix of `meta` in front.
pub open spec fn prefixed(meta: PrettifyMeta, ls: Seq<Seq<char>>) -> Seq<Seq<char>> {
    ls.map_values(|l: Seq<char>| meta.line_prefix() + l)
}

/// Measuring the prefix of prefixed lines finds it again: the indentation,
/// the comment marker, and the gap after it (at least one space), so that
/// the prefix put back a second time is the same.
pub proof fn law_prefix_measured_back(meta: PrettifyMeta, ls: Seq<Seq<char>>)
    requires
        meta.comment matches Some(c) ==> comment_markers().contains(c@),
        ls.len() > 0,
        fits_prefix(meta, ls),
    ensures
        max_pre(prefixed(meta, ls)) == meta.pre_comment_spaces,
        first_comment(prefixed(meta, ls)) == match meta.comment {
            Some(c) => Some(c@),
            None => None::<Seq<char>>,
        },
        max_post(prefixed(meta, ls)) == if meta.comment is Some {
            post_spaces(meta)
        } else {
            0
        },
    decreases ls.len(),
{
    let pl = prefixed(meta, ls);
    let last = ls.last();
    lemma_prefixed_line(meta, last);
    assert(pl.last() == meta.line_prefix() + last);
    if ls.len() == 1 {
        assert(pl.drop_last().len() == 0);
        assert(max_pre(pl.drop_last()) == 0);
        assert(max_post(pl.drop_last()) == 0);
        assert(first_comment(pl.drop_last()) is None);
    } else {
        let rest = ls.drop_last();
        assert(fits_prefix(meta, rest)) by {
            assert forall|q: int| 0 <= q < rest.len() implies ((#[trigger] rest[q]).len() == 0
                || !is_indent(rest[q][0])) && (meta.comment is None ==> comment_of(rest[q]) is None) by {
                assert(rest[q] == ls[q]);
            }
        }
        law_prefix_measured_back(meta, rest);
        assert(pl.drop_last() =~= prefixed(meta, rest));
    }
}

} // verus!
