//! Character-level helpers shared by the parsers and renderers.

use vstd::prelude::*;
use vstd::string::*;

verus! {

/// `String::push` appends the given character to the end of the string.
pub assume_specification[ String::push ](s: &mut String, ch: char)
    ensures
        final(s)@ == old(s)@.push(ch),
;

/// The Unicode `White_Space` property, which `char::is_whitespace` and
/// `str::trim` go by.
pub open spec fn is_white(c: char) -> bool {
    ||| ('\u{9}' <= c && c <= '\u{d}')
    ||| c == ' '
    ||| c == '\u{85}'
    ||| c == '\u{a0}'
    ||| c == '\u{1680}'
    ||| ('\u{2000}' <= c && c <= '\u{200a}')
    ||| c == '\u{2028}'
    ||| c == '\u{2029}'
    ||| c == '\u{202f}'
    ||| c == '\u{205f}'
    ||| c == '\u{3000}'
}

/// `s` with its leading white space removed.
pub open spec fn trim_start(s: Seq<char>) -> Seq<char>
    decreases s.len(),
{
    if s.len() > 0 && is_white(s[0]) {
        trim_start(s.drop_first())
    } else {
        s
    }
}

/// `s` with its trailing white space removed.
pub open spec fn trim_end(s: Seq<char>) -> Seq<char>
    decreases s.len(),
{
    if s.len() > 0 && is_white(s.last()) {
        trim_end(s.drop_last())
    } else {
        s
    }
}

/// `s` with leading and trailing white space removed, as `str::trim` does.
pub open spec fn trim(s: Seq<char>) -> Seq<char> {
    trim_end(trim_start(s))
}

/// True when every character of `s` is white space.
pub open spec fn all_white(s: Seq<char>) -> bool {
    forall|i: int| 0 <= i < s.len() ==> is_white(#[trigger] s[i])
}

/// Whether `c` is Unicode white space.
pub fn is_white_char(c: char) -> (r: bool)
    ensures
        r == is_white(c),
{
    ('\u{9}' <= c && c <= '\u{d}') || c == ' ' || c == '\u{85}' || c == '\u{a0}' || c
        == '\u{1680}' || ('\u{2000}' <= c && c <= '\u{200a}') || c == '\u{2028}' || c
        == '\u{2029}' || c == '\u{202f}' || c == '\u{205f}' || c == '\u{3000}'
}

/// The characters of `s`, in order.
pub fn chars_of(s: &str) -> (v: Vec<char>)
    ensures
        v@ == s@,
{
    let mut v: Vec<char> = Vec::new();
    for c in it: s.chars()
        invariant
            it.seq() == s@,
            v@ == it.seq().take(it.index() as int),
    {
        v.push(c);
    }
    v
}

/// A `String` made of the characters of `v`, in order.
pub fn string_of(v: &[char]) -> (s: String)
    ensures
        s@ == v@,
{
    let mut s = String::new();
    let mut i: usize = 0;
    while i < v.len()
        invariant
            i <= v.len(),
            s@ == v@.take(i as int),
        decreases v.len() - i,
    {
        s.push(v[i]);
        i = i + 1;
        assert(s@ =~= v@.take(i as int));
    }
    assert(v@.take(v.len() as int) =~= v@);
    s
}


/// Trimming the front leaves the part from the first non-white character on.
pub proof fn lemma_trim_start_skip(s: Seq<char>, i: int)
    requires
        0 <= i <= s.len(),
        forall|j: int| 0 <= j < i ==> is_white(#[trigger] s[j]),
    ensures
        trim_start(s) == trim_start(s.skip(i)),
    decreases i,
{
    if i > 0 {
        assert(is_white(s[0]));
        assert(s.drop_first().skip(i - 1) =~= s.skip(i));
        assert forall|j: int| 0 <= j < i - 1 implies is_white(#[trigger] s.drop_first()[j]) by {
            assert(s.drop_first()[j] == s[j + 1]);
        }
        lemma_trim_start_skip(s.drop_first(), i - 1);
    } else {
        assert(s.skip(0) =~= s);
    }
}

/// Trimming the back leaves the part up to the last non-white character.
pub proof fn lemma_trim_end_take(s: Seq<char>, i: int)
    requires
        0 <= i <= s.len(),
        forall|j: int| i <= j < s.len() ==> is_white(#[trigger] s[j]),
    ensures
        trim_end(s) == trim_end(s.take(i)),
    decreases s.len() - i,
{
    if i < s.len() {
        assert(s.drop_last().take(i) =~= s.take(i));
        lemma_trim_end_take(s.drop_last(), i);
    } else {
        assert(s.take(i) =~= s);
    }
}

/// A sequence is blank exactly when trimming leaves nothing.
pub proof fn lemma_trim_empty_iff_white(s: Seq<char>)
    ensures
        (trim(s).len() == 0) == all_white(s),
    decreases s.len(),
{
    lemma_trim_start_all(s);
    if !all_white(s) {
        let k = choose|k: int| 0 <= k < s.len() && !is_white(#[trigger] s[k]);
        lemma_trim_start_keeps(s, k);
        lemma_trim_end_keeps(trim_start(s));
    } else {
        lemma_trim_end_of_empty();
    }
}

proof fn lemma_trim_end_of_empty()
    ensures
        trim_end(Seq::<char>::empty()) == Seq::<char>::empty(),
{
}

/// Trimming the front of an all-white sequence leaves nothing.
proof fn lemma_trim_start_all(s: Seq<char>)
    ensures
        all_white(s) ==> trim_start(s).len() == 0,
    decreases s.len(),
{
    if s.len() > 0 && all_white(s) {
        assert(all_white(s.drop_first()));
        lemma_trim_start_all(s.drop_first());
    }
}

/// When `s[k]` is not white, trimming the front keeps a non-white character.
proof fn lemma_trim_start_keeps(s: Seq<char>, k: int)
    requires
        0 <= k < s.len(),
        !is_white(s[k]),
    ensures
        trim_start(s).len() > 0,
        !is_white(trim_start(s)[0]),
    decreases s.len(),
{
    if is_white(s[0]) {
        lemma_trim_start_keeps(s.drop_first(), k - 1);
    }
}

/// Trimming the back of a sequence that starts with a non-white character
/// leaves it non-empty.
proof fn lemma_trim_end_keeps(s: Seq<char>)
    requires
        s.len() > 0,
        !is_white(s[0]),
    ensures
        trim_end(s).len() > 0,
    decreases s.len(),
{
    if is_white(s.last()) {
        lemma_trim_end_keeps(s.drop_last());
    }
}

/// What trimming the back leaves is a prefix that keeps the first character
/// when that one is not white, and ends in a non-white character.
proof fn lemma_trim_end_shape(s: Seq<char>)
    ensures
        trim_end(s).len() <= s.len(),
        trim_end(s) == s.take(trim_end(s).len() as int),
        trim_end(s).len() > 0 ==> !is_white(trim_end(s).last()),
        s.len() > 0 && !is_white(s[0]) ==> trim_end(s).len() > 0 && trim_end(s)[0] == s[0],
    decreases s.len(),
{
    if s.len() > 0 && is_white(s.last()) {
        lemma_trim_end_shape(s.drop_last());
        assert(s.drop_last().take(trim_end(s).len() as int) =~= s.take(trim_end(s).len() as int));
    } else {
        assert(s.take(s.len() as int) =~= s);
    }
}

/// What trimming the front leaves is empty or begins with a non-white
/// character.
proof fn lemma_trim_start_shape(s: Seq<char>)
    ensures
        trim_start(s).len() > 0 ==> !is_white(trim_start(s)[0]),
    decreases s.len(),
{
    if s.len() > 0 && is_white(s[0]) {
        lemma_trim_start_shape(s.drop_first());
    }
}

/// Trimming twice is trimming once.
pub proof fn lemma_trim_idempotent(s: Seq<char>)
    ensures
        trim(trim(s)) == trim(s),
{
    let y = trim_start(s);
    let t = trim_end(y);
    lemma_trim_start_shape(s);
    lemma_trim_end_shape(y);
    lemma_trim_end_shape(t);
    assert(trim_start(t) == t);
    assert(trim_end(t) == t);
}

/// The bounds `(a, b)` of the trimmed part of `v`.
pub fn trim_bounds(v: &[char]) -> (r: (usize, usize))
    ensures
        r.0 <= r.1 <= v.len(),
        v@.subrange(r.0 as int, r.1 as int) == trim(v@),
{
    let mut a: usize = 0;
    while a < v.len() && is_white_char(v[a])
        invariant
            a <= v.len(),
            forall|j: int| 0 <= j < a ==> is_white(#[trigger] v@[j]),
        decreases v.len() - a,
    {
        a = a + 1;
    }
    proof {
        lemma_trim_start_skip(v@, a as int);
        if a < v.len() {
            assert(trim_start(v@.skip(a as int)) == v@.skip(a as int));
        } else {
            assert(v@.skip(a as int).len() == 0);
        }
    }
    let ghost rest = v@.skip(a as int);
    let mut b: usize = v.len();
    while b > a && is_white_char(v[b - 1])
        invariant
            a <= b <= v.len(),
            rest == v@.skip(a as int),
            forall|j: int| b <= j < v.len() ==> is_white(#[trigger] v@[j]),
        decreases b,
    {
        b = b - 1;
    }
    proof {
        assert forall|j: int| b - a <= j < rest.len() implies is_white(#[trigger] rest[j]) by {
            assert(rest[j] == v@[j + a]);
        }
        lemma_trim_end_take(rest, b - a);
        if b > a {
            assert(rest.take(b - a).last() == v@[b - 1]);
        }
        assert(rest.take(b - a) =~= v@.subrange(a as int, b as int));
    }
    (a, b)
}

/// `s` with leading and trailing white space removed.
pub fn trim_string(s: &str) -> (r: String)
    ensures
        r@ == trim(s@),
{
    let v = chars_of(s);
    let (a, b) = trim_bounds(v.as_slice());
    let mut r = String::new();
    let mut i = a;
    while i < b
        invariant
            a <= i <= b <= v.len(),
            r@ == v@.subrange(a as int, i as int),
        decreases b - i,
    {
        r.push(v[i]);
        i = i + 1;
        assert(r@ =~= v@.subrange(a as int, i as int));
    }
    r
}

/// Whether `v` holds only white space (or nothing).
pub fn is_blank(v: &[char]) -> (r: bool)
    ensures
        r == all_white(v@),
        r == (trim(v@).len() == 0),
{
    proof {
        lemma_trim_empty_iff_white(v@);
    }
    let mut i: usize = 0;
    while i < v.len()
        invariant
            i <= v.len(),
            forall|j: int| 0 <= j < i ==> is_white(#[trigger] v@[j]),
        decreases v.len() - i,
    {
        if !is_white_char(v[i]) {
            assert(!is_white(v@[i as int]));
            assert(!all_white(v@));
            proof {
                lemma_trim_empty_iff_white(v@);
            }
            return false;
        }
        i = i + 1;
    }
    true
}


/// How many times `c` occurs in `s`.
pub open spec fn count_char(s: Seq<char>, c: char) -> nat
    decreases s.len(),
{
    if s.len() == 0 {
        0
    } else {
        count_char(s.drop_last(), c) + if s.last() == c {
            1nat
        } else {
            0nat
        }
    }
}

/// `p` is a prefix of `s`.
pub open spec fn starts_with(s: Seq<char>, p: Seq<char>) -> bool {
    p.len() <= s.len() && s.take(p.len() as int) == p
}

/// How many times `c` occurs in `s`.
pub fn count_of(s: &[char], c: char) -> (n: usize)
    ensures
        n == count_char(s@, c),
{
    let mut n: usize = 0;
    let mut i: usize = 0;
    while i < s.len()
        invariant
            i <= s.len(),
            n == count_char(s@.take(i as int), c),
            n <= i,
        decreases s.len() - i,
    {
        assert(s@.take(i + 1).drop_last() =~= s@.take(i as int));
        if s[i] == c {
            n = n + 1;
        }
        i = i + 1;
    }
    assert(s@.take(s.len() as int) =~= s@);
    n
}

/// Whether `c` occurs in `s`.
pub fn contains_char(s: &[char], c: char) -> (r: bool)
    ensures
        r == s@.contains(c),
{
    let mut i: usize = 0;
    while i < s.len()
        invariant
            i <= s.len(),
            forall|j: int| 0 <= j < i ==> s@[j] != c,
        decreases s.len() - i,
    {
        if s[i] == c {
            return true;
        }
        i = i + 1;
    }
    false
}

/// Whether `s` begins with `p`.
pub fn has_prefix(s: &[char], p: &[char]) -> (r: bool)
    ensures
        r == starts_with(s@, p@),
{
    if p.len() > s.len() {
        return false;
    }
    let mut i: usize = 0;
    while i < p.len()
        invariant
            i <= p.len() <= s.len(),
            forall|j: int| 0 <= j < i ==> s@[j] == p@[j],
        decreases p.len() - i,
    {
        if s[i] != p[i] {
            assert(s@.take(p.len() as int)[i as int] != p@[i as int]);
            return false;
        }
        i = i + 1;
    }
    assert(s@.take(p.len() as int) =~= p@);
    true
}


/// The texts of a list of character vectors.
pub open spec fn char_rows(v: Seq<Vec<char>>) -> Seq<Seq<char>> {
    v.map_values(|x: Vec<char>| x@)
}

/// The characters of every string in `lines`.
pub fn lines_chars(lines: &[&str]) -> (v: Vec<Vec<char>>)
    ensures
        char_rows(v@) == lines.deep_view(),
{
    let mut v: Vec<Vec<char>> = Vec::new();
    let mut i: usize = 0;
    while i < lines.len()
        invariant
            i <= lines.len(),
            v@.len() == i,
            forall|j: int| 0 <= j < i ==> #[trigger] v@[j]@ == lines@[j]@,
        decreases lines.len() - i,
    {
        let c = chars_of(lines[i]);
        v.push(c);
        i = i + 1;
    }
    assert(char_rows(v@) =~= lines.deep_view());
    v
}


/// The number of leading white-space characters of `v`.
pub fn trim_start_len(v: &[char]) -> (a: usize)
    ensures
        a <= v.len(),
        v@.skip(a as int) == trim_start(v@),
{
    let mut a: usize = 0;
    while a < v.len() && is_white_char(v[a])
        invariant
            a <= v.len(),
            forall|j: int| 0 <= j < a ==> is_white(#[trigger] v@[j]),
        decreases v.len() - a,
    {
        a = a + 1;
    }
    proof {
        lemma_trim_start_skip(v@, a as int);
        if a < v.len() {
            assert(trim_start(v@.skip(a as int)) == v@.skip(a as int));
        } else {
            assert(v@.skip(a as int).len() == 0);
        }
    }
    a
}


/// The index of the first `\n` in `s`, or `s.len()` when there is none.
pub open spec fn first_newline(s: Seq<char>) -> nat
    decreases s.len(),
{
    if s.len() == 0 {
        0
    } else if s[0] == '\n' {
        0
    } else {
        1 + first_newline(s.drop_first())
    }
}

/// `first_newline` is the position of the first `\n`, or the end.
pub proof fn lemma_first_newline(s: Seq<char>)
    ensures
        first_newline(s) <= s.len(),
        first_newline(s) < s.len() ==> s[first_newline(s) as int] == '\n',
        forall|j: int| 0 <= j < first_newline(s) ==> #[trigger] s[j] != '\n',
    decreases s.len(),
{
    if s.len() > 0 && s[0] != '\n' {
        lemma_first_newline(s.drop_first());
        assert forall|j: int| 0 <= j < first_newline(s) implies #[trigger] s[j] != '\n' by {
            if j > 0 {
                assert(s[j] == s.drop_first()[j - 1]);
            }
        }
    }
}

/// A position `k` with a `\n` and none before it is the first newline.
pub proof fn lemma_first_newline_at(s: Seq<char>, k: int)
    requires
        0 <= k <= s.len(),
        k < s.len() ==> s[k] == '\n',
        forall|j: int| 0 <= j < k ==> #[trigger] s[j] != '\n',
    ensures
        first_newline(s) == k,
    decreases s.len(),
{
    if s.len() > 0 && k > 0 {
        assert(s[0] != '\n');
        assert forall|j: int| 0 <= j < k - 1 implies #[trigger] s.drop_first()[j] != '\n' by {
            assert(s.drop_first()[j] == s[j + 1]);
        }
        lemma_first_newline_at(s.drop_first(), k - 1);
    }
}

/// A line without its trailing `\r`, if it has one.
pub open spec fn strip_cr(l: Seq<char>) -> Seq<char> {
    if l.len() > 0 && l.last() == '\r' {
        l.drop_last()
    } else {
        l
    }
}

/// The lines of `s` as `str::lines` yields them: split at `\n` (a `\r` just
/// before it is dropped), and no empty line after a final `\n`.
pub open spec fn lines_of(s: Seq<char>) -> Seq<Seq<char>>
    decreases s.len(),
{
    if s.len() == 0 {
        Seq::empty()
    } else {
        let k = first_newline(s);
        if k >= s.len() {
            seq![s]
        } else {
            seq![strip_cr(s.take(k as int))] + lines_of(s.skip(k as int + 1))
        }
    }
}

/// Splitting at a known first newline.
pub proof fn lemma_lines_of_step(s: Seq<char>, k: int)
    requires
        0 <= k < s.len(),
        s[k] == '\n',
        forall|j: int| 0 <= j < k ==> #[trigger] s[j] != '\n',
    ensures
        lines_of(s) == seq![strip_cr(s.take(k))] + lines_of(s.skip(k + 1)),
{
    lemma_first_newline_at(s, k);
}

/// The last line, when no newline is left.
pub proof fn lemma_lines_of_last(s: Seq<char>)
    requires
        s.len() > 0,
        forall|j: int| 0 <= j < s.len() ==> #[trigger] s[j] != '\n',
    ensures
        lines_of(s) == seq![s],
{
    lemma_first_newline_at(s, s.len() as int);
}

/// The lines of `s`, as `str::lines` yields them.
pub fn split_lines(s: &[char]) -> (ls: Vec<Vec<char>>)
    ensures
        char_rows(ls@) == lines_of(s@),
{
    let mut ls: Vec<Vec<char>> = Vec::new();
    let mut cur: Vec<char> = Vec::new();
    let mut start: usize = 0;
    let mut i: usize = 0;
    assert(s@.skip(0) =~= s@);
    while i < s.len()
        invariant
            start <= i <= s.len(),
            cur@ == s@.subrange(start as int, i as int),
            forall|j: int| start <= j < i ==> #[trigger] s@[j] != '\n',
            lines_of(s@) == char_rows(ls@) + lines_of(s@.skip(start as int)),
        decreases s.len() - i,
    {
        if s[i] == '\n' {
            proof {
                let t = s@.skip(start as int);
                assert forall|j: int| 0 <= j < i - start implies #[trigger] t[j] != '\n' by {
                    assert(t[j] == s@[j + start]);
                }
                lemma_lines_of_step(t, i - start);
                assert(t.take(i - start) =~= cur@);
                assert(t.skip(i - start + 1) =~= s@.skip(i + 1));
            }
            let mut line = cur;
            if line.len() > 0 && line[line.len() - 1] == '\r' {
                line.pop();
                assert(line@ =~= strip_cr(s@.subrange(start as int, i as int)));
            }
            let ghost before = char_rows(ls@);
            ls.push(line);
            assert(char_rows(ls@) =~= before.push(strip_cr(s@.subrange(start as int, i as int))));
            assert(lines_of(s@) =~= char_rows(ls@) + lines_of(s@.skip(i + 1)));
            cur = Vec::new();
            start = i + 1;
        } else {
            cur.push(s[i]);
        }
        i = i + 1;
        assert(cur@ =~= s@.subrange(start as int, i as int));
    }
    if start < s.len() {
        proof {
            let t = s@.skip(start as int);
            assert forall|j: int| 0 <= j < t.len() implies #[trigger] t[j] != '\n' by {
                assert(t[j] == s@[j + start]);
            }
            lemma_lines_of_last(t);
            assert(t =~= cur@);
        }
        let ghost before = char_rows(ls@);
        ls.push(cur);
        assert(char_rows(ls@) =~= before.push(s@.skip(start as int)));
        assert(lines_of(s@) =~= char_rows(ls@));
    } else {
        assert(s@.skip(start as int).len() == 0);
        assert(lines_of(s@) =~= char_rows(ls@));
    }
    ls
}

/// The lines of `ls` joined with `\n` between them.
pub open spec fn join_lines(ls: Seq<Seq<char>>) -> Seq<char>
    decreases ls.len(),
{
    if ls.len() == 0 {
        Seq::empty()
    } else if ls.len() == 1 {
        ls[0]
    } else {
        join_lines(ls.drop_last()) + seq!['\n'] + ls.last()
    }
}

/// Appends `v` to `s`.
pub fn push_chars(s: &mut String, v: &[char])
    ensures
        final(s)@ == old(s)@ + v@,
{
    let mut i: usize = 0;
    while i < v.len()
        invariant
            i <= v.len(),
            s@ == old(s)@ + v@.take(i as int),
        decreases v.len() - i,
    {
        s.push(v[i]);
        i = i + 1;
        assert(s@ =~= old(s)@ + v@.take(i as int));
    }
    assert(v@.take(v.len() as int) =~= v@);
}


/// No line that `lines_of` yields holds a newline.
pub proof fn lemma_lines_of_no_newline(s: Seq<char>)
    ensures
        forall|k: int| 0 <= k < lines_of(s).len() ==> !(#[trigger] lines_of(s)[k]).contains('\n'),
    decreases s.len(),
{
    if s.len() > 0 {
        lemma_first_newline(s);
        let k = first_newline(s);
        if k < s.len() {
            lemma_lines_of_no_newline(s.skip(k as int + 1));
            let first = strip_cr(s.take(k as int));
            assert(!first.contains('\n')) by {
                if first.contains('\n') {
                    let j = choose|j: int| 0 <= j < first.len() && first[j] == '\n';
                    assert(s[j] == '\n');
                }
            }
            let rest = lines_of(s.skip(k as int + 1));
            assert forall|m: int| 0 <= m < lines_of(s).len() implies !(#[trigger] lines_of(s)[m]).contains('\n') by {
                if m > 0 {
                    assert(lines_of(s)[m] == rest[m - 1]);
                }
            }
        } else {
            assert(!s.contains('\n')) by {
                if s.contains('\n') {
                    let j = choose|j: int| 0 <= j < s.len() && s[j] == '\n';
                    assert(s[j] != '\n');
                }
            }
        }
    }
}

/// Joining splits off the first line: `a`, a newline, then the others joined.
pub proof fn lemma_join_lines_front(ls: Seq<Seq<char>>)
    requires
        ls.len() >= 2,
    ensures
        join_lines(ls) == ls[0] + seq!['\n'] + join_lines(ls.drop_first()),
    decreases ls.len(),
{
    if ls.len() > 2 {
        lemma_join_lines_front(ls.drop_last());
        let mid = ls.drop_first().drop_last();
        assert(ls.drop_last().drop_first() =~= mid);
        assert(ls.drop_first().last() == ls.last());
        assert(join_lines(ls.drop_first()) == join_lines(mid) + seq!['\n'] + ls.last());
        assert(join_lines(ls) == join_lines(ls.drop_last()) + seq!['\n'] + ls.last());
        assert(join_lines(ls) =~= ls[0] + seq!['\n'] + (join_lines(mid) + seq!['\n'] + ls.last()));
    } else {
        assert(ls.drop_first() =~= seq![ls[1]]);
        assert(ls.drop_last() =~= seq![ls[0]]);
        assert(join_lines(ls.drop_last()) == ls[0]);
        assert(join_lines(ls.drop_first()) == ls[1]);
        assert(join_lines(ls) == join_lines(ls.drop_last()) + seq!['\n'] + ls.last());
    }
}

/// A line that holds no newline and does not end with a carriage return.
pub open spec fn plain_line(l: Seq<char>) -> bool {
    !l.contains('\n') && !(l.len() > 0 && l.last() == '\r')
}

/// Lines joined with newlines, with a final newline, split back into the
/// same lines.
pub proof fn lemma_lines_of_join(ls: Seq<Seq<char>>)
    requires
        ls.len() > 0,
        forall|k: int| 0 <= k < ls.len() ==> plain_line(#[trigger] ls[k]),
    ensures
        lines_of(join_lines(ls) + seq!['\n']) == ls,
    decreases ls.len(),
{
    let a = ls[0];
    assert(plain_line(a));
    let t = a + seq!['\n'];
    if ls.len() == 1 {
        assert(join_lines(ls) == a);
        let s = join_lines(ls) + seq!['\n'];
        assert forall|j: int| 0 <= j < a.len() implies #[trigger] s[j] != '\n' by {
            assert(s[j] == a[j]);
        }
        lemma_lines_of_step(s, a.len() as int);
        assert(s.take(a.len() as int) =~= a);
        assert(s.skip(a.len() as int + 1).len() == 0);
        assert(lines_of(s) =~= ls);
    } else {
        lemma_join_lines_front(ls);
        let rest = ls.drop_first();
        assert forall|k: int| 0 <= k < rest.len() implies plain_line(#[trigger] rest[k]) by {
            assert(rest[k] == ls[k + 1]);
        }
        lemma_lines_of_join(rest);
        let s = join_lines(ls) + seq!['\n'];
        let r = join_lines(rest) + seq!['\n'];
        assert(s =~= a + seq!['\n'] + r);
        assert forall|j: int| 0 <= j < a.len() implies #[trigger] s[j] != '\n' by {
            assert(s[j] == a[j]);
        }
        lemma_lines_of_step(s, a.len() as int);
        assert(s.take(a.len() as int) =~= a);
        assert(s.skip(a.len() as int + 1) =~= r);
        assert(lines_of(s) =~= seq![a] + rest);
        assert(seq![a] + rest =~= ls);
    }
}


/// Lines joined with newlines, without a final newline, split back into the
/// same lines, when the last one is not empty.
pub proof fn lemma_lines_of_join_open(ls: Seq<Seq<char>>)
    requires
        ls.len() > 0,
        ls.last().len() > 0,
        forall|k: int| 0 <= k < ls.len() ==> plain_line(#[trigger] ls[k]),
    ensures
        lines_of(join_lines(ls)) == ls,
        join_lines(ls).len() > 0 && join_lines(ls).last() == ls.last().last(),
    decreases ls.len(),
{
    let a = ls[0];
    assert(plain_line(a));
    if ls.len() == 1 {
        assert(join_lines(ls) == a);
        assert forall|j: int| 0 <= j < a.len() implies #[trigger] a[j] != '\n' by {
            if a[j] == '\n' {
                assert(a.contains('\n'));
            }
        }
        lemma_lines_of_last(a);
        assert(lines_of(a) =~= ls);
    } else {
        lemma_join_lines_front(ls);
        let rest = ls.drop_first();
        assert forall|k: int| 0 <= k < rest.len() implies plain_line(#[trigger] rest[k]) by {
            assert(rest[k] == ls[k + 1]);
        }
        assert(rest.last() == ls.last());
        lemma_lines_of_join_open(rest);
        let s = join_lines(ls);
        let r = join_lines(rest);
        assert(s =~= a + seq!['\n'] + r);
        assert forall|j: int| 0 <= j < a.len() implies #[trigger] s[j] != '\n' by {
            assert(s[j] == a[j]);
            if a[j] == '\n' {
                assert(a.contains('\n'));
            }
        }
        lemma_lines_of_step(s, a.len() as int);
        assert(s.take(a.len() as int) =~= a);
        assert(s.skip(a.len() as int + 1) =~= r);
        assert(lines_of(s) =~= seq![a] + rest);
        assert(seq![a] + rest =~= ls);
        assert(s.last() == r.last());
    }
}

/// A trimmed non-empty text begins and ends with characters that are not
/// white space.
pub proof fn lemma_trimmed_ends(c: Seq<char>)
    requires
        c.len() > 0,
        trim(c) == c,
    ensures
        !is_white(c[0]),
        !is_white(c.last()),
{
    let y = trim_start(c);
    lemma_trim_start_shape(c);
    lemma_trim_end_shape(y);
    assert(c == trim_end(y));
    assert(c == y.take(c.len() as int));
    assert(c[0] == y[0]);
}

/// Trimming the white space around a text whose ends are not white gives the
/// text back.
pub proof fn lemma_trim_surrounded(a: Seq<char>, c: Seq<char>, b: Seq<char>)
    requires
        all_white(a),
        all_white(b),
        c.len() > 0,
        !is_white(c[0]),
        !is_white(c.last()),
    ensures
        trim(a + c + b) == c,
{
    let s = a + c + b;
    assert forall|j: int| 0 <= j < a.len() implies is_white(#[trigger] s[j]) by {
        assert(s[j] == a[j]);
    }
    lemma_trim_start_skip(s, a.len() as int);
    let cb = c + b;
    assert(s.skip(a.len() as int) =~= cb);
    assert(trim_start(cb) == cb);
    assert forall|j: int| c.len() <= j < cb.len() implies is_white(#[trigger] cb[j]) by {
        assert(cb[j] == b[j - c.len()]);
    }
    lemma_trim_end_take(cb, c.len() as int);
    assert(cb.take(c.len() as int) =~= c);
    assert(trim_end(c) == c);
}

} // verus!
