//! Finding the extent of the table around a given line of a file.

use vstd::prelude::*;
use crate::text;
use crate::prettify;
use crate::table_parse;
use crate::error::TableError;

verus! {

/// A bare line that belongs to a table: not empty, and a border line or one
/// holding a column separator (`| │ ║ ┃ ·`).
pub open spec fn table_line_spec(s: Seq<char>) -> bool {
    s.len() > 0 && (table_parse::border_spec(s) || s.contains('|') || s.contains('│') || s.contains(
        '║',
    ) || s.contains('┃') || s.contains('·'))
}

fn is_table_chars(s: &[char]) -> (r: bool)
    ensures
        r == table_line_spec(s@),
{
    if s.len() == 0 {
        return false;
    }
    let v = text::string_of(s);
    table_parse::is_border_line(v.as_str()) || text::contains_char(s, '|') || text::contains_char(
        s,
        '│',
    ) || text::contains_char(s, '║') || text::contains_char(s, '┃') || text::contains_char(s, '·')
}

/// Whether a bare (comment-stripped) line looks like part of a table.
pub fn is_table_line(bare: &str) -> (r: bool)
    ensures
        r == table_line_spec(bare@),
{
    let v = text::chars_of(bare);
    is_table_chars(v.as_slice())
}

/// The bare texts of `ls`.
pub open spec fn bares(ls: Seq<Seq<char>>) -> Seq<Seq<char>> {
    ls.map_values(|l: Seq<char>| prettify::bare_of(l))
}

/// The nearest RST separator among the `count` lines just above `hi`.
pub open spec fn sep_above(bl: Seq<Seq<char>>, hi: int, count: nat) -> Option<int>
    decreases count,
{
    if count == 0 || hi <= 0 {
        None
    } else if table_parse::is_rst_sep_line(bl[hi - 1]) {
        Some(hi - 1)
    } else {
        sep_above(bl, hi - 1, (count - 1) as nat)
    }
}

/// The nearest RST separator among the `count` lines from `lo` down.
pub open spec fn sep_below(bl: Seq<Seq<char>>, lo: int, count: nat) -> Option<int>
    decreases count,
{
    if count == 0 || lo >= bl.len() {
        None
    } else if table_parse::is_rst_sep_line(bl[lo]) {
        Some(lo)
    } else {
        sep_below(bl, lo + 1, (count - 1) as nat)
    }
}

/// The RST simple table around line `t`: the nearest separators within 20
/// lines above and below, widened to the next separators within 10 lines.
pub open spec fn rst_around(bl: Seq<Seq<char>>, t: int) -> Option<(int, int)> {
    match (sep_above(bl, t, 20), sep_below(bl, t + 1, 20)) {
        (Some(a), Some(b)) => Some(
            (
                match sep_above(bl, a, 10) {
                    Some(s) => s,
                    None => a,
                },
                match sep_below(bl, b + 1, 10) {
                    Some(e) => e,
                    None => b,
                },
            ),
        ),
        _ => None,
    }
}

/// The first table line of the run of table lines that reaches down to `t`.
pub open spec fn run_start(bl: Seq<Seq<char>>, t: int) -> int
    decreases t,
{
    if t > 0 && table_line_spec(bl[t - 1]) {
        run_start(bl, t - 1)
    } else {
        t
    }
}

/// The last table line of the run of table lines that starts at `t`.
pub open spec fn run_end(bl: Seq<Seq<char>>, t: int) -> int
    decreases bl.len() - t,
{
    if t + 1 < bl.len() && table_line_spec(bl[t + 1]) {
        run_end(bl, t + 1)
    } else {
        t
    }
}

/// A line of text next to a table's rules: present, not blank, and no table
/// line.
pub open spec fn content_line(bl: Seq<Seq<char>>, i: int) -> bool {
    0 <= i < bl.len() && !text::all_white(bl[i]) && !table_line_spec(bl[i])
}

/// The RST simple table around the content line `i`, when it reaches line `t`.
pub open spec fn rst_from(bl: Seq<Seq<char>>, t: int, i: int) -> Option<(int, int)> {
    if content_line(bl, i) {
        match rst_around(bl, i) {
            Some(r) => if r.0 <= t <= r.1 {
                Some(r)
            } else {
                None
            },
            None => None,
        }
    } else {
        None
    }
}

/// The RST simple table that the separator line `t` is a rule of: the table
/// around the content line below it, else around the one above it.
pub open spec fn rst_at_sep(bl: Seq<Seq<char>>, t: int) -> Option<(int, int)> {
    match rst_from(bl, t, t + 1) {
        Some(r) => Some(r),
        None => rst_from(bl, t, t - 1),
    }
}

/// The lines (first and last, inclusive) of the table containing line `t`:
/// the run of table lines around it, plus an AsciiDoc `[cols=` line just
/// above; or, when `t` is no table line, the RST simple table around it. An
/// RST separator that stands alone (its neighbours are no table lines)
/// belongs to the whole RST table it rules, as the lines inside it do.
pub open spec fn bounds_of(ls: Seq<Seq<char>>, t: int) -> Result<(int, int), TableError> {
    let bl = bares(ls);
    if t >= ls.len() {
        Err(TableError::LineOutOfRange { line: t as usize, n_lines: ls.len() as usize })
    } else if !table_line_spec(bl[t]) {
        match rst_around(bl, t) {
            Some(r) => Ok(r),
            None => Err(TableError::NotATable { line: t as usize }),
        }
    } else {
        let s = run_start(bl, t);
        let e = run_end(bl, t);
        let lone_sep = s == t && e == t && table_parse::is_rst_sep_line(bl[t]);
        if lone_sep && rst_at_sep(bl, t) is Some {
            Ok(rst_at_sep(bl, t)->0)
        } else if s > 0 && text::starts_with(bl[s - 1], table_parse::cols_attr()) {
            Ok((s - 1, e))
        } else {
            Ok((s, e))
        }
    }
}

/// The bare texts of all lines.
fn bare_lines(all_lines: &[&str]) -> (bl: Vec<Vec<char>>)
    ensures
        text::char_rows(bl@) == bares(all_lines.deep_view()),
{
    let mut bl: Vec<Vec<char>> = Vec::new();
    let mut i: usize = 0;
    while i < all_lines.len()
        invariant
            i <= all_lines@.len(),
            bl@.len() == i,
            forall|j: int|
                0 <= j < i ==> #[trigger] bl@[j]@ == prettify::bare_of(all_lines@[j]@),
        decreases all_lines.len() - i,
    {
        let b = prettify::bare_line(all_lines[i]);
        bl.push(text::chars_of(b));
        i = i + 1;
    }
    assert(text::char_rows(bl@) =~= bares(all_lines.deep_view()));
    bl
}

fn find_sep_above(bl: &Vec<Vec<char>>, hi: usize, count: usize) -> (r: Option<usize>)
    requires
        hi <= bl@.len(),
    ensures
        r matches Some(i) ==> sep_above(text::char_rows(bl@), hi as int, count as nat) == Some(i as int) && i < hi,
        r is None ==> sep_above(text::char_rows(bl@), hi as int, count as nat) is None,
{
    let ghost b = text::char_rows(bl@);
    let mut h = hi;
    let mut c = count;
    while c > 0 && h > 0
        invariant
            h <= hi <= bl@.len(),
            b == text::char_rows(bl@),
            sep_above(b, hi as int, count as nat) == sep_above(b, h as int, c as nat),
        decreases c,
    {
        assert(b[h - 1] == bl@[h - 1]@);
        if table_parse::is_rst_sep_chars(bl[h - 1].as_slice()) {
            return Some(h - 1);
        }
        h = h - 1;
        c = c - 1;
    }
    None
}

fn find_sep_below(bl: &Vec<Vec<char>>, lo: usize, count: usize) -> (r: Option<usize>)
    ensures
        r matches Some(i) ==> sep_below(text::char_rows(bl@), lo as int, count as nat) == Some(i as int) && i < bl@.len(),
        r is None ==> sep_below(text::char_rows(bl@), lo as int, count as nat) is None,
{
    let ghost b = text::char_rows(bl@);
    let mut l = lo;
    let mut c = count;
    while c > 0 && l < bl.len()
        invariant
            lo <= l,
            b == text::char_rows(bl@),
            sep_below(b, lo as int, count as nat) == sep_below(b, l as int, c as nat),
        decreases c,
    {
        assert(b[l as int] == bl@[l as int]@);
        if table_parse::is_rst_sep_chars(bl[l].as_slice()) {
            return Some(l);
        }
        l = l + 1;
        c = c - 1;
    }
    None
}

/// The RST simple table around line `target`, when the target line holds no
/// column separator.
fn find_rst_table_around(bl: &Vec<Vec<char>>, target: usize) -> (r: Option<(usize, usize)>)
    requires
        target < bl@.len(),
    ensures
        r matches Some(p) ==> rst_around(text::char_rows(bl@), target as int) == Some((p.0 as int, p.1 as int)),
        r is None ==> rst_around(text::char_rows(bl@), target as int) is None,
{
    let n = bl.len();
    let above = match find_sep_above(bl, target, 20) {
        Some(a) => a,
        None => {
            return None;
        },
    };
    let below = match find_sep_below(bl, target + 1, 20) {
        Some(b) => b,
        None => {
            return None;
        },
    };
    let start = match find_sep_above(bl, above, 10) {
        Some(s) => s,
        None => above,
    };
    let end = match find_sep_below(bl, below + 1, 10) {
        Some(e) => e,
        None => below,
    };
    Some((start, end))
}

fn is_content_line(bl: &Vec<Vec<char>>, i: usize) -> (r: bool)
    ensures
        r == content_line(text::char_rows(bl@), i as int),
{
    if i >= bl.len() {
        return false;
    }
    let ghost b = text::char_rows(bl@);
    assert(b[i as int] == bl@[i as int]@);
    !text::is_blank(bl[i].as_slice()) && !is_table_chars(bl[i].as_slice())
}

fn find_rst_from(bl: &Vec<Vec<char>>, t: usize, i: usize) -> (r: Option<(usize, usize)>)
    ensures
        r matches Some(p) ==> rst_from(text::char_rows(bl@), t as int, i as int) == Some((p.0 as int, p.1 as int)),
        r is None ==> rst_from(text::char_rows(bl@), t as int, i as int) is None,
{
    if !is_content_line(bl, i) {
        return None;
    }
    match find_rst_table_around(bl, i) {
        Some(p) => if p.0 <= t && t <= p.1 {
            Some(p)
        } else {
            None
        },
        None => None,
    }
}

/// The first and last line (inclusive) of the table that contains line
/// `target`. Comment prefixes are stripped before lines are classified; an
/// AsciiDoc `[cols=...]` line just above the table is included.
pub fn find_table_bounds(all_lines: &[&str], target: usize) -> (res: Result<(usize, usize), TableError>)
    ensures
        match bounds_of(all_lines.deep_view(), target as int) {
            Ok(p) => res == Ok::<(usize, usize), TableError>((p.0 as usize, p.1 as usize)),
            Err(e) => res == Err::<(usize, usize), TableError>(e),
        },
{
    if target >= all_lines.len() {
        return Err(TableError::LineOutOfRange { line: target, n_lines: all_lines.len() });
    }
    let bl = bare_lines(all_lines);
    let ghost b = text::char_rows(bl@);
    assert(b[target as int] == bl@[target as int]@);
    if !is_table_chars(bl[target].as_slice()) {
        return match find_rst_table_around(&bl, target) {
            Some(p) => Ok(p),
            None => Err(TableError::NotATable { line: target }),
        };
    }
    let mut start = target;
    while start > 0 && is_table_chars(bl[start - 1].as_slice())
        invariant
            start <= target < bl@.len(),
            b == text::char_rows(bl@),
            run_start(b, target as int) == run_start(b, start as int),
        decreases start,
    {
        assert(b[start - 1] == bl@[start - 1]@);
        start = start - 1;
    }
    proof {
        if start > 0 {
            assert(b[start - 1] == bl@[start - 1]@);
        }
    }
    let n = bl.len();
    let mut end = target;
    while end + 1 < n && is_table_chars(bl[end + 1].as_slice())
        invariant
            target <= end < bl@.len(),
            n == bl@.len(),
            b == text::char_rows(bl@),
            run_end(b, target as int) == run_end(b, end as int),
        decreases bl@.len() - end,
    {
        assert(b[end + 1] == bl@[end + 1]@);
        end = end + 1;
    }
    proof {
        if end + 1 < bl@.len() {
            assert(b[end + 1] == bl@[end + 1]@);
        }
    }
    assert(b[target as int] == bl@[target as int]@);
    if start == target && end == target && table_parse::is_rst_sep_chars(bl[target].as_slice()) {
        let below = if target + 1 < n {
            find_rst_from(&bl, target, target + 1)
        } else {
            None
        };
        match below {
            Some(p) => {
                return Ok(p);
            },
            None => {},
        }
        if target > 0 {
            match find_rst_from(&bl, target, target - 1) {
                Some(p) => {
                    return Ok(p);
                },
                None => {},
            }
        }
    }
    let attr: [char; 6] = ['[', 'c', 'o', 'l', 's', '='];
    assert(attr@ == table_parse::cols_attr());
    if start > 0 && text::has_prefix(bl[start - 1].as_slice(), &attr) {
        assert(b[start - 1] == bl@[start - 1]@);
        start = start - 1;
    }
    Ok((start, end))
}


proof fn lemma_sep_above_below(bl: Seq<Seq<char>>, hi: int, count: nat)
    ensures
        sep_above(bl, hi, count) matches Some(i) ==> hi - count <= i < hi && 0 <= i,
    decreases count,
{
    if count > 0 && hi > 0 && !table_parse::is_rst_sep_line(bl[hi - 1]) {
        lemma_sep_above_below(bl, hi - 1, (count - 1) as nat);
    }
}

proof fn lemma_sep_below_above(bl: Seq<Seq<char>>, lo: int, count: nat)
    ensures
        sep_below(bl, lo, count) matches Some(i) ==> lo <= i < bl.len() && i < lo + count,
    decreases count,
{
    if count > 0 && lo < bl.len() && !table_parse::is_rst_sep_line(bl[lo]) {
        lemma_sep_below_above(bl, lo + 1, (count - 1) as nat);
    }
}

proof fn lemma_run_bounds(bl: Seq<Seq<char>>, t: int)
    requires
        0 <= t < bl.len(),
    ensures
        0 <= run_start(bl, t) <= t,
        t <= run_end(bl, t) < bl.len(),
    decreases bl.len() - t,
{
    lemma_run_start(bl, t);
    if t + 1 < bl.len() && table_line_spec(bl[t + 1]) {
        lemma_run_bounds(bl, t + 1);
    }
}

proof fn lemma_run_start(bl: Seq<Seq<char>>, t: int)
    requires
        0 <= t < bl.len(),
    ensures
        0 <= run_start(bl, t) <= t,
    decreases t,
{
    if t > 0 && table_line_spec(bl[t - 1]) {
        lemma_run_start(bl, t - 1);
    }
}

/// The RST table around a line lies within the file, around that line.
proof fn lemma_rst_around_bounds(bl: Seq<Seq<char>>, t: int)
    requires
        0 <= t < bl.len(),
    ensures
        rst_around(bl, t) matches Some(r) ==> 0 <= r.0 <= t <= r.1 < bl.len(),
{
    lemma_sep_above_below(bl, t, 20);
    lemma_sep_below_above(bl, t + 1, 20);
    match (sep_above(bl, t, 20), sep_below(bl, t + 1, 20)) {
        (Some(a), Some(b)) => {
            lemma_sep_above_below(bl, a, 10);
            lemma_sep_below_above(bl, b + 1, 10);
        },
        _ => {},
    }
}

/// The table found around a line contains that line: whenever
/// `find_table_bounds` succeeds, `start <= line <= end < number of lines`.
pub proof fn law_table_bounds_contain_line(ls: Seq<Seq<char>>, t: int)
    requires
        0 <= t,
    ensures
        bounds_of(ls, t) matches Ok(p) ==> p.0 <= t <= p.1 < ls.len() && 0 <= p.0,
{
    let bl = bares(ls);
    if t < ls.len() {
        if !table_line_spec(bl[t]) {
            lemma_rst_around_bounds(bl, t);
        } else {
            lemma_run_bounds(bl, t);
            if t + 1 < bl.len() {
                lemma_rst_around_bounds(bl, t + 1);
            }
            if t > 0 {
                lemma_rst_around_bounds(bl, t - 1);
            }
        }
    }
}

/// A line holding a column separator of any style (`|`, `│`, `║`, `┃`,
/// `·`) is a table line, as is a border line (rules of `-`, `=`, `+` and
/// box-drawing characters); an empty line is not.
pub proof fn law_separator_lines_are_table_lines(s: Seq<char>)
    ensures
        s.len() > 0 && (s.contains('|') || s.contains('│') || s.contains('║') || s.contains('┃')
            || s.contains('·')) ==> table_line_spec(s),
        s.len() > 0 && table_parse::border_spec(s) ==> table_line_spec(s),
        s.len() == 0 ==> !table_line_spec(s),
{
}

proof fn lemma_run_whole(bl: Seq<Seq<char>>, t: int)
    requires
        0 <= t < bl.len(),
        forall|q: int| 0 <= q < bl.len() ==> table_line_spec(#[trigger] bl[q]),
    ensures
        run_start(bl, t) == 0,
        run_end(bl, t) == bl.len() - 1,
    decreases bl.len() - t,
{
    lemma_run_start_whole(bl, t);
    if t + 1 < bl.len() {
        lemma_run_whole(bl, t + 1);
    }
}

proof fn lemma_run_start_whole(bl: Seq<Seq<char>>, t: int)
    requires
        0 <= t < bl.len(),
        forall|q: int| 0 <= q < bl.len() ==> table_line_spec(#[trigger] bl[q]),
    ensures
        run_start(bl, t) == 0,
    decreases t,
{
    if t > 0 {
        lemma_run_start_whole(bl, t - 1);
    }
}

/// Lines that are all table lines without a prefix to strip form one table:
/// whichever of them is asked about, the table found is all of them (when
/// there are at least two).
pub proof fn law_table_lines_form_one_table(ls: Seq<Seq<char>>)
    requires
        ls.len() >= 2,
        forall|q: int| 0 <= q < ls.len() ==> prettify::bare_of(#[trigger] ls[q]) == ls[q],
        forall|q: int| 0 <= q < ls.len() ==> table_line_spec(#[trigger] ls[q]),
    ensures
        forall|t: int| 0 <= t < ls.len() ==> #[trigger] bounds_of(ls, t) == Ok::<(int, int), TableError>(
            (0, ls.len() - 1),
        ),
{
    let bl = bares(ls);
    assert(bl =~= ls);
    assert forall|t: int| 0 <= t < ls.len() implies #[trigger] bounds_of(ls, t) == Ok::<(int, int), TableError>(
        (0, ls.len() - 1),
    ) by {
        lemma_run_whole(bl, t);
    }
}

} // verus!
