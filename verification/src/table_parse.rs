//! Reading a rendered table back into `TableData`, and guessing its style.

use vstd::prelude::*;
use crate::text;
use crate::model::TableData;
use crate::error::TableError;
use crate::cli::OutputFormat;

verus! {

/// A character that may appear in a border or separator line.
pub open spec fn is_border_char(c: char) -> bool {
    c == ' ' || c == '\t' || c == '-' || c == '=' || c == '+' || c == '|' || c == '·' || (
    '\u{2500}' <= c && c <= '\u{257F}')
}

/// A border line holds only white space, ASCII rule characters, `|`, `·` and
/// box-drawing characters (U+2500 to U+257F).
pub open spec fn border_spec(s: Seq<char>) -> bool {
    forall|i: int| 0 <= i < s.len() ==> is_border_char(#[trigger] s[i])
}

fn is_border_char_exec(c: char) -> (r: bool)
    ensures
        r == is_border_char(c),
{
    c == ' ' || c == '\t' || c == '-' || c == '=' || c == '+' || c == '|' || c == '·' || (
    '\u{2500}' <= c && c <= '\u{257F}')
}

fn is_border_chars(s: &[char]) -> (r: bool)
    ensures
        r == border_spec(s@),
{
    let mut i: usize = 0;
    while i < s.len()
        invariant
            i <= s.len(),
            forall|j: int| 0 <= j < i ==> is_border_char(#[trigger] s@[j]),
        decreases s.len() - i,
    {
        if !is_border_char_exec(s[i]) {
            assert(!is_border_char(s@[i as int]));
            return false;
        }
        i = i + 1;
    }
    true
}

/// Whether `line` is a border or separator line (no content characters).
pub fn is_border_line(line: &str) -> (r: bool)
    ensures
        r == border_spec(line@),
{
    let v = text::chars_of(line);
    is_border_chars(v.as_slice())
}

/// The column separators a data line may use, in order of preference on ties.
pub open spec fn separator_candidates() -> Seq<char> {
    seq!['│', '┃', '║', '·', '|']
}

/// Among the first `k` candidates, the one occurring most often in `s` (the
/// later one on ties), if any occurs.
pub open spec fn pick_separator(s: Seq<char>, k: nat) -> Option<char>
    decreases k,
{
    if k == 0 {
        None
    } else {
        let prev = pick_separator(s, (k - 1) as nat);
        let c = separator_candidates()[k - 1];
        let n = text::count_char(s, c);
        if n > 0 && (prev is None || n >= text::count_char(s, prev.unwrap())) {
            Some(c)
        } else {
            prev
        }
    }
}

/// The separator of a data line: the most frequent candidate, `|` if none occurs.
pub open spec fn separator_of(s: Seq<char>) -> char {
    match pick_separator(s, 5) {
        Some(c) => c,
        None => '|',
    }
}

/// The separator that a data line uses.
pub fn detect_separator(line: &[char]) -> (c: char)
    ensures
        c == separator_of(line@),
{
    let cands: [char; 5] = ['│', '┃', '║', '·', '|'];
    assert(cands@ == separator_candidates());
    let mut best: Option<char> = None;
    let mut best_n: usize = 0;
    let mut k: usize = 0;
    while k < 5
        invariant
            k <= 5,
            cands@ == separator_candidates(),
            best == pick_separator(line@, k as nat),
            best matches Some(b) ==> best_n == text::count_char(line@, b),
        decreases 5 - k,
    {
        let c = cands[k];
        let n = text::count_of(line, c);
        if n > 0 && (best.is_none() || n >= best_n) {
            best = Some(c);
            best_n = n;
        }
        k = k + 1;
    }
    match best {
        Some(c) => c,
        None => '|',
    }
}

/// `s` cut at every `sep`, as `str::split` cuts it: one more piece than there
/// are separators.
pub open spec fn split_on(s: Seq<char>, sep: char) -> Seq<Seq<char>>
    decreases s.len(),
{
    if s.len() == 0 {
        seq![Seq::empty()]
    } else {
        let p = split_on(s.drop_last(), sep);
        if s.last() == sep {
            p.push(Seq::empty())
        } else {
            p.update(p.len() - 1, p.last().push(s.last()))
        }
    }
}

/// `split_on` never yields an empty list of pieces.
pub proof fn lemma_split_on_nonempty(s: Seq<char>, sep: char)
    ensures
        split_on(s, sep).len() >= 1,
    decreases s.len(),
{
    if s.len() > 0 {
        lemma_split_on_nonempty(s.drop_last(), sep);
    }
}

/// The non-empty entries of `p`, in order.
pub open spec fn keep_nonempty(p: Seq<Seq<char>>) -> Seq<Seq<char>>
    decreases p.len(),
{
    if p.len() == 0 {
        Seq::empty()
    } else {
        let k = keep_nonempty(p.drop_last());
        if p.last().len() > 0 {
            k.push(p.last())
        } else {
            k
        }
    }
}

/// Keeping the non-empty entries commutes with appending one entry.
pub proof fn lemma_keep_nonempty_push(p: Seq<Seq<char>>, x: Seq<char>)
    ensures
        keep_nonempty(p.push(x)) == if x.len() > 0 {
            keep_nonempty(p).push(x)
        } else {
            keep_nonempty(p)
        },
{
    assert(p.push(x).drop_last() =~= p);
}

/// The trimmed, non-empty pieces of `s` cut at `sep`.
pub open spec fn cells_of(s: Seq<char>, sep: char) -> Seq<Seq<char>> {
    keep_nonempty(split_on(s, sep).map_values(|x: Seq<char>| text::trim(x)))
}

/// Appends the trimmed `piece` to `out` when it is not empty.
fn push_trimmed(out: &mut Vec<String>, piece: &Vec<char>)
    ensures
        final(out).deep_view() == if text::trim(piece@).len() > 0 {
            old(out).deep_view().push(text::trim(piece@))
        } else {
            old(out).deep_view()
        },
{
    let (a, b) = text::trim_bounds(piece.as_slice());
    if a < b {
        let s = text::string_of(&piece.as_slice()[a..b]);
        out.push(s);
        assert(final(out).deep_view() =~= old(out).deep_view().push(text::trim(piece@)));
    }
}

/// The trimmed, non-empty cells of `line` cut at `sep`.
pub fn split_cells(line: &[char], sep: char) -> (cells: Vec<String>)
    ensures
        cells.deep_view() == cells_of(line@, sep),
{
    let mut out: Vec<String> = Vec::new();
    let mut cur: Vec<char> = Vec::new();
    let ghost mut done: Seq<Seq<char>> = Seq::empty();
    let mut i: usize = 0;
    while i < line.len()
        invariant
            i <= line.len(),
            split_on(line@.take(i as int), sep) == done.push(cur@),
            out.deep_view() == keep_nonempty(done.map_values(|x: Seq<char>| text::trim(x))),
        decreases line.len() - i,
    {
        let c = line[i];
        assert(line@.take(i + 1).drop_last() =~= line@.take(i as int));
        if c == sep {
            push_trimmed(&mut out, &cur);
            proof {
                let d2 = done.push(cur@);
                assert(d2.map_values(|x: Seq<char>| text::trim(x)) =~= done.map_values(
                    |x: Seq<char>| text::trim(x),
                ).push(text::trim(cur@)));
                lemma_keep_nonempty_push(done.map_values(|x: Seq<char>| text::trim(x)), text::trim(cur@));
                done = d2;
            }
            cur = Vec::new();
            assert(split_on(line@.take(i + 1), sep) =~= done.push(cur@));
        } else {
            cur.push(c);
            assert(split_on(line@.take(i + 1), sep) =~= done.push(cur@));
        }
        i = i + 1;
    }
    push_trimmed(&mut out, &cur);
    proof {
        let d2 = done.push(cur@);
        assert(d2.map_values(|x: Seq<char>| text::trim(x)) =~= done.map_values(
            |x: Seq<char>| text::trim(x),
        ).push(text::trim(cur@)));
        lemma_keep_nonempty_push(done.map_values(|x: Seq<char>| text::trim(x)), text::trim(cur@));
        assert(line@.take(line.len() as int) =~= line@);
    }
    out
}


/// A line that carries cells: neither blank nor a border line.
pub open spec fn is_data_line(s: Seq<char>) -> bool {
    !text::all_white(s) && !border_spec(s)
}

/// The data lines among `ls`, in order.
pub open spec fn data_lines(ls: Seq<Seq<char>>) -> Seq<Seq<char>>
    decreases ls.len(),
{
    if ls.len() == 0 {
        Seq::empty()
    } else {
        let d = data_lines(ls.drop_last());
        if is_data_line(ls.last()) {
            d.push(ls.last())
        } else {
            d
        }
    }
}

/// `cells` cut or padded with empty cells to exactly `n` cells, as
/// `Vec::resize` does.
pub open spec fn fit_cells(cells: Seq<Seq<char>>, n: nat) -> Seq<Seq<char>> {
    Seq::new(n, |i: int| if i < cells.len() { cells[i] } else { Seq::<char>::empty() })
}

/// A parsed table: header cells and the cells of each row.
pub type TableView = (Seq<Seq<char>>, Seq<Seq<Seq<char>>>);

/// The table that a pipe-style table (GitHub, psql, Jira, box drawing, ...)
/// denotes: the first data line gives the separator and the headers; every
/// later data line is a row, fitted to the number of headers.
pub open spec fn pipe_table(ls: Seq<Seq<char>>) -> Result<TableView, TableError> {
    let d = data_lines(ls);
    if d.len() == 0 {
        Err(TableError::NoDataRows)
    } else {
        let sep = separator_of(d[0]);
        let h = cells_of(d[0], sep);
        if h.len() == 0 {
            Err(TableError::EmptyHeader)
        } else {
            Ok(
                (
                    h,
                    d.drop_first().map_values(|l: Seq<char>| fit_cells(cells_of(l, sep), h.len())),
                ),
            )
        }
    }
}

/// `res` is the outcome `spec` describes, with default column analysis.
pub open spec fn parsed_as(res: Result<TableData, TableError>, spec: Result<TableView, TableError>) -> bool {
    match spec {
        Ok(v) => res matches Ok(t) && t.header_view() == v.0 && t.row_view() == v.1
            && t.column_meta@ == crate::model::default_meta(v.0.len()) && t.well_formed(),
        Err(e) => res == Err::<TableData, TableError>(e),
    }
}

/// The data lines of `lines`.
fn select_data_lines(lines: &Vec<Vec<char>>) -> (d: Vec<Vec<char>>)
    ensures
        text::char_rows(d@) == data_lines(text::char_rows(lines@)),
{
    let ghost all = text::char_rows(lines@);
    let mut d: Vec<Vec<char>> = Vec::new();
    let mut i: usize = 0;
    while i < lines.len()
        invariant
            i <= lines.len(),
            all == text::char_rows(lines@),
            text::char_rows(d@) == data_lines(all.take(i as int)),
        decreases lines.len() - i,
    {
        assert(all.take(i + 1).drop_last() =~= all.take(i as int));
        assert(all.take(i + 1).last() == lines@[i as int]@);
        let l = &lines[i];
        if !text::is_blank(l.as_slice()) && !is_border_chars(l.as_slice()) {
            let c = l.clone();
            d.push(c);
            assert(text::char_rows(d@) =~= data_lines(all.take(i + 1)));
        }
        i = i + 1;
    }
    assert(all.take(lines.len() as int) =~= all);
    d
}

/// `cells` fitted to exactly `n` cells.
fn fit(cells: Vec<String>, n: usize) -> (r: Vec<String>)
    ensures
        r.deep_view() == fit_cells(cells.deep_view(), n as nat),
{
    let mut cells = cells;
    let ghost old_v = cells.deep_view();
    if cells.len() >= n {
        cells.truncate(n);
        assert(cells.deep_view() =~= fit_cells(old_v, n as nat));
    } else {
        while cells.len() < n
            invariant
                old_v.len() <= cells@.len() <= n,
                forall|i: int| 0 <= i < cells@.len() ==> #[trigger] cells@[i]@ == (if i
                    < old_v.len() {
                    old_v[i]
                } else {
                    Seq::<char>::empty()
                }),
            decreases n - cells@.len(),
        {
            cells.push(String::new());
        }
        assert(cells.deep_view() =~= fit_cells(old_v, n as nat));
    }
    cells
}

/// Parses a pipe-style table (GitHub, psql, orgtbl, Jira, box drawing, dots).
/// Blank and border lines are skipped; the first remaining line is the header.
pub fn parse_pipe_table(lines: &[&str]) -> (res: Result<TableData, TableError>)
    ensures
        parsed_as(res, pipe_table(lines.deep_view())),
{
    let all = text::lines_chars(lines);
    let data = select_data_lines(&all);
    if data.len() == 0 {
        return Err(TableError::NoDataRows);
    }
    let first = &data[0];
    let sep = detect_separator(first.as_slice());
    let headers = split_cells(first.as_slice(), sep);
    if headers.len() == 0 {
        return Err(TableError::EmptyHeader);
    }
    let n_cols = headers.len();
    let ghost d = text::char_rows(data@);
    let mut rows: Vec<Vec<String>> = Vec::new();
    let mut i: usize = 1;
    while i < data.len()
        invariant
            1 <= i <= data@.len(),
            d == text::char_rows(data@),
            rows@.len() == i - 1,
            forall|j: int|
                0 <= j < i - 1 ==> #[trigger] rows@[j].deep_view() == fit_cells(
                    cells_of(d[j + 1], sep),
                    n_cols as nat,
                ),
        decreases data.len() - i,
    {
        let cells = split_cells(data[i].as_slice(), sep);
        let row = fit(cells, n_cols);
        rows.push(row);
        i = i + 1;
    }
    assert(rows.deep_view() =~= d.drop_first().map_values(
        |l: Seq<char>| fit_cells(cells_of(l, sep), n_cols as nat),
    ));
    Ok(TableData::new(headers, rows))
}


/// An RST simple-table separator: not blank, only `=` and spaces.
pub open spec fn is_rst_sep_line(s: Seq<char>) -> bool {
    !text::all_white(s) && forall|i: int| 0 <= i < s.len() ==> (#[trigger] s[i] == '=' || s[i]
        == ' ')
}

/// The indices of the RST separator lines among `ls`, in order.
pub open spec fn rst_sep_indices(ls: Seq<Seq<char>>) -> Seq<int>
    decreases ls.len(),
{
    if ls.len() == 0 {
        Seq::empty()
    } else {
        let p = rst_sep_indices(ls.drop_last());
        if is_rst_sep_line(ls.last()) {
            p.push(ls.len() - 1)
        } else {
            p
        }
    }
}

/// The maximal runs of `=` in `s`, as half-open character ranges.
pub open spec fn eq_runs(s: Seq<char>) -> Seq<(int, int)>
    decreases s.len(),
{
    if s.len() == 0 {
        Seq::empty()
    } else {
        let p = eq_runs(s.drop_last());
        let i = s.len() - 1;
        if s[i] != '=' {
            p
        } else if i > 0 && s[i - 1] == '=' {
            p.update(p.len() - 1, (p.last().0, i + 1))
        } else {
            p.push((i, i + 1))
        }
    }
}

/// The runs are non-empty ranges inside `s`, and when `s` ends in `=` the
/// last run ends with it.
pub proof fn lemma_eq_runs(s: Seq<char>)
    ensures
        forall|k: int|
            0 <= k < eq_runs(s).len() ==> 0 <= #[trigger] eq_runs(s)[k].0 < eq_runs(s)[k].1 <= s.len(),
        s.len() > 0 && s.last() == '=' ==> eq_runs(s).len() > 0 && eq_runs(s).last().1 == s.len(),
        s.len() > 0 && s.last() != '=' ==> eq_runs(s) == eq_runs(s.drop_last()),
    decreases s.len(),
{
    if s.len() > 0 {
        lemma_eq_runs(s.drop_last());
        let i = s.len() - 1;
        if s[i] == '=' && i > 0 && s[i - 1] == '=' {
            assert(s.drop_last().last() == '=');
        }
    }
}

/// The trimmed text of `l` inside each range, ranges clamped to the line's length.
pub open spec fn extract_cells(l: Seq<char>, ranges: Seq<(int, int)>) -> Seq<Seq<char>> {
    ranges.map_values(
        |r: (int, int)|
            text::trim(
                l.subrange(
                    if r.0 <= l.len() {
                        r.0
                    } else {
                        l.len() as int
                    },
                    if r.1 <= l.len() {
                        r.1
                    } else {
                        l.len() as int
                    },
                ),
            ),
    )
}

/// The index of the first non-blank line of `ls`, if any.
pub open spec fn first_nonblank(ls: Seq<Seq<char>>) -> Option<int>
    decreases ls.len(),
{
    if ls.len() == 0 {
        None
    } else if !text::all_white(ls[0]) {
        Some(0)
    } else {
        match first_nonblank(ls.drop_first()) {
            Some(k) => Some(k + 1),
            None => None,
        }
    }
}

/// The body lines of an RST table: neither blank nor separators.
pub open spec fn rst_body(ls: Seq<Seq<char>>) -> Seq<Seq<char>>
    decreases ls.len(),
{
    if ls.len() == 0 {
        Seq::empty()
    } else {
        let p = rst_body(ls.drop_last());
        if !text::all_white(ls.last()) && !is_rst_sep_line(ls.last()) {
            p.push(ls.last())
        } else {
            p
        }
    }
}

/// The table an RST simple table denotes: the `=` runs of the first separator
/// give the columns, the first non-blank line between the first two
/// separators gives the headers, and the body lines between the second and
/// the last separator give the rows.
pub open spec fn rst_table(ls: Seq<Seq<char>>) -> Result<TableView, TableError> {
    let si = rst_sep_indices(ls);
    if si.len() < 2 {
        Err(TableError::RstTooFewSeparators { found: si.len() as usize })
    } else {
        let runs = eq_runs(ls[si[0]]);
        if runs.len() == 0 {
            Err(TableError::RstNoColumns)
        } else {
            match first_nonblank(ls.subrange(si[0] + 1, si[1])) {
                None => Err(TableError::RstNoHeader),
                Some(h) => {
                    let body = if si.last() > si[1] {
                        rst_body(ls.subrange(si[1] + 1, si.last()))
                    } else {
                        Seq::empty()
                    };
                    Ok(
                        (
                            extract_cells(ls[si[0] + 1 + h], runs),
                            body.map_values(|l: Seq<char>| extract_cells(l, runs)),
                        ),
                    )
                },
            }
        }
    }
}

pub fn is_rst_sep_chars(s: &[char]) -> (r: bool)
    ensures
        r == is_rst_sep_line(s@),
{
    if text::is_blank(s) {
        return false;
    }
    let mut i: usize = 0;
    while i < s.len()
        invariant
            i <= s.len(),
            forall|j: int| 0 <= j < i ==> (#[trigger] s@[j] == '=' || s@[j] == ' '),
        decreases s.len() - i,
    {
        if s[i] != '=' && s[i] != ' ' {
            assert(!(s@[i as int] == '=' || s@[i as int] == ' '));
            return false;
        }
        i = i + 1;
    }
    true
}

/// The `=` runs of a separator line.
fn column_ranges(sep: &[char]) -> (r: Vec<(usize, usize)>)
    ensures
        r@.len() == eq_runs(sep@).len(),
        forall|k: int|
            0 <= k < r@.len() ==> (#[trigger] r@[k]).0 == eq_runs(sep@)[k].0 && r@[k].1
                == eq_runs(sep@)[k].1,
        forall|k: int| 0 <= k < r@.len() ==> (#[trigger] r@[k]).0 < r@[k].1,
{
    let mut r: Vec<(usize, usize)> = Vec::new();
    let mut i: usize = 0;
    while i < sep.len()
        invariant
            i <= sep.len(),
            r@.len() == eq_runs(sep@.take(i as int)).len(),
            forall|k: int|
                0 <= k < r@.len() ==> (#[trigger] r@[k]).0 == eq_runs(sep@.take(i as int))[k].0
                    && r@[k].1 == eq_runs(sep@.take(i as int))[k].1,
        decreases sep.len() - i,
    {
        let ghost pre = sep@.take(i as int);
        let ghost cur = sep@.take(i + 1);
        assert(cur.drop_last() =~= pre);
        proof {
            lemma_eq_runs(pre);
        }
        if sep[i] == '=' {
            if i > 0 && sep[i - 1] == '=' {
                assert(pre.last() == '=');
                let k = r.len() - 1;
                let a = r[k].0;
                r.set(k, (a, i + 1));
            } else {
                r.push((i, i + 1));
            }
        }
        i = i + 1;
    }
    assert(sep@.take(sep.len() as int) =~= sep@);
    proof {
        lemma_eq_runs(sep@);
    }
    r
}

/// The trimmed text of `line` inside each column range.
fn extract(line: &[char], ranges: &Vec<(usize, usize)>, runs: Ghost<Seq<(int, int)>>) -> (cells: Vec<String>)
    requires
        ranges@.len() == runs@.len(),
        forall|k: int|
            0 <= k < ranges@.len() ==> (#[trigger] ranges@[k]).0 == runs@[k].0 && ranges@[k].1
                == runs@[k].1,
        forall|k: int| 0 <= k < ranges@.len() ==> (#[trigger] ranges@[k]).0 < ranges@[k].1,
    ensures
        cells.deep_view() == extract_cells(line@, runs@),
{
    let mut cells: Vec<String> = Vec::new();
    let mut k: usize = 0;
    while k < ranges.len()
        invariant
            k <= ranges@.len(),
            ranges@.len() == runs@.len(),
            forall|k: int|
                0 <= k < ranges@.len() ==> (#[trigger] ranges@[k]).0 == runs@[k].0 && ranges@[k].1
                    == runs@[k].1,
            forall|k: int| 0 <= k < ranges@.len() ==> (#[trigger] ranges@[k]).0 < ranges@[k].1,
            cells@.len() == k,
            forall|j: int| 0 <= j < k ==> #[trigger] cells@[j]@ == extract_cells(line@, runs@)[j],
        decreases ranges@.len() - k,
    {
        let (start, end) = ranges[k];
        let s = if start <= line.len() { start } else { line.len() };
        let e = if end <= line.len() { end } else { line.len() };
        let part = &line[s..e];
        let (a, b) = text::trim_bounds(part);
        let cell = text::string_of(&part[a..b]);
        cells.push(cell);
        k = k + 1;
    }
    assert(cells.deep_view() =~= extract_cells(line@, runs@));
    cells
}

/// Parses an RST simple table (`=====  ===` separators).
pub fn parse_rst_table(lines: &[&str]) -> (res: Result<TableData, TableError>)
    ensures
        parsed_as(res, rst_table(lines.deep_view())),
{
    let all = text::lines_chars(lines);
    let ghost ls = text::char_rows(all@);
    let mut seps: Vec<usize> = Vec::new();
    let mut i: usize = 0;
    while i < all.len()
        invariant
            i <= all@.len(),
            ls == text::char_rows(all@),
            seps@.len() == rst_sep_indices(ls.take(i as int)).len(),
            forall|k: int|
                0 <= k < seps@.len() ==> #[trigger] seps@[k] == rst_sep_indices(ls.take(i as int))[k],
            forall|k: int| 0 <= k < seps@.len() ==> #[trigger] seps@[k] < i,
            forall|k: int, m: int| 0 <= k < m < seps@.len() ==> seps@[k] < seps@[m],
        decreases all@.len() - i,
    {
        assert(ls.take(i + 1).drop_last() =~= ls.take(i as int));
        assert(ls.take(i + 1).last() == all@[i as int]@);
        if is_rst_sep_chars(all[i].as_slice()) {
            seps.push(i);
        }
        i = i + 1;
    }
    assert(ls.take(all.len() as int) =~= ls);
    if seps.len() < 2 {
        return Err(TableError::RstTooFewSeparators { found: seps.len() });
    }
    let s0 = seps[0];
    let s1 = seps[1];
    let last = seps[seps.len() - 1];
    let ranges = column_ranges(all[s0].as_slice());
    let ghost runs = eq_runs(ls[s0 as int]);
    if ranges.len() == 0 {
        return Err(TableError::RstNoColumns);
    }
    // header: the first non-blank line strictly between the first two separators
    let mut h: usize = s0 + 1;
    while h < s1 && text::is_blank(all[h].as_slice())
        invariant
            s0 < h <= s1 < all@.len(),
            ls == text::char_rows(all@),
            first_nonblank(ls.subrange(s0 + 1, s1 as int)) == match first_nonblank(
                ls.subrange(h as int, s1 as int),
            ) {
                Some(k) => Some(k + (h - s0 - 1)),
                None => None,
            },
        decreases s1 - h,
    {
        assert(ls.subrange(h as int, s1 as int).drop_first() =~= ls.subrange(h + 1, s1 as int));
        h = h + 1;
    }
    if h == s1 {
        assert(ls.subrange(h as int, s1 as int).len() == 0);
        return Err(TableError::RstNoHeader);
    }
    assert(!text::all_white(ls.subrange(h as int, s1 as int)[0]));
    let headers = extract(all[h].as_slice(), &ranges, Ghost(runs));
    let mut rows: Vec<Vec<String>> = Vec::new();
    if last > s1 {
        let mut j: usize = s1 + 1;
        while j < last
            invariant
                s1 + 1 <= j <= last < all@.len(),
                ls == text::char_rows(all@),
                ranges@.len() == runs.len(),
                forall|k: int|
                    0 <= k < ranges@.len() ==> (#[trigger] ranges@[k]).0 == runs[k].0
                        && ranges@[k].1 == runs[k].1,
                forall|k: int| 0 <= k < ranges@.len() ==> (#[trigger] ranges@[k]).0 < ranges@[k].1,
                rows@.len() == rst_body(ls.subrange(s1 + 1, j as int)).len(),
                forall|k: int|
                    0 <= k < rows@.len() ==> #[trigger] rows@[k].deep_view() == extract_cells(
                        rst_body(ls.subrange(s1 + 1, j as int))[k],
                        runs,
                    ),
            decreases last - j,
        {
            assert(ls.subrange(s1 + 1, j + 1).drop_last() =~= ls.subrange(s1 + 1, j as int));
            assert(ls.subrange(s1 + 1, j + 1).last() == all@[j as int]@);
            let l = all[j].as_slice();
            if !text::is_blank(l) && !is_rst_sep_chars(l) {
                let cells = extract(l, &ranges, Ghost(runs));
                rows.push(cells);
            }
            j = j + 1;
        }
    }
    let ghost body = if last > s1 {
        rst_body(ls.subrange(s1 + 1, last as int))
    } else {
        Seq::empty()
    };
    assert(rows.deep_view() =~= body.map_values(|l: Seq<char>| extract_cells(l, runs)));
    Ok(TableData::new(headers, rows))
}


/// `[cols=`, the start of an AsciiDoc column attribute line.
pub open spec fn cols_attr() -> Seq<char> {
    seq!['[', 'c', 'o', 'l', 's', '=']
}

/// `|===`, the start of an AsciiDoc table delimiter.
pub open spec fn asciidoc_delim() -> Seq<char> {
    seq!['|', '=', '=', '=']
}

/// The lines of `ls` that do not begin (after leading white space) with `[cols=`.
pub open spec fn without_cols_attr(ls: Seq<Seq<char>>) -> Seq<Seq<char>>
    decreases ls.len(),
{
    if ls.len() == 0 {
        Seq::empty()
    } else {
        let p = without_cols_attr(ls.drop_last());
        if text::starts_with(text::trim_start(ls.last()), cols_attr()) {
            p
        } else {
            p.push(ls.last())
        }
    }
}

/// The table that `ls` denotes in the given style.
pub open spec fn table_in_style(ls: Seq<Seq<char>>, style: OutputFormat) -> Result<TableView, TableError> {
    match style {
        OutputFormat::Rst => rst_table(ls),
        OutputFormat::Asciidoc => pipe_table(without_cols_attr(ls)),
        _ => pipe_table(ls),
    }
}

/// Parses bare table lines written in `style`.
pub fn parse_table(lines: &[&str], style: &OutputFormat) -> (res: Result<TableData, TableError>)
    ensures
        parsed_as(res, table_in_style(lines.deep_view(), *style)),
{
    match style {
        OutputFormat::Rst => parse_rst_table(lines),
        OutputFormat::Asciidoc => {
            let attr: [char; 6] = ['[', 'c', 'o', 'l', 's', '='];
            assert(attr@ == cols_attr());
            let ghost ls = lines.deep_view();
            let mut kept: Vec<&str> = Vec::new();
            let mut i: usize = 0;
            while i < lines.len()
                invariant
                    i <= lines@.len(),
                    ls == lines.deep_view(),
                    attr@ == cols_attr(),
                    kept.deep_view() == without_cols_attr(ls.take(i as int)),
                decreases lines.len() - i,
            {
                assert(ls.take(i + 1).drop_last() =~= ls.take(i as int));
                assert(ls.take(i + 1).last() == lines@[i as int]@);
                let v = text::chars_of(lines[i]);
                let a = text::trim_start_len(v.as_slice());
                if !text::has_prefix(&v.as_slice()[a..v.len()], &attr) {
                    kept.push(lines[i]);
                    assert(kept.deep_view() =~= without_cols_attr(ls.take(i + 1)));
                }
                i = i + 1;
            }
            assert(ls.take(lines.len() as int) =~= ls);
            parse_pipe_table(kept.as_slice())
        },
        _ => parse_pipe_table(lines),
    }
}


/// The style that a single line gives away on its own: AsciiDoc (`|===` or
/// `[cols=`), extended (`║`), heavy outline (`━`) or dots (`·`, or a line
/// led and ended by `:` as the dots preset draws its rows and rules).
pub open spec fn marker_style(l: Seq<char>) -> Option<OutputFormat> {
    if l.len() == 0 {
        None
    } else if text::starts_with(l, asciidoc_delim()) || text::starts_with(l, cols_attr()) {
        Some(OutputFormat::Asciidoc)
    } else if l.contains('║') {
        Some(OutputFormat::Extended)
    } else if l.contains('━') {
        Some(OutputFormat::HeavyOutline)
    } else if l.contains('·') || is_colon_framed(l) {
        Some(OutputFormat::Dots)
    } else {
        None
    }
}

/// A line of at least two characters, led and ended by `:`.
pub open spec fn is_colon_framed(l: Seq<char>) -> bool {
    l.len() >= 2 && l[0] == ':' && l.last() == ':'
}

/// The marker style of the first line that has one.
pub open spec fn first_marker(ls: Seq<Seq<char>>) -> Option<OutputFormat>
    decreases ls.len(),
{
    if ls.len() == 0 {
        None
    } else {
        match marker_style(ls[0]) {
            Some(f) => Some(f),
            None => first_marker(ls.drop_first()),
        }
    }
}

/// An RST separator line without `|` or `+`.
pub open spec fn is_rst_style_sep(l: Seq<char>) -> bool {
    !l.contains('|') && !l.contains('+') && is_rst_sep_line(l)
}

/// A `+`-led border of only `+ - = |` and spaces (ASCII and RST grid).
pub open spec fn is_plus_border(l: Seq<char>) -> bool {
    l.len() > 0 && l[0] == '+' && forall|i: int|
        0 <= i < l.len() ==> (#[trigger] l[i] == '+' || l[i] == '-' || l[i] == '=' || l[i] == '|'
            || l[i] == ' ')
}

/// A line with thin box-drawing rules (`│` or `─`).
pub open spec fn has_box_drawing(l: Seq<char>) -> bool {
    l.contains('│') || l.contains('─')
}

/// A line with the corners of the modern style (`╒ ╘ ╞ ╡`).
pub open spec fn has_modern_corner(l: Seq<char>) -> bool {
    l.contains('╒') || l.contains('╘') || l.contains('╞') || l.contains('╡')
}

/// An orgtbl separator: `|` at both ends, a `+` inside, only `| - +` and spaces.
pub open spec fn is_orgtbl_sep(l: Seq<char>) -> bool {
    l.len() > 0 && l[0] == '|' && l.last() == '|' && l.contains('+') && forall|i: int|
        0 <= i < l.len() ==> (#[trigger] l[i] == '|' || l[i] == '-' || l[i] == '+' || l[i]
            == ' ')
}

/// A psql separator: not `|`-led, holds `+` and `-`, only `- +` and spaces.
pub open spec fn is_psql_sep(l: Seq<char>) -> bool {
    l.len() > 0 && l[0] != '|' && l.contains('+') && l.contains('-') && forall|i: int|
        0 <= i < l.len() ==> (#[trigger] l[i] == '-' || l[i] == '+' || l[i] == ' ')
}

/// A box-drawing rule that starts at the left border (`├`): sharp draws one,
/// under the header; modern draws one under every row but the last.
pub open spec fn is_row_rule(l: Seq<char>) -> bool {
    l.contains('├')
}

/// How many lines of `ls` satisfy `p`.
pub open spec fn lines_with(ls: Seq<Seq<char>>, p: spec_fn(Seq<char>) -> bool) -> nat
    decreases ls.len(),
{
    if ls.len() == 0 {
        0
    } else {
        lines_with(ls.drop_last(), p) + if p(ls.last()) {
            1nat
        } else {
            0nat
        }
    }
}

/// Some line of `ls` satisfies `p`.
pub open spec fn any_line(ls: Seq<Seq<char>>, p: spec_fn(Seq<char>) -> bool) -> bool {
    exists|i: int| 0 <= i < ls.len() && #[trigger] p(ls[i])
}

/// The style that bare table lines are written in, by the first rule that
/// applies: a marker line; an RST separator; a `+` border (ASCII); thin box
/// drawing (modern with its corners or with row rules under two rows or
/// more, else sharp); a `||` header (Jira); an
/// orgtbl separator; a psql separator; else GitHub.
pub open spec fn style_of(ls: Seq<Seq<char>>) -> OutputFormat {
    match first_marker(ls) {
        Some(f) => f,
        None => if any_line(ls, |l: Seq<char>| is_rst_style_sep(l)) {
            OutputFormat::Rst
        } else if any_line(ls, |l: Seq<char>| is_plus_border(l)) {
            OutputFormat::Ascii
        } else if any_line(ls, |l: Seq<char>| has_box_drawing(l)) {
            if any_line(ls, |l: Seq<char>| has_modern_corner(l)) || lines_with(
                ls,
                |l: Seq<char>| is_row_rule(l),
            ) >= 2 {
                OutputFormat::Modern
            } else {
                OutputFormat::Sharp
            }
        } else if ls.len() > 0 && text::starts_with(ls[0], seq!['|', '|']) {
            OutputFormat::Jira
        } else if any_line(ls, |l: Seq<char>| is_orgtbl_sep(l)) {
            OutputFormat::Orgtbl
        } else if any_line(ls, |l: Seq<char>| is_psql_sep(l)) {
            OutputFormat::Psql
        } else {
            OutputFormat::Github
        },
    }
}

fn marker_style_exec(l: &[char]) -> (r: Option<OutputFormat>)
    ensures
        r == marker_style(l@),
{
    let delim: [char; 4] = ['|', '=', '=', '='];
    let attr: [char; 6] = ['[', 'c', 'o', 'l', 's', '='];
    assert(delim@ == asciidoc_delim());
    assert(attr@ == cols_attr());
    if l.len() == 0 {
        None
    } else if text::has_prefix(l, &delim) || text::has_prefix(l, &attr) {
        Some(OutputFormat::Asciidoc)
    } else if text::contains_char(l, '║') {
        Some(OutputFormat::Extended)
    } else if text::contains_char(l, '━') {
        Some(OutputFormat::HeavyOutline)
    } else if text::contains_char(l, '·') || (l.len() >= 2 && l[0] == ':' && l[l.len() - 1] == ':') {
        Some(OutputFormat::Dots)
    } else {
        None
    }
}

fn only_chars(l: &[char], allowed: &[char]) -> (r: bool)
    ensures
        r == forall|i: int| 0 <= i < l@.len() ==> allowed@.contains(#[trigger] l@[i]),
{
    let mut i: usize = 0;
    while i < l.len()
        invariant
            i <= l.len(),
            forall|j: int| 0 <= j < i ==> allowed@.contains(#[trigger] l@[j]),
        decreases l.len() - i,
    {
        if !text::contains_char(allowed, l[i]) {
            assert(!allowed@.contains(l@[i as int]));
            return false;
        }
        i = i + 1;
    }
    true
}

fn is_rst_style_sep_exec(l: &[char]) -> (r: bool)
    ensures
        r == is_rst_style_sep(l@),
{
    !text::contains_char(l, '|') && !text::contains_char(l, '+') && is_rst_sep_chars(l)
}

fn is_plus_border_exec(l: &[char]) -> (r: bool)
    ensures
        r == is_plus_border(l@),
{
    let allowed: [char; 5] = ['+', '-', '=', '|', ' '];
    let ok = l.len() > 0 && l[0] == '+' && only_chars(l, &allowed);
    proof {
        if ok != is_plus_border(l@) {
            if ok {
                assert forall|i: int| 0 <= i < l@.len() implies (#[trigger] l@[i] == '+' || l@[i]
                    == '-' || l@[i] == '=' || l@[i] == '|' || l@[i] == ' ') by {
                    assert(allowed@.contains(l@[i]));
                }
            } else if l.len() > 0 && l[0] == '+' {
                let i = choose|i: int| 0 <= i < l@.len() && !allowed@.contains(#[trigger] l@[i]);
                assert(!(l@[i] == '+' || l@[i] == '-' || l@[i] == '=' || l@[i] == '|' || l@[i]
                    == ' ')) by {
                    if l@[i] == '+' { assert(allowed@[0] == l@[i]); }
                    if l@[i] == '-' { assert(allowed@[1] == l@[i]); }
                    if l@[i] == '=' { assert(allowed@[2] == l@[i]); }
                    if l@[i] == '|' { assert(allowed@[3] == l@[i]); }
                    if l@[i] == ' ' { assert(allowed@[4] == l@[i]); }
                }
            }
        }
    }
    ok
}

fn is_orgtbl_sep_exec(l: &[char]) -> (r: bool)
    ensures
        r == is_orgtbl_sep(l@),
{
    let allowed: [char; 4] = ['|', '-', '+', ' '];
    let ok = l.len() > 0 && l[0] == '|' && l[l.len() - 1] == '|' && text::contains_char(l, '+')
        && only_chars(l, &allowed);
    proof {
        if ok != is_orgtbl_sep(l@) {
            if ok {
                assert forall|i: int| 0 <= i < l@.len() implies (#[trigger] l@[i] == '|' || l@[i]
                    == '-' || l@[i] == '+' || l@[i] == ' ') by {
                    assert(allowed@.contains(l@[i]));
                }
            } else if l.len() > 0 && l[0] == '|' && l[l.len() - 1] == '|' && l@.contains('+') {
                let i = choose|i: int| 0 <= i < l@.len() && !allowed@.contains(#[trigger] l@[i]);
                assert(!(l@[i] == '|' || l@[i] == '-' || l@[i] == '+' || l@[i] == ' ')) by {
                    if l@[i] == '|' { assert(allowed@[0] == l@[i]); }
                    if l@[i] == '-' { assert(allowed@[1] == l@[i]); }
                    if l@[i] == '+' { assert(allowed@[2] == l@[i]); }
                    if l@[i] == ' ' { assert(allowed@[3] == l@[i]); }
                }
            }
        }
    }
    ok
}

fn is_psql_sep_exec(l: &[char]) -> (r: bool)
    ensures
        r == is_psql_sep(l@),
{
    let allowed: [char; 3] = ['-', '+', ' '];
    let ok = l.len() > 0 && l[0] != '|' && text::contains_char(l, '+') && text::contains_char(
        l,
        '-',
    ) && only_chars(l, &allowed);
    proof {
        if ok != is_psql_sep(l@) {
            if ok {
                assert forall|i: int| 0 <= i < l@.len() implies (#[trigger] l@[i] == '-' || l@[i]
                    == '+' || l@[i] == ' ') by {
                    assert(allowed@.contains(l@[i]));
                }
            } else if l.len() > 0 && l[0] != '|' && l@.contains('+') && l@.contains('-') {
                let i = choose|i: int| 0 <= i < l@.len() && !allowed@.contains(#[trigger] l@[i]);
                assert(!(l@[i] == '-' || l@[i] == '+' || l@[i] == ' ')) by {
                    if l@[i] == '-' { assert(allowed@[0] == l@[i]); }
                    if l@[i] == '+' { assert(allowed@[1] == l@[i]); }
                    if l@[i] == ' ' { assert(allowed@[2] == l@[i]); }
                }
            }
        }
    }
    ok
}

fn has_box_drawing_exec(l: &[char]) -> (r: bool)
    ensures
        r == has_box_drawing(l@),
{
    text::contains_char(l, '│') || text::contains_char(l, '─')
}

fn has_modern_corner_exec(l: &[char]) -> (r: bool)
    ensures
        r == has_modern_corner(l@),
{
    text::contains_char(l, '╒') || text::contains_char(l, '╘') || text::contains_char(l, '╞')
        || text::contains_char(l, '╡')
}

/// Which line predicate `any_line_exec` tests.
enum LineTest {
    RstSep,
    PlusBorder,
    BoxDrawing,
    ModernCorner,
    RowRule,
    OrgtblSep,
    PsqlSep,
}

spec fn line_test_spec(t: LineTest) -> spec_fn(Seq<char>) -> bool {
    match t {
        LineTest::RstSep => |l: Seq<char>| is_rst_style_sep(l),
        LineTest::PlusBorder => |l: Seq<char>| is_plus_border(l),
        LineTest::BoxDrawing => |l: Seq<char>| has_box_drawing(l),
        LineTest::ModernCorner => |l: Seq<char>| has_modern_corner(l),
        LineTest::RowRule => |l: Seq<char>| is_row_rule(l),
        LineTest::OrgtblSep => |l: Seq<char>| is_orgtbl_sep(l),
        LineTest::PsqlSep => |l: Seq<char>| is_psql_sep(l),
    }
}

fn line_test(t: &LineTest, l: &[char]) -> (r: bool)
    ensures
        r == line_test_spec(*t)(l@),
{
    match t {
        LineTest::RstSep => is_rst_style_sep_exec(l),
        LineTest::PlusBorder => is_plus_border_exec(l),
        LineTest::BoxDrawing => has_box_drawing_exec(l),
        LineTest::ModernCorner => has_modern_corner_exec(l),
        LineTest::RowRule => text::contains_char(l, '├'),
        LineTest::OrgtblSep => is_orgtbl_sep_exec(l),
        LineTest::PsqlSep => is_psql_sep_exec(l),
    }
}

fn any_line_exec(ls: &Vec<Vec<char>>, t: LineTest) -> (r: bool)
    ensures
        r == any_line(text::char_rows(ls@), line_test_spec(t)),
{
    let ghost v = text::char_rows(ls@);
    let mut i: usize = 0;
    while i < ls.len()
        invariant
            i <= ls@.len(),
            v == text::char_rows(ls@),
            forall|j: int| 0 <= j < i ==> !line_test_spec(t)(#[trigger] v[j]),
        decreases ls.len() - i,
    {
        if line_test(&t, ls[i].as_slice()) {
            assert(line_test_spec(t)(v[i as int]));
            return true;
        }
        i = i + 1;
    }
    false
}

fn count_lines_exec(ls: &Vec<Vec<char>>, t: LineTest) -> (r: usize)
    ensures
        r == lines_with(text::char_rows(ls@), line_test_spec(t)),
{
    let ghost v = text::char_rows(ls@);
    let mut i: usize = 0;
    let mut count: usize = 0;
    while i < ls.len()
        invariant
            i <= ls@.len(),
            v == text::char_rows(ls@),
            count == lines_with(v.take(i as int), line_test_spec(t)),
            count <= i,
        decreases ls.len() - i,
    {
        assert(v.take(i + 1).drop_last() =~= v.take(i as int));
        assert(v.take(i + 1).last() == ls@[i as int]@);
        if line_test(&t, ls[i].as_slice()) {
            count = count + 1;
        }
        i = i + 1;
    }
    assert(v.take(ls.len() as int) =~= v);
    count
}

/// Guesses the style of bare (comment-stripped) table lines; GitHub when
/// nothing else fits.
pub fn detect_style(bare_lines: &[&str]) -> (f: OutputFormat)
    ensures
        f == style_of(bare_lines.deep_view()),
{
    let ls = text::lines_chars(bare_lines);
    let ghost v = text::char_rows(ls@);
    assert(v.skip(0) =~= v);
    let mut i: usize = 0;
    while i < ls.len()
        invariant
            i <= ls@.len(),
            v == text::char_rows(ls@),
            v == bare_lines.deep_view(),
            first_marker(v) == first_marker(v.skip(i as int)),
        decreases ls.len() - i,
    {
        assert(v.skip(i as int)[0] == ls@[i as int]@);
        assert(v.skip(i as int).drop_first() =~= v.skip(i + 1));
        match marker_style_exec(ls[i].as_slice()) {
            Some(f) => {
                return f;
            },
            None => {},
        }
        i = i + 1;
    }
    assert(v.skip(ls.len() as int).len() == 0);
    proof {
        assert(line_test_spec(LineTest::RstSep) == |l: Seq<char>| is_rst_style_sep(l));
        assert(line_test_spec(LineTest::PlusBorder) == |l: Seq<char>| is_plus_border(l));
        assert(line_test_spec(LineTest::BoxDrawing) == |l: Seq<char>| has_box_drawing(l));
        assert(line_test_spec(LineTest::ModernCorner) == |l: Seq<char>| has_modern_corner(l));
        assert(line_test_spec(LineTest::RowRule) == |l: Seq<char>| is_row_rule(l));
        assert(line_test_spec(LineTest::OrgtblSep) == |l: Seq<char>| is_orgtbl_sep(l));
        assert(line_test_spec(LineTest::PsqlSep) == |l: Seq<char>| is_psql_sep(l));
    }
    if any_line_exec(&ls, LineTest::RstSep) {
        return OutputFormat::Rst;
    }
    if any_line_exec(&ls, LineTest::PlusBorder) {
        return OutputFormat::Ascii;
    }
    if any_line_exec(&ls, LineTest::BoxDrawing) {
        if any_line_exec(&ls, LineTest::ModernCorner) || count_lines_exec(&ls, LineTest::RowRule) >= 2 {
            return OutputFormat::Modern;
        }
        return OutputFormat::Sharp;
    }
    let jira: [char; 2] = ['|', '|'];
    assert(jira@ == seq!['|', '|']);
    if ls.len() > 0 && text::has_prefix(ls[0].as_slice(), &jira) {
        return OutputFormat::Jira;
    }
    if any_line_exec(&ls, LineTest::OrgtblSep) {
        return OutputFormat::Orgtbl;
    }
    if any_line_exec(&ls, LineTest::PsqlSep) {
        return OutputFormat::Psql;
    }
    OutputFormat::Github
}


/// A parsed table gives every row exactly one cell per header.
pub proof fn law_parsed_rows_fit_headers(ls: Seq<Seq<char>>, style: OutputFormat)
    ensures
        table_in_style(ls, style) matches Ok(v) ==> forall|r: int|
            0 <= r < v.1.len() ==> #[trigger] v.1[r].len() == v.0.len(),
{
}


/// A separator at the end starts a new, empty piece.
pub proof fn lemma_split_on_sep(s: Seq<char>, sep: char)
    ensures
        split_on(s.push(sep), sep) == split_on(s, sep).push(Seq::empty()),
{
    assert(s.push(sep).drop_last() =~= s);
}

/// Text without the separator extends the last piece.
pub proof fn lemma_split_on_extend(s: Seq<char>, x: Seq<char>, sep: char)
    requires
        !x.contains(sep),
    ensures
        split_on(s + x, sep) == split_on(s, sep).update(
            split_on(s, sep).len() - 1,
            split_on(s, sep).last() + x,
        ),
    decreases x.len(),
{
    lemma_split_on_nonempty(s, sep);
    let p = split_on(s, sep);
    if x.len() == 0 {
        assert(s + x =~= s);
        assert(p.last() + x =~= p.last());
        assert(p.update(p.len() - 1, p.last() + x) =~= p);
    } else {
        let y = x.drop_last();
        assert(!y.contains(sep)) by {
            if y.contains(sep) {
                let j = choose|j: int| 0 <= j < y.len() && y[j] == sep;
                assert(x[j] == sep);
            }
        }
        lemma_split_on_extend(s, y, sep);
        assert((s + x).drop_last() =~= s + y);
        assert((s + x).last() == x.last());
        assert(x.last() != sep) by {
            assert(x[x.len() - 1] == x.last());
        }
        lemma_split_on_nonempty(s + y, sep);
        let q = split_on(s + y, sep);
        assert(q.last() == p.last() + y);
        assert(q.last().push(x.last()) =~= p.last() + x);
        assert(split_on(s + x, sep) =~= p.update(p.len() - 1, p.last() + x));
    }
}

/// Empty entries in front are dropped.
pub proof fn lemma_keep_nonempty_front(x: Seq<char>, p: Seq<Seq<char>>)
    requires
        x.len() == 0,
    ensures
        keep_nonempty(seq![x] + p) == keep_nonempty(p),
    decreases p.len(),
{
    let q = seq![x] + p;
    if p.len() == 0 {
        assert(q.drop_last() =~= Seq::<Seq<char>>::empty());
        assert(keep_nonempty(q.drop_last()) == Seq::<Seq<char>>::empty());
        assert(keep_nonempty(q) == keep_nonempty(q.drop_last()));
        assert(keep_nonempty(p) == Seq::<Seq<char>>::empty());
    } else {
        lemma_keep_nonempty_front(x, p.drop_last());
        assert(q.drop_last() =~= seq![x] + p.drop_last());
        assert(q.last() == p.last());
    }
}

/// A list without empty entries is kept whole.
pub proof fn lemma_keep_nonempty_all(p: Seq<Seq<char>>)
    requires
        forall|i: int| 0 <= i < p.len() ==> (#[trigger] p[i]).len() > 0,
    ensures
        keep_nonempty(p) == p,
    decreases p.len(),
{
    if p.len() > 0 {
        lemma_keep_nonempty_all(p.drop_last());
        assert(p.drop_last().push(p.last()) =~= p);
    }
}


/// A separator at the end of a line adds no cell.
pub proof fn lemma_cells_of_sep(x: Seq<char>, sep: char)
    ensures
        cells_of(x.push(sep), sep) == cells_of(x, sep),
{
    lemma_split_on_sep(x, sep);
    let p = split_on(x, sep);
    let e = Seq::<char>::empty();
    reveal_with_fuel(text::trim_start, 2);
    reveal_with_fuel(text::trim_end, 2);
    assert(text::trim(e) == e);
    let tp = p.map_values(|y: Seq<char>| text::trim(y));
    assert(split_on(x.push(sep), sep).map_values(|y: Seq<char>| text::trim(y)) =~= tp.push(e));
    lemma_keep_nonempty_push(tp, e);
}

/// Text without the separator after a separator adds one cell: the text
/// trimmed, when that is not empty.
pub proof fn lemma_cells_of_piece(x: Seq<char>, b: Seq<char>, sep: char)
    requires
        x.len() > 0,
        x.last() == sep,
        !b.contains(sep),
    ensures
        cells_of(x + b, sep) == if text::trim(b).len() > 0 {
            cells_of(x, sep).push(text::trim(b))
        } else {
            cells_of(x, sep)
        },
{
    let e = Seq::<char>::empty();
    lemma_split_on_sep(x.drop_last(), sep);
    assert(x.drop_last().push(sep) =~= x);
    let p = split_on(x, sep);
    assert(p.last() == e);
    lemma_split_on_nonempty(x, sep);
    lemma_split_on_extend(x, b, sep);
    assert(p.last() + b =~= b);
    let q = split_on(x + b, sep);
    assert(q == p.update(p.len() - 1, b));
    reveal_with_fuel(text::trim_start, 2);
    reveal_with_fuel(text::trim_end, 2);
    assert(text::trim(e) == e);
    let tp = p.map_values(|y: Seq<char>| text::trim(y));
    let tq = q.map_values(|y: Seq<char>| text::trim(y));
    assert(tp =~= tp.drop_last().push(e));
    assert(tq =~= tp.drop_last().push(text::trim(b)));
    lemma_keep_nonempty_push(tp.drop_last(), e);
    lemma_keep_nonempty_push(tp.drop_last(), text::trim(b));
}

/// An empty line has no cells.
pub proof fn lemma_cells_of_empty(sep: char)
    ensures
        cells_of(Seq::empty(), sep) == Seq::<Seq<char>>::empty(),
{
    let e = Seq::<char>::empty();
    reveal_with_fuel(text::trim_start, 2);
    reveal_with_fuel(text::trim_end, 2);
    assert(text::trim(e) == e);
    assert(split_on(e, sep) == seq![e]);
    let t = split_on(e, sep).map_values(|y: Seq<char>| text::trim(y));
    assert(t =~= seq![e]);
    assert(t.drop_last() =~= Seq::<Seq<char>>::empty());
    assert(keep_nonempty(t.drop_last()) == Seq::<Seq<char>>::empty());
    assert(t.last().len() == 0);
    assert(keep_nonempty(t) == keep_nonempty(t.drop_last()));
}

} // verus!
