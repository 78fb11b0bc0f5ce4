//! Rendering a `TableData` as text in each output style.

use vstd::prelude::*;
use vstd::string::*;
use crate::text;
use crate::table_parse;
use crate::model::TableData;
use crate::cli::{ColorMode, OutputFormat};
use crate::tabled_api;
use crate::tabled_api::{TableSetting, TabledStyle};
use crate::color;
use tabled::Table;

verus! {

/// `c` repeated `n` times.
pub open spec fn repeat(c: char, n: nat) -> Seq<char> {
    Seq::new(n, |i: int| c)
}

/// `f(0) + f(1) + ... + f(n - 1)`.
pub open spec fn concat_map(n: nat, f: spec_fn(int) -> Seq<char>) -> Seq<char>
    decreases n,
{
    if n == 0 {
        Seq::empty()
    } else {
        concat_map((n - 1) as nat, f) + f(n - 1)
    }
}

/// The widest cell of column `i` among `rows` (0 without rows).
pub open spec fn max_cell_len(rows: Seq<Seq<Seq<char>>>, i: int) -> nat
    decreases rows.len(),
{
    if rows.len() == 0 {
        0
    } else {
        let m = max_cell_len(rows.drop_last(), i);
        let w = rows.last()[i].len();
        if w > m {
            w
        } else {
            m
        }
    }
}

/// The width of column `i`: its widest header or cell, in characters.
pub open spec fn col_width(headers: Seq<Seq<char>>, rows: Seq<Seq<Seq<char>>>, i: int) -> nat {
    let h = headers[i].len();
    let m = max_cell_len(rows, i);
    if h > m {
        h
    } else {
        m
    }
}

/// The number of characters of `s`.
fn char_len(s: &String) -> (n: usize)
    ensures
        n == s@.len(),
{
    s.as_str().unicode_len()
}

/// The width of each column: its widest header or cell, in characters.
pub fn col_widths(data: &TableData) -> (w: Vec<usize>)
    requires
        crate::model::rows_cover(data.row_view(), data.headers@.len() as int),
    ensures
        w@.len() == data.headers@.len(),
        forall|i: int|
            0 <= i < w@.len() ==> #[trigger] w@[i] == col_width(data.header_view(), data.row_view(), i),
{
    let mut w: Vec<usize> = Vec::new();
    let mut i: usize = 0;
    while i < data.headers.len()
        invariant
            i <= data.headers@.len(),
            crate::model::rows_cover(data.row_view(), data.headers@.len() as int),
            w@.len() == i,
            forall|k: int|
                0 <= k < i ==> #[trigger] w@[k] == col_width(data.header_view(), data.row_view(), k),
        decreases data.headers.len() - i,
    {
        let ghost rows = data.row_view();
        let mut m: usize = 0;
        let mut r: usize = 0;
        while r < data.rows.len()
            invariant
                i < data.headers@.len(),
                r <= data.rows@.len(),
                rows == data.row_view(),
                crate::model::rows_cover(rows, data.headers@.len() as int),
                m == max_cell_len(rows.take(r as int), i as int),
            decreases data.rows.len() - r,
        {
            assert(rows.take(r + 1).drop_last() =~= rows.take(r as int));
            assert(rows[r as int].len() >= data.headers@.len());
            assert(rows.take(r + 1).last()[i as int] == data.rows@[r as int]@[i as int]@);
            let n = char_len(&data.rows[r][i]);
            if n > m {
                m = n;
            }
            r = r + 1;
        }
        assert(rows.take(data.rows.len() as int) =~= rows);
        let h = char_len(&data.headers[i]);
        w.push(if h > m { h } else { m });
        i = i + 1;
    }
    w
}

/// `cell` padded with spaces to `width` characters: on the left when right
/// aligned, else on the right. A wider cell is left as it is.
pub open spec fn pad(cell: Seq<char>, width: nat, right_align: bool) -> Seq<char> {
    let fill = if cell.len() < width {
        repeat(' ', (width - cell.len()) as nat)
    } else {
        Seq::empty()
    };
    if right_align {
        fill + cell
    } else {
        cell + fill
    }
}

/// Appends `c` `n` times to `s`.
fn push_repeat(s: &mut String, c: char, n: usize)
    ensures
        final(s)@ == old(s)@ + repeat(c, n as nat),
{
    let mut i: usize = 0;
    while i < n
        invariant
            i <= n,
            s@ == old(s)@ + repeat(c, i as nat),
        decreases n - i,
    {
        s.push(c);
        i = i + 1;
        assert(s@ =~= old(s)@ + repeat(c, i as nat));
    }
}

/// Appends `cell` padded to `width` characters to `out`.
fn push_cell(out: &mut String, cell: &String, width: usize, right_align: bool)
    ensures
        final(out)@ == old(out)@ + pad(cell@, width as nat, right_align),
{
    let n = char_len(cell);
    let fill = if n < width {
        width - n
    } else {
        0
    };
    if right_align {
        push_repeat(out, ' ', fill);
        out.append(cell.as_str());
    } else {
        out.append(cell.as_str());
        push_repeat(out, ' ', fill);
    }
    assert(final(out)@ =~= old(out)@ + pad(cell@, width as nat, right_align));
}

/// `cell` padded to `width` characters.
pub fn fmt_cell(cell: &String, width: usize, right_align: bool) -> (s: String)
    ensures
        s@ == pad(cell@, width as nat, right_align),
{
    let mut s = String::new();
    push_cell(&mut s, cell, width, right_align);
    assert(s@ =~= pad(cell@, width as nat, right_align));
    s
}

/// The number of cells a row shows: as many as it has, at most one per width.
pub open spec fn shown(cells: Seq<Seq<char>>, widths: Seq<usize>) -> nat {
    if cells.len() <= widths.len() {
        cells.len()
    } else {
        widths.len()
    }
}

/// One cell of a pipe row: ` cell |`, the `|` left out after the last cell.
pub open spec fn pipe_cell(cells: Seq<Seq<char>>, widths: Seq<usize>, aligns: Seq<bool>, i: int) -> Seq<char> {
    seq![' '] + pad(cells[i], widths[i] as nat, aligns[i]) + seq![' '] + if i + 1 < cells.len() {
        seq!['|']
    } else {
        Seq::empty()
    }
}

/// A Markdown-style row: `| a | b |` with each cell padded to its width.
pub open spec fn pipe_row_spec(cells: Seq<Seq<char>>, widths: Seq<usize>, aligns: Seq<bool>) -> Seq<char> {
    seq!['|'] + concat_map(shown(cells, widths), |i: int| pipe_cell(cells, widths, aligns, i))
        + seq!['|', '\n']
}

/// A Markdown-style row of `cells`.
pub fn pipe_row(cells: &Vec<String>, widths: &Vec<usize>, aligns: &Vec<bool>) -> (s: String)
    requires
        aligns@.len() >= shown(cells.deep_view(), widths@),
    ensures
        s@ == pipe_row_spec(cells.deep_view(), widths@, aligns@),
{
    let ghost f = |i: int| pipe_cell(cells.deep_view(), widths@, aligns@, i);
    let n = if cells.len() <= widths.len() {
        cells.len()
    } else {
        widths.len()
    };
    let mut s = String::new();
    s.push('|');
    let mut i: usize = 0;
    while i < n
        invariant
            i <= n,
            n == shown(cells.deep_view(), widths@),
            n <= cells@.len(),
            n <= widths@.len(),
            aligns@.len() >= n,
            f == |i: int| pipe_cell(cells.deep_view(), widths@, aligns@, i),
            s@ == seq!['|'] + concat_map(i as nat, f),
        decreases n - i,
    {
        s.push(' ');
        push_cell(&mut s, &cells[i], widths[i], aligns[i]);
        s.push(' ');
        if i + 1 < cells.len() {
            s.push('|');
        }
        assert(s@ =~= seq!['|'] + concat_map((i + 1) as nat, f));
        i = i + 1;
    }
    s.push('|');
    s.push('\n');
    assert(s@ =~= pipe_row_spec(cells.deep_view(), widths@, aligns@));
    s
}


/// The characters of a horizontal rule: left end, right end, column
/// crossing and fill.
#[derive(Clone, Copy, Debug, PartialEq, Eq, Structural)]
pub struct LineConfig {
    pub left: char,
    pub right: char,
    pub cross: char,
    pub fill: char,
}

/// The rules and cell borders of a box style.
#[derive(Clone, Copy, Debug, PartialEq, Eq, Structural)]
pub struct BoxConfig {
    pub top: Option<LineConfig>,
    pub header_sep: LineConfig,
    pub row_sep: Option<LineConfig>,
    pub bottom: Option<LineConfig>,
    pub cell_left: char,
    pub cell_right: char,
    pub cell_sep: char,
    /// Whether header cells take their column's alignment (else they are
    /// left aligned).
    pub align_header: bool,
}

/// One column of a rule: the fill over the column and its padding, then the
/// crossing unless it is the last column.
pub open spec fn rule_segment(cfg: LineConfig, widths: Seq<usize>, i: int) -> Seq<char> {
    repeat(cfg.fill, (widths[i] + 2) as nat) + if i + 1 < widths.len() {
        seq![cfg.cross]
    } else {
        Seq::empty()
    }
}

/// A horizontal rule across columns of the given widths.
pub open spec fn rule_spec(cfg: LineConfig, widths: Seq<usize>) -> Seq<char> {
    seq![cfg.left] + concat_map(widths.len(), |i: int| rule_segment(cfg, widths, i)) + seq![
        cfg.right,
        '\n',
    ]
}

/// A horizontal rule across columns of the given widths.
pub fn render_line(cfg: &LineConfig, widths: &Vec<usize>) -> (s: String)
    ensures
        s@ == rule_spec(*cfg, widths@),
{
    let ghost f = |i: int| rule_segment(*cfg, widths@, i);
    let mut s = String::new();
    s.push(cfg.left);
    let mut i: usize = 0;
    while i < widths.len()
        invariant
            i <= widths@.len(),
            f == |i: int| rule_segment(*cfg, widths@, i),
            s@ == seq![cfg.left] + concat_map(i as nat, f),
        decreases widths.len() - i,
    {
        let ghost before = s@;
        push_repeat(&mut s, cfg.fill, widths[i]);
        s.push(cfg.fill);
        s.push(cfg.fill);
        assert(s@ =~= before + repeat(cfg.fill, (widths@[i as int] + 2) as nat));
        if i + 1 < widths.len() {
            s.push(cfg.cross);
        }
        assert(s@ =~= seq![cfg.left] + concat_map((i + 1) as nat, f));
        i = i + 1;
    }
    s.push(cfg.right);
    s.push('\n');
    assert(s@ =~= rule_spec(*cfg, widths@));
    s
}

/// One cell of a box row: ` cell ` then the separator unless it is the last cell.
pub open spec fn box_cell(
    cells: Seq<Seq<char>>,
    widths: Seq<usize>,
    aligns: Seq<bool>,
    sep: char,
    i: int,
) -> Seq<char> {
    seq![' '] + pad(cells[i], widths[i] as nat, aligns[i]) + seq![' '] + if i + 1 < cells.len() {
        seq![sep]
    } else {
        Seq::empty()
    }
}

/// A row of a box style.
pub open spec fn box_row_spec(
    cells: Seq<Seq<char>>,
    widths: Seq<usize>,
    aligns: Seq<bool>,
    cfg: BoxConfig,
) -> Seq<char> {
    seq![cfg.cell_left] + concat_map(
        shown(cells, widths),
        |i: int| box_cell(cells, widths, aligns, cfg.cell_sep, i),
    ) + seq![cfg.cell_right, '\n']
}

/// A row of a box style.
pub fn render_data_row(cells: &Vec<String>, widths: &Vec<usize>, right_aligns: &Vec<bool>, cfg: &BoxConfig) -> (s: String)
    requires
        right_aligns@.len() >= shown(cells.deep_view(), widths@),
    ensures
        s@ == box_row_spec(cells.deep_view(), widths@, right_aligns@, *cfg),
{
    let ghost f = |i: int| box_cell(cells.deep_view(), widths@, right_aligns@, cfg.cell_sep, i);
    let n = if cells.len() <= widths.len() {
        cells.len()
    } else {
        widths.len()
    };
    let mut s = String::new();
    s.push(cfg.cell_left);
    let mut i: usize = 0;
    while i < n
        invariant
            i <= n,
            n == shown(cells.deep_view(), widths@),
            n <= cells@.len(),
            n <= widths@.len(),
            right_aligns@.len() >= n,
            f == |i: int| box_cell(cells.deep_view(), widths@, right_aligns@, cfg.cell_sep, i),
            s@ == seq![cfg.cell_left] + concat_map(i as nat, f),
        decreases n - i,
    {
        s.push(' ');
        push_cell(&mut s, &cells[i], widths[i], right_aligns[i]);
        s.push(' ');
        if i + 1 < cells.len() {
            s.push(cfg.cell_sep);
        }
        assert(s@ =~= seq![cfg.cell_left] + concat_map((i + 1) as nat, f));
        i = i + 1;
    }
    s.push(cfg.cell_right);
    s.push('\n');
    assert(s@ =~= box_row_spec(cells.deep_view(), widths@, right_aligns@, *cfg));
    s
}

/// Whether each column is right aligned: the numeric ones.
pub open spec fn numeric_flags(data: TableData) -> Seq<bool> {
    data.column_meta@.map_values(|m: crate::model::ColumnMeta| m.is_numeric)
}

/// `n` times `false`.
pub open spec fn all_left(n: nat) -> Seq<bool> {
    Seq::new(n, |i: int| false)
}

/// The alignments of a box table's header cells: their columns' when the
/// style aligns its header, else all left.
pub open spec fn header_aligns(data: TableData, cfg: BoxConfig) -> Seq<bool> {
    if cfg.align_header {
        numeric_flags(data)
    } else {
        all_left(data.headers@.len())
    }
}

fn numeric_aligns(data: &TableData) -> (a: Vec<bool>)
    ensures
        a@ == numeric_flags(*data),
{
    let mut a: Vec<bool> = Vec::new();
    let mut i: usize = 0;
    while i < data.column_meta.len()
        invariant
            i <= data.column_meta@.len(),
            a@ == numeric_flags(*data).take(i as int),
        decreases data.column_meta.len() - i,
    {
        a.push(data.column_meta[i].is_numeric);
        i = i + 1;
        assert(a@ =~= numeric_flags(*data).take(i as int));
    }
    assert(numeric_flags(*data).take(data.column_meta@.len() as int) =~= numeric_flags(*data));
    a
}

fn left_aligns(n: usize) -> (a: Vec<bool>)
    ensures
        a@ == all_left(n as nat),
{
    let mut a: Vec<bool> = Vec::new();
    let mut i: usize = 0;
    while i < n
        invariant
            i <= n,
            a@ == all_left(i as nat),
        decreases n - i,
    {
        a.push(false);
        i = i + 1;
        assert(a@ =~= all_left(i as nat));
    }
    a
}

/// An optional rule: nothing when the style has none.
pub open spec fn opt_rule(cfg: Option<LineConfig>, widths: Seq<usize>) -> Seq<char> {
    match cfg {
        Some(c) => rule_spec(c, widths),
        None => Seq::empty(),
    }
}

/// Data row `r` of a box table, followed by the row rule unless it is the last.
pub open spec fn box_body_row(data: TableData, widths: Seq<usize>, cfg: BoxConfig, r: int) -> Seq<char> {
    box_row_spec(data.row_view()[r], widths, numeric_flags(data), cfg) + if r + 1
        < data.rows@.len() {
        opt_rule(cfg.row_sep, widths)
    } else {
        Seq::empty()
    }
}

/// A whole box table: top rule, header row, header rule, rows with row rules
/// between them, bottom rule. Numeric columns are right aligned; headers
/// too when the style aligns its header, else left.
pub open spec fn box_spec(data: TableData, widths: Seq<usize>, cfg: BoxConfig) -> Seq<char> {
    opt_rule(cfg.top, widths) + box_row_spec(
        data.header_view(),
        widths,
        header_aligns(data, cfg),
        cfg,
    ) + rule_spec(cfg.header_sep, widths) + concat_map(
        data.rows@.len(),
        |r: int| box_body_row(data, widths, cfg, r),
    ) + opt_rule(cfg.bottom, widths)
}

fn render_opt_line(cfg: &Option<LineConfig>, widths: &Vec<usize>) -> (s: String)
    ensures
        s@ == opt_rule(*cfg, widths@),
{
    match cfg {
        Some(c) => render_line(c, widths),
        None => String::new(),
    }
}

/// Every data row shows no more cells than there are column analyses, so that
/// each shown cell has its alignment.
pub open spec fn aligns_cover(data: TableData, widths: Seq<usize>) -> bool {
    forall|r: int|
        0 <= r < data.rows@.len() ==> shown(#[trigger] data.row_view()[r], widths)
            <= data.column_meta@.len()
}

/// Renders a table in a box style.
pub fn render_box(data: &TableData, widths: &Vec<usize>, cfg: &BoxConfig) -> (out: String)
    requires
        data.column_meta@.len() >= data.headers@.len(),
        aligns_cover(*data, widths@),
    ensures
        out@ == box_spec(*data, widths@, *cfg),
{
    let n_cols = data.headers.len();
    let data_aligns = numeric_aligns(data);
    let header_aligns = if cfg.align_header {
        numeric_aligns(data)
    } else {
        left_aligns(n_cols)
    };
    let mut out = String::new();
    let top = render_opt_line(&cfg.top, widths);
    out.append(top.as_str());
    let h = render_data_row(&data.headers, widths, &header_aligns, cfg);
    out.append(h.as_str());
    let hs = render_line(&cfg.header_sep, widths);
    out.append(hs.as_str());
    let ghost start = out@;
    let ghost f = |r: int| box_body_row(*data, widths@, *cfg, r);
    let mut r: usize = 0;
    while r < data.rows.len()
        invariant
            r <= data.rows@.len(),
            data.column_meta@.len() >= data.headers@.len(),
            aligns_cover(*data, widths@),
            data_aligns@ == numeric_flags(*data),
            f == |r: int| box_body_row(*data, widths@, *cfg, r),
            out@ == start + concat_map(r as nat, f),
        decreases data.rows.len() - r,
    {
        assert(data.rows@[r as int].deep_view() == data.row_view()[r as int]);
        let row = render_data_row(&data.rows[r], widths, &data_aligns, cfg);
        out.append(row.as_str());
        if r + 1 < data.rows.len() {
            let sep = render_opt_line(&cfg.row_sep, widths);
            out.append(sep.as_str());
        }
        assert(out@ =~= start + concat_map((r + 1) as nat, f));
        r = r + 1;
    }
    let bottom = render_opt_line(&cfg.bottom, widths);
    out.append(bottom.as_str());
    assert(out@ =~= box_spec(*data, widths@, *cfg));
    out
}


/// The decimal digits.
pub open spec fn digit_chars() -> Seq<char> {
    seq!['0', '1', '2', '3', '4', '5', '6', '7', '8', '9']
}

/// The decimal representation of `n`.
pub open spec fn decimal(n: nat) -> Seq<char>
    decreases n,
{
    if n < 10 {
        seq![digit_chars()[n as int]]
    } else {
        decimal(n / 10) + seq![digit_chars()[(n % 10) as int]]
    }
}

/// Appends the decimal representation of `n` to `s`.
pub fn push_decimal(s: &mut String, n: usize)
    ensures
        final(s)@ == old(s)@ + decimal(n as nat),
    decreases n,
{
    let digits: [char; 10] = ['0', '1', '2', '3', '4', '5', '6', '7', '8', '9'];
    assert(digits@ == digit_chars());
    if n >= 10 {
        push_decimal(s, n / 10);
    }
    s.push(digits[n % 10]);
    assert(final(s)@ =~= old(s)@ + decimal(n as nat));
}

/// The separator line of the Reddit style: `| ---- | --- |`, dashes as wide as
/// the content.
pub open spec fn reddit_rule(widths: Seq<usize>) -> Seq<char> {
    seq!['|'] + concat_map(
        widths.len(),
        |i: int|
            seq![' '] + repeat('-', widths[i] as nat) + seq![' '] + if i + 1 < widths.len() {
                seq!['|']
            } else {
                Seq::empty()
            },
    ) + seq!['|', '\n']
}

/// The Reddit style: a Markdown table whose separator dashes span only the
/// content width.
pub open spec fn reddit_spec(data: TableData, widths: Seq<usize>) -> Seq<char> {
    pipe_row_spec(data.header_view(), widths, all_left(widths.len())) + reddit_rule(widths)
        + concat_map(
        data.rows@.len(),
        |r: int| pipe_row_spec(data.row_view()[r], widths, numeric_flags(data)),
    )
}

/// Renders a table in the Reddit style.
pub fn render_reddit(data: &TableData, widths: &Vec<usize>) -> (out: String)
    requires
        aligns_cover(*data, widths@),
    ensures
        out@ == reddit_spec(*data, widths@),
{
    let mut out = String::new();
    let left = left_aligns(widths.len());
    let h = pipe_row(&data.headers, widths, &left);
    out.append(h.as_str());
    let ghost g = |i: int|
        seq![' '] + repeat('-', widths@[i] as nat) + seq![' '] + if i + 1 < widths@.len() {
            seq!['|']
        } else {
            Seq::empty()
        };
    let ghost start = out@;
    out.push('|');
    let mut i: usize = 0;
    while i < widths.len()
        invariant
            i <= widths@.len(),
            g == (|i: int|
                seq![' '] + repeat('-', widths@[i] as nat) + seq![' '] + if i + 1 < widths@.len() {
                    seq!['|']
                } else {
                    Seq::empty()
                }),
            out@ == start + seq!['|'] + concat_map(i as nat, g),
        decreases widths.len() - i,
    {
        out.push(' ');
        push_repeat(&mut out, '-', widths[i]);
        out.push(' ');
        if i + 1 < widths.len() {
            out.push('|');
        }
        assert(out@ =~= start + seq!['|'] + concat_map((i + 1) as nat, g));
        i = i + 1;
    }
    out.push('|');
    out.push('\n');
    assert(out@ =~= start + reddit_rule(widths@));
    let aligns = numeric_aligns(data);
    let ghost mid = out@;
    let ghost f = |r: int| pipe_row_spec(data.row_view()[r], widths@, numeric_flags(*data));
    let mut r: usize = 0;
    while r < data.rows.len()
        invariant
            r <= data.rows@.len(),
            aligns_cover(*data, widths@),
            aligns@ == numeric_flags(*data),
            f == (|r: int| pipe_row_spec(data.row_view()[r], widths@, numeric_flags(*data))),
            out@ == mid + concat_map(r as nat, f),
        decreases data.rows.len() - r,
    {
        assert(data.rows@[r as int].deep_view() == data.row_view()[r as int]);
        let row = pipe_row(&data.rows[r], widths, &aligns);
        out.append(row.as_str());
        assert(out@ =~= mid + concat_map((r + 1) as nat, f));
        r = r + 1;
    }
    assert(out@ =~= reddit_spec(*data, widths@));
    out
}

/// A Jira header cell: ` cell ||`.
pub open spec fn jira_head_cell(h: Seq<Seq<char>>, widths: Seq<usize>, i: int) -> Seq<char> {
    seq![' '] + pad(h[i], widths[i] as nat, false) + seq![' ', '|', '|']
}

/// A Jira data cell: ` cell |`.
pub open spec fn jira_cell(cells: Seq<Seq<char>>, widths: Seq<usize>, aligns: Seq<bool>, i: int) -> Seq<char> {
    seq![' '] + pad(cells[i], widths[i] as nat, aligns[i]) + seq![' ', '|']
}

/// A Jira data row: `| a | b |`.
pub open spec fn jira_row(cells: Seq<Seq<char>>, widths: Seq<usize>, aligns: Seq<bool>) -> Seq<char> {
    seq!['|'] + concat_map(shown(cells, widths), |i: int| jira_cell(cells, widths, aligns, i))
        + seq!['\n']
}

/// The Jira wiki style: `|| h || h ||` then `| c | c |` rows.
pub open spec fn jira_spec(data: TableData, widths: Seq<usize>) -> Seq<char> {
    seq!['|', '|'] + concat_map(
        shown(data.header_view(), widths),
        |i: int| jira_head_cell(data.header_view(), widths, i),
    ) + seq!['\n'] + concat_map(
        data.rows@.len(),
        |r: int| jira_row(data.row_view()[r], widths, numeric_flags(data)),
    )
}

/// Renders a table in the Jira wiki style.
pub fn render_jira(data: &TableData, widths: &Vec<usize>) -> (out: String)
    requires
        aligns_cover(*data, widths@),
        shown(data.header_view(), widths@) <= data.column_meta@.len(),
    ensures
        out@ == jira_spec(*data, widths@),
{
    let aligns = numeric_aligns(data);
    let mut out = String::new();
    out.push('|');
    out.push('|');
    let nh = if data.headers.len() <= widths.len() {
        data.headers.len()
    } else {
        widths.len()
    };
    let ghost hf = |i: int| jira_head_cell(data.header_view(), widths@, i);
    let mut i: usize = 0;
    while i < nh
        invariant
            i <= nh,
            nh == shown(data.header_view(), widths@),
            nh <= data.headers@.len(),
            nh <= widths@.len(),
            hf == (|i: int| jira_head_cell(data.header_view(), widths@, i)),
            out@ == seq!['|', '|'] + concat_map(i as nat, hf),
        decreases nh - i,
    {
        out.push(' ');
        push_cell(&mut out, &data.headers[i], widths[i], false);
        out.push(' ');
        out.push('|');
        out.push('|');
        assert(out@ =~= seq!['|', '|'] + concat_map((i + 1) as nat, hf));
        i = i + 1;
    }
    out.push('\n');
    let ghost mid = out@;
    let ghost f = |r: int| jira_row(data.row_view()[r], widths@, numeric_flags(*data));
    let mut r: usize = 0;
    while r < data.rows.len()
        invariant
            r <= data.rows@.len(),
            aligns_cover(*data, widths@),
            aligns@ == numeric_flags(*data),
            f == (|r: int| jira_row(data.row_view()[r], widths@, numeric_flags(*data))),
            out@ == mid + concat_map(r as nat, f),
        decreases data.rows.len() - r,
    {
        let ghost before = out@;
        let row = &data.rows[r];
        let ghost cells = data.row_view()[r as int];
        assert(row.deep_view() == cells);
        let n = if row.len() <= widths.len() {
            row.len()
        } else {
            widths.len()
        };
        let ghost cf = |i: int| jira_cell(cells, widths@, numeric_flags(*data), i);
        out.push('|');
        let mut c: usize = 0;
        while c < n
            invariant
                c <= n,
                n == shown(cells, widths@),
                n <= row@.len(),
                n <= widths@.len(),
                row.deep_view() == cells,
                aligns@.len() >= n,
                aligns@ == numeric_flags(*data),
                cf == (|i: int| jira_cell(cells, widths@, numeric_flags(*data), i)),
                out@ == before + seq!['|'] + concat_map(c as nat, cf),
            decreases n - c,
        {
            out.push(' ');
            push_cell(&mut out, &row[c], widths[c], aligns[c]);
            out.push(' ');
            out.push('|');
            assert(out@ =~= before + seq!['|'] + concat_map((c + 1) as nat, cf));
            c = c + 1;
        }
        out.push('\n');
        assert(out@ =~= before + jira_row(cells, widths@, numeric_flags(*data)));
        assert(out@ =~= mid + concat_map((r + 1) as nat, f));
        r = r + 1;
    }
    assert(out@ =~= jira_spec(*data, widths@));
    out
}


/// One cell of an AsciiDoc row: `| cell`, then a space unless it is the last cell.
pub open spec fn asciidoc_cell(cells: Seq<Seq<char>>, widths: Seq<usize>, aligns: Seq<bool>, i: int) -> Seq<char> {
    seq!['|', ' '] + pad(cells[i], widths[i] as nat, aligns[i]) + if i + 1 < cells.len() {
        seq![' ']
    } else {
        Seq::empty()
    }
}

/// An AsciiDoc row: `| a | b` and a newline.
pub open spec fn asciidoc_row_spec(cells: Seq<Seq<char>>, widths: Seq<usize>, aligns: Seq<bool>) -> Seq<char> {
    concat_map(shown(cells, widths), |i: int| asciidoc_cell(cells, widths, aligns, i)) + seq![
        '\n',
    ]
}

/// An AsciiDoc row of `cells`.
pub fn asciidoc_row(cells: &Vec<String>, widths: &Vec<usize>, aligns: &Vec<bool>) -> (s: String)
    requires
        aligns@.len() >= shown(cells.deep_view(), widths@),
    ensures
        s@ == asciidoc_row_spec(cells.deep_view(), widths@, aligns@),
{
    let ghost f = |i: int| asciidoc_cell(cells.deep_view(), widths@, aligns@, i);
    let n = if cells.len() <= widths.len() {
        cells.len()
    } else {
        widths.len()
    };
    let mut s = String::new();
    let mut i: usize = 0;
    while i < n
        invariant
            i <= n,
            n == shown(cells.deep_view(), widths@),
            n <= cells@.len(),
            n <= widths@.len(),
            aligns@.len() >= n,
            f == (|i: int| asciidoc_cell(cells.deep_view(), widths@, aligns@, i)),
            s@ == concat_map(i as nat, f),
        decreases n - i,
    {
        s.push('|');
        s.push(' ');
        push_cell(&mut s, &cells[i], widths[i], aligns[i]);
        if i + 1 < cells.len() {
            s.push(' ');
        }
        assert(s@ =~= concat_map((i + 1) as nat, f));
        i = i + 1;
    }
    s.push('\n');
    s
}

/// One entry of the AsciiDoc `cols` attribute: `<` or `>` then the width,
/// preceded by a comma unless it is the first.
pub open spec fn cols_entry(widths: Seq<usize>, aligns: Seq<bool>, i: int) -> Seq<char> {
    (if i > 0 {
        seq![',']
    } else {
        Seq::empty()
    }) + seq![
        if aligns[i] {
            '>'
        } else {
            '<'
        },
    ] + decimal(widths[i] as nat)
}

/// `[cols="<w,>w",options="header"]` and a newline.
pub open spec fn cols_line(widths: Seq<usize>, aligns: Seq<bool>) -> Seq<char> {
    seq!['[', 'c', 'o', 'l', 's', '=', '"'] + concat_map(
        widths.len(),
        |i: int| cols_entry(widths, aligns, i),
    ) + seq!['"', ',', 'o', 'p', 't', 'i', 'o', 'n', 's', '=', '"', 'h', 'e', 'a', 'd', 'e', 'r', '"', ']', '\n']
}

/// The `|====` delimiter line.
pub open spec fn asciidoc_delim_line() -> Seq<char> {
    seq!['|', '=', '=', '=', '=', '\n']
}

/// The AsciiDoc style: the `cols` attribute line, `|====`, the header row, the
/// data rows, `|====`.
pub open spec fn asciidoc_spec(data: TableData, widths: Seq<usize>) -> Seq<char> {
    cols_line(widths, numeric_flags(data)) + asciidoc_delim_line() + asciidoc_row_spec(
        data.header_view(),
        widths,
        all_left(widths.len()),
    ) + concat_map(
        data.rows@.len(),
        |r: int| asciidoc_row_spec(data.row_view()[r], widths, numeric_flags(data)),
    ) + asciidoc_delim_line()
}

fn push_delim(out: &mut String)
    ensures
        final(out)@ == old(out)@ + asciidoc_delim_line(),
{
    out.push('|');
    out.push('=');
    out.push('=');
    out.push('=');
    out.push('=');
    out.push('\n');
    assert(final(out)@ =~= old(out)@ + asciidoc_delim_line());
}

/// Renders a table in the AsciiDoc style.
pub fn render_asciidoc(data: &TableData, widths: &Vec<usize>) -> (out: String)
    requires
        aligns_cover(*data, widths@),
        widths@.len() <= data.column_meta@.len(),
    ensures
        out@ == asciidoc_spec(*data, widths@),
{
    let aligns = numeric_aligns(data);
    let mut out = String::new();
    let open: [char; 7] = ['[', 'c', 'o', 'l', 's', '=', '"'];
    let close: [char; 20] = ['"', ',', 'o', 'p', 't', 'i', 'o', 'n', 's', '=', '"', 'h', 'e', 'a', 'd', 'e', 'r', '"', ']', '\n'];
    text::push_chars(&mut out, &open);
    let ghost f = |i: int| cols_entry(widths@, numeric_flags(*data), i);
    let mut i: usize = 0;
    while i < widths.len()
        invariant
            i <= widths@.len(),
            widths@.len() <= aligns@.len(),
            aligns@ == numeric_flags(*data),
            open@ == seq!['[', 'c', 'o', 'l', 's', '=', '"'],
            f == (|i: int| cols_entry(widths@, numeric_flags(*data), i)),
            out@ == open@ + concat_map(i as nat, f),
        decreases widths.len() - i,
    {
        let ghost before = out@;
        if i > 0 {
            out.push(',');
        }
        out.push(if aligns[i] { '>' } else { '<' });
        push_decimal(&mut out, widths[i]);
        assert(out@ =~= before + cols_entry(widths@, numeric_flags(*data), i as int));
        assert(out@ =~= open@ + concat_map((i + 1) as nat, f));
        i = i + 1;
    }
    text::push_chars(&mut out, &close);
    assert(out@ =~= cols_line(widths@, numeric_flags(*data)));
    push_delim(&mut out);
    let left = left_aligns(widths.len());
    let h = asciidoc_row(&data.headers, widths, &left);
    out.append(h.as_str());
    let ghost mid = out@;
    let ghost g = |r: int| asciidoc_row_spec(data.row_view()[r], widths@, numeric_flags(*data));
    let mut r: usize = 0;
    while r < data.rows.len()
        invariant
            r <= data.rows@.len(),
            aligns_cover(*data, widths@),
            aligns@ == numeric_flags(*data),
            g == (|r: int| asciidoc_row_spec(data.row_view()[r], widths@, numeric_flags(*data))),
            out@ == mid + concat_map(r as nat, g),
        decreases data.rows.len() - r,
    {
        assert(data.rows@[r as int].deep_view() == data.row_view()[r as int]);
        let row = asciidoc_row(&data.rows[r], widths, &aligns);
        out.append(row.as_str());
        assert(out@ =~= mid + concat_map((r + 1) as nat, g));
        r = r + 1;
    }
    push_delim(&mut out);
    assert(out@ =~= asciidoc_spec(*data, widths@));
    out
}

/// The orgtbl style: a Markdown table whose separator crosses columns with `+`.
pub fn orgtbl_config() -> (c: BoxConfig)
    ensures
        c == (BoxConfig {
            top: None,
            header_sep: LineConfig { left: '|', right: '|', cross: '+', fill: '-' },
            row_sep: None,
            bottom: None,
            cell_left: '|',
            cell_right: '|',
            cell_sep: '|',
            align_header: true,
        }),
{
    BoxConfig {
        top: None,
        header_sep: LineConfig { left: '|', right: '|', cross: '+', fill: '-' },
        row_sep: None,
        bottom: None,
        cell_left: '|',
        cell_right: '|',
        cell_sep: '|',
        align_header: true,
    }
}

/// The reStructuredText grid style: `+---+` rules, `+===+` under the header.
pub fn rst_grid_config() -> (c: BoxConfig)
    ensures
        c == (BoxConfig {
            top: Some(LineConfig { left: '+', right: '+', cross: '+', fill: '-' }),
            header_sep: LineConfig { left: '+', right: '+', cross: '+', fill: '=' },
            row_sep: Some(LineConfig { left: '+', right: '+', cross: '+', fill: '-' }),
            bottom: Some(LineConfig { left: '+', right: '+', cross: '+', fill: '-' }),
            cell_left: '|',
            cell_right: '|',
            cell_sep: '|',
            align_header: false,
        }),
{
    let thin = LineConfig { left: '+', right: '+', cross: '+', fill: '-' };
    BoxConfig {
        top: Some(thin),
        header_sep: LineConfig { left: '+', right: '+', cross: '+', fill: '=' },
        row_sep: Some(thin),
        bottom: Some(thin),
        cell_left: '|',
        cell_right: '|',
        cell_sep: '|',
        align_header: false,
    }
}

/// The heavy-outline style: heavy box-drawing borders, no row rules.
pub fn heavy_outline_config() -> (c: BoxConfig)
    ensures
        c == (BoxConfig {
            top: Some(LineConfig { left: '┏', right: '┓', cross: '┳', fill: '━' }),
            header_sep: LineConfig { left: '┣', right: '┫', cross: '╋', fill: '━' },
            row_sep: None,
            bottom: Some(LineConfig { left: '┗', right: '┛', cross: '┻', fill: '━' }),
            cell_left: '┃',
            cell_right: '┃',
            cell_sep: '┃',
            align_header: false,
        }),
{
    BoxConfig {
        top: Some(LineConfig { left: '┏', right: '┓', cross: '┳', fill: '━' }),
        header_sep: LineConfig { left: '┣', right: '┫', cross: '╋', fill: '━' },
        row_sep: None,
        bottom: Some(LineConfig { left: '┗', right: '┛', cross: '┻', fill: '━' }),
        cell_left: '┃',
        cell_right: '┃',
        cell_sep: '┃',
        align_header: false,
    }
}


/// The records a table is built from: the header row, then the data rows.
pub open spec fn records_of(data: TableData) -> Seq<Seq<Seq<char>>> {
    seq![data.header_view()] + data.row_view()
}

/// The records and width of a builder after the given records are pushed
/// into a new one, in order.
pub open spec fn grid_of(recs: Seq<Seq<Seq<char>>>) -> (Seq<Seq<Seq<char>>>, nat)
    decreases recs.len(),
{
    if recs.len() == 0 {
        (Seq::empty(), 0)
    } else {
        let p = grid_of(recs.drop_last());
        (
            tabled_api::pushed_records(p.0, p.1, recs.last()),
            tabled_api::pushed_width(p.1, recs.last()),
        )
    }
}

/// Records that all have the same length `w` reach `tabled` as they are.
pub proof fn law_even_records_unfilled(recs: Seq<Seq<Seq<char>>>, w: nat)
    requires
        recs.len() > 0,
        forall|r: int| 0 <= r < recs.len() ==> (#[trigger] recs[r]).len() == w,
    ensures
        grid_of(recs) == (recs, w),
    decreases recs.len(),
{
    let init = recs.drop_last();
    let last = recs.last();
    assert(last.len() == w);
    assert(tabled_api::fill_to(last, w) == last);
    if init.len() > 0 {
        law_even_records_unfilled(init, w);
        assert(tabled_api::pushed_width(w, last) == w);
        assert(tabled_api::blanks(0) =~= Seq::<Seq<char>>::empty());
        let g = tabled_api::pushed_records(init, w, last);
        assert forall|r: int| 0 <= r < recs.len() implies #[trigger] g[r] == recs[r] by {
            if r < init.len() {
                assert(init[r] + tabled_api::blanks(0) =~= init[r]);
            }
        }
        assert(g =~= recs);
        assert(grid_of(recs) == (g, w));
    } else {
        assert(grid_of(init) == (Seq::<Seq<Seq<char>>>::empty(), 0nat));
        assert(tabled_api::fill_to(last, 0) == last);
        let g = tabled_api::pushed_records(Seq::empty(), 0, last);
        assert(g =~= recs);
        assert(grid_of(recs) == (g, w));
    }
}

/// Right alignment for each numeric column among the first `n` analyses.
pub open spec fn align_settings(meta: Seq<crate::model::ColumnMeta>, n: nat) -> Seq<TableSetting>
    decreases n,
{
    if n == 0 {
        Seq::empty()
    } else {
        let p = align_settings(meta, (n - 1) as nat);
        if meta[n - 1].is_numeric {
            p.push(TableSetting::AlignRight((n - 1) as usize))
        } else {
            p
        }
    }
}

/// The settings a `tabled` rendering applies: the style, right alignment of
/// the numeric columns, and colours when writing to a terminal.
pub open spec fn tabled_settings(data: TableData, style: TabledStyle, color: ColorMode, is_tty: bool) -> Seq<TableSetting> {
    seq![TableSetting::Style(style)] + align_settings(data.column_meta@, data.column_meta@.len())
        + if is_tty {
        color::color_settings(color, data.headers@.len() as nat, data.rows@.len() as nat)
    } else {
        Seq::empty()
    }
}

/// A `tabled` table of the header row and the data rows.
fn build_table(data: &TableData) -> (t: Table)
    ensures
        tabled_api::table_records(t) == grid_of(records_of(*data)).0,
        tabled_api::table_settings(t) == Seq::<TableSetting>::empty(),
{
    let ghost recs = records_of(*data);
    let mut builder = tabled_api::new_builder();
    tabled_api::push_record(&mut builder, &data.headers);
    assert(recs.take(1).drop_last() =~= Seq::<Seq<Seq<char>>>::empty());
    assert(grid_of(recs.take(1).drop_last()) == (Seq::<Seq<Seq<char>>>::empty(), 0nat));
    assert(recs.take(1).last() == data.headers.deep_view());
    let mut r: usize = 0;
    while r < data.rows.len()
        invariant
            r <= data.rows@.len(),
            recs == records_of(*data),
            tabled_api::builder_records(builder) == grid_of(recs.take(r + 1)).0,
            tabled_api::builder_width(builder) == grid_of(recs.take(r + 1)).1,
        decreases data.rows.len() - r,
    {
        assert(recs.take(r + 2).drop_last() =~= recs.take(r + 1));
        assert(recs.take(r + 2).last() == data.rows@[r as int].deep_view());
        tabled_api::push_record(&mut builder, &data.rows[r]);
        r = r + 1;
    }
    assert(recs.take(data.rows@.len() as int + 1) =~= recs);
    tabled_api::build(builder)
}

/// Right-aligns the numeric columns, colours when writing to a terminal, and
/// renders.
fn finish_table(table: Table, data: &TableData, color: &ColorMode, is_tty: bool) -> (s: String)
    ensures
        s@ == tabled_api::tabled_text(
            tabled_api::table_records(table),
            tabled_api::table_settings(table) + align_settings(
                data.column_meta@,
                data.column_meta@.len(),
            ) + if is_tty {
                color::color_settings(*color, data.headers@.len() as nat, data.rows@.len() as nat)
            } else {
                Seq::empty()
            },
        ),
{
    let ghost recs = tabled_api::table_records(table);
    let mut table = table;
    let ghost start = tabled_api::table_settings(table);
    let mut i: usize = 0;
    while i < data.column_meta.len()
        invariant
            i <= data.column_meta@.len(),
            tabled_api::table_records(table) == recs,
            tabled_api::table_settings(table) == start + align_settings(data.column_meta@, i as nat),
        decreases data.column_meta.len() - i,
    {
        if data.column_meta[i].is_numeric {
            tabled_api::align_right(&mut table, i);
        }
        i = i + 1;
        assert(tabled_api::table_settings(table) =~= start + align_settings(
            data.column_meta@,
            i as nat,
        ));
    }
    if is_tty {
        color::apply(&mut table, color, data.headers.len(), data.rows.len());
    }
    let ghost fin = tabled_api::table_settings(table);
    assert(fin =~= start + align_settings(data.column_meta@, data.column_meta@.len()) + if is_tty {
        color::color_settings(*color, data.headers@.len() as nat, data.rows@.len() as nat)
    } else {
        Seq::empty()
    });
    tabled_api::table_to_string(&table)
}

/// The `tabled` preset of a style, for the styles `tabled` renders.
pub open spec fn preset_of(fmt: OutputFormat) -> Option<TabledStyle> {
    match fmt {
        OutputFormat::Github => Some(TabledStyle::Markdown),
        OutputFormat::Psql => Some(TabledStyle::Psql),
        OutputFormat::Rst => Some(TabledStyle::ReStructuredText),
        OutputFormat::Dots => Some(TabledStyle::Dots),
        OutputFormat::Ascii => Some(TabledStyle::Ascii),
        OutputFormat::Modern => Some(TabledStyle::Modern),
        OutputFormat::Sharp => Some(TabledStyle::Sharp),
        OutputFormat::Extended => Some(TabledStyle::Extended),
        _ => None,
    }
}

/// The widths of all columns of `data`.
pub open spec fn widths_of(data: TableData) -> Seq<usize> {
    Seq::new(
        data.headers@.len(),
        |i: int| col_width(data.header_view(), data.row_view(), i) as usize,
    )
}

/// The box configuration of a box style.
pub open spec fn box_config_of(fmt: OutputFormat) -> BoxConfig {
    match fmt {
        OutputFormat::Orgtbl => BoxConfig {
            top: None,
            header_sep: LineConfig { left: '|', right: '|', cross: '+', fill: '-' },
            row_sep: None,
            bottom: None,
            cell_left: '|',
            cell_right: '|',
            cell_sep: '|',
            align_header: true,
        },
        OutputFormat::RstGrid => BoxConfig {
            top: Some(LineConfig { left: '+', right: '+', cross: '+', fill: '-' }),
            header_sep: LineConfig { left: '+', right: '+', cross: '+', fill: '=' },
            row_sep: Some(LineConfig { left: '+', right: '+', cross: '+', fill: '-' }),
            bottom: Some(LineConfig { left: '+', right: '+', cross: '+', fill: '-' }),
            cell_left: '|',
            cell_right: '|',
            cell_sep: '|',
            align_header: false,
        },
        _ => BoxConfig {
            top: Some(LineConfig { left: '┏', right: '┓', cross: '┳', fill: '━' }),
            header_sep: LineConfig { left: '┣', right: '┫', cross: '╋', fill: '━' },
            row_sep: None,
            bottom: Some(LineConfig { left: '┗', right: '┛', cross: '┻', fill: '━' }),
            cell_left: '┃',
            cell_right: '┃',
            cell_sep: '┃',
            align_header: false,
        },
    }
}

/// The text of `data` rendered in style `fmt`: by `tabled` for its presets
/// (colours only on a terminal), by the library's own renderers for Jira,
/// AsciiDoc, orgtbl, RST grid and heavy outline.
pub open spec fn rendered(data: TableData, fmt: OutputFormat, color: ColorMode, is_tty: bool) -> Seq<char> {
    match preset_of(fmt) {
        Some(p) => tabled_api::tabled_text(grid_of(records_of(data)).0, tabled_settings(data, p, color, is_tty)),
        None => match fmt {
            OutputFormat::Jira => jira_spec(data, widths_of(data)),
            OutputFormat::Asciidoc => asciidoc_spec(data, widths_of(data)),
            _ => box_spec(data, widths_of(data), box_config_of(fmt)),
        },
    }
}

/// Every row has a cell for every header and every header has an analysis
/// (what the styles drawn by the library itself need).
pub open spec fn renderable(data: TableData) -> bool {
    data.column_meta@.len() >= data.headers@.len() && crate::model::rows_cover(
        data.row_view(),
        data.headers@.len() as int,
    )
}

/// Whether `tabled` draws style `fmt` (by a preset).
pub fn is_preset(fmt: &OutputFormat) -> (r: bool)
    ensures
        r == preset_of(*fmt) is Some,
{
    match fmt {
        OutputFormat::Github | OutputFormat::Psql | OutputFormat::Rst | OutputFormat::Dots
        | OutputFormat::Ascii | OutputFormat::Modern | OutputFormat::Sharp
        | OutputFormat::Extended => true,
        _ => false,
    }
}

/// Renders `data` in style `fmt`; colours apply only when `is_tty`. The
/// `tabled` presets take rows of any length; the other styles need
/// `renderable` data.
pub fn render(data: &TableData, fmt: &OutputFormat, color: &ColorMode, is_tty: bool) -> (s: String)
    requires
        preset_of(*fmt) is None ==> renderable(*data),
    ensures
        s@ == rendered(*data, *fmt, *color, is_tty),
{
    let preset = match fmt {
        OutputFormat::Github => Some(TabledStyle::Markdown),
        OutputFormat::Psql => Some(TabledStyle::Psql),
        OutputFormat::Rst => Some(TabledStyle::ReStructuredText),
        OutputFormat::Dots => Some(TabledStyle::Dots),
        OutputFormat::Ascii => Some(TabledStyle::Ascii),
        OutputFormat::Modern => Some(TabledStyle::Modern),
        OutputFormat::Sharp => Some(TabledStyle::Sharp),
        OutputFormat::Extended => Some(TabledStyle::Extended),
        _ => None,
    };
    match preset {
        Some(p) => {
            let mut table = build_table(data);
            tabled_api::with_style(&mut table, p);
            let s = finish_table(table, data, color, is_tty);
            assert(seq![TableSetting::Style(p)] + align_settings(
                data.column_meta@,
                data.column_meta@.len(),
            ) + (if is_tty {
                color::color_settings(*color, data.headers@.len() as nat, data.rows@.len() as nat)
            } else {
                Seq::empty()
            }) =~= tabled_settings(*data, p, *color, is_tty));
            s
        },
        None => {
            let widths = col_widths(data);
            assert(widths@ =~= widths_of(*data));
            assert(aligns_cover(*data, widths@));
            match fmt {
                OutputFormat::Jira => render_jira(data, &widths),
                OutputFormat::Asciidoc => render_asciidoc(data, &widths),
                OutputFormat::Orgtbl => render_box(data, &widths, &orgtbl_config()),
                OutputFormat::RstGrid => render_box(data, &widths, &rst_grid_config()),
                _ => render_box(data, &widths, &heavy_outline_config()),
            }
        },
    }
}


/// The widest cell of a column is at least as wide as each of its cells.
proof fn lemma_max_cell_len(rows: Seq<Seq<Seq<char>>>, i: int, r: int)
    requires
        0 <= r < rows.len(),
    ensures
        rows[r][i].len() <= max_cell_len(rows, i),
    decreases rows.len(),
{
    if r < rows.len() - 1 {
        lemma_max_cell_len(rows.drop_last(), i, r);
    }
}

/// Every header and every cell fits the width of its column.
pub proof fn law_cells_fit_widths(headers: Seq<Seq<char>>, rows: Seq<Seq<Seq<char>>>)
    requires
        crate::model::rows_cover(rows, headers.len() as int),
    ensures
        forall|i: int| 0 <= i < headers.len() ==> #[trigger] headers[i].len() <= col_width(headers, rows, i),
        forall|r: int, i: int|
            0 <= r < rows.len() && 0 <= i < headers.len() ==> #[trigger] rows[r][i].len() <= col_width(
                headers,
                rows,
                i,
            ),
{
    assert forall|r: int, i: int| 0 <= r < rows.len() && 0 <= i < headers.len() implies #[trigger] rows[r][i].len()
        <= col_width(headers, rows, i) by {
        lemma_max_cell_len(rows, i, r);
    }
}

/// Two concatenations of pieces of equal lengths are equally long.
proof fn lemma_concat_map_len(n: nat, f: spec_fn(int) -> Seq<char>, g: spec_fn(int) -> Seq<char>)
    requires
        forall|i: int| 0 <= i < n ==> #[trigger] f(i).len() == g(i).len(),
    ensures
        concat_map(n, f).len() == concat_map(n, g).len(),
    decreases n,
{
    if n > 0 {
        lemma_concat_map_len((n - 1) as nat, f, g);
    }
}

/// A padded cell that fits its width is exactly that wide.
proof fn lemma_pad_len(cell: Seq<char>, width: nat, right_align: bool)
    requires
        cell.len() <= width,
    ensures
        pad(cell, width, right_align).len() == width,
{
}

/// In a box style a row with one cell per column, each fitting its width, is
/// exactly as long as a rule across those columns.
pub proof fn law_box_row_matches_rule(
    cells: Seq<Seq<char>>,
    widths: Seq<usize>,
    aligns: Seq<bool>,
    cfg: BoxConfig,
    rule: LineConfig,
)
    requires
        cells.len() == widths.len(),
        forall|i: int| 0 <= i < cells.len() ==> #[trigger] cells[i].len() <= widths[i],
    ensures
        box_row_spec(cells, widths, aligns, cfg).len() == rule_spec(rule, widths).len(),
{
    let f = |i: int| box_cell(cells, widths, aligns, cfg.cell_sep, i);
    let g = |i: int| rule_segment(rule, widths, i);
    assert forall|i: int| 0 <= i < widths.len() implies #[trigger] f(i).len() == g(i).len() by {
        lemma_pad_len(cells[i], widths[i] as nat, aligns[i]);
    }
    lemma_concat_map_len(widths.len(), f, g);
}

/// A box table is aligned: its header row and each data row are as long as
/// its rules, when every row has one cell per header (and the column widths
/// fit in a `usize`, as they do for texts in memory).
pub proof fn law_box_table_aligned(data: TableData, cfg: BoxConfig, rule: LineConfig)
    requires
        forall|r: int| 0 <= r < data.rows@.len() ==> #[trigger] data.row_view()[r].len() == data.headers@.len(),
        forall|i: int|
            0 <= i < data.headers@.len() ==> #[trigger] col_width(data.header_view(), data.row_view(), i)
                <= usize::MAX,
    ensures
        box_row_spec(data.header_view(), widths_of(data), header_aligns(data, cfg), cfg).len()
            == rule_spec(rule, widths_of(data)).len(),
        forall|r: int|
            0 <= r < data.rows@.len() ==> #[trigger] box_row_spec(
                data.row_view()[r],
                widths_of(data),
                numeric_flags(data),
                cfg,
            ).len() == rule_spec(rule, widths_of(data)).len(),
{
    let h = data.header_view();
    let rows = data.row_view();
    let w = widths_of(data);
    assert(crate::model::rows_cover(rows, h.len() as int));
    law_cells_fit_widths(h, rows);
    assert forall|i: int| 0 <= i < h.len() implies #[trigger] h[i].len() <= w[i] by {
        assert(h[i].len() <= col_width(h, rows, i));
    }
    law_box_row_matches_rule(h, w, header_aligns(data, cfg), cfg, rule);
    assert forall|r: int| 0 <= r < data.rows@.len() implies #[trigger] box_row_spec(
        data.row_view()[r],
        widths_of(data),
        numeric_flags(data),
        cfg,
    ).len() == rule_spec(rule, widths_of(data)).len() by {
        let cells = rows[r];
        assert forall|i: int| 0 <= i < cells.len() implies #[trigger] cells[i].len() <= w[i] by {
            assert(rows[r][i].len() <= col_width(h, rows, i));
        }
        law_box_row_matches_rule(cells, w, numeric_flags(data), cfg, rule);
    }
}


/// The widths of the first `n` columns, each with a space on either side,
/// added up.
pub open spec fn padded_total(widths: Seq<usize>, n: nat) -> nat
    decreases n,
{
    if n == 0 {
        0
    } else {
        padded_total(widths, (n - 1) as nat) + widths[n - 1] as nat + 2
    }
}

proof fn lemma_rule_segments_len(rule: LineConfig, widths: Seq<usize>, k: nat)
    requires
        0 < widths.len(),
        k <= widths.len(),
    ensures
        concat_map(k, |i: int| rule_segment(rule, widths, i)).len() == padded_total(widths, k) + if k
            < widths.len() {
            k as int
        } else {
            k - 1
        },
    decreases k,
{
    if k > 0 {
        lemma_rule_segments_len(rule, widths, (k - 1) as nat);
    }
}

/// A rule across columns is as wide as the columns with a space on either
/// side, plus a border at each end and a crossing between each two columns;
/// then a newline.
pub proof fn law_rule_width(rule: LineConfig, widths: Seq<usize>)
    requires
        widths.len() > 0,
    ensures
        rule_spec(rule, widths).len() == widths.len() + 1 + padded_total(widths, widths.len()) + 1,
{
    lemma_rule_segments_len(rule, widths, widths.len());
}

/// Pieces that agree give the same concatenation.
proof fn lemma_concat_map_same(n: nat, f: spec_fn(int) -> Seq<char>, g: spec_fn(int) -> Seq<char>)
    requires
        forall|i: int| 0 <= i < n ==> #[trigger] f(i) == g(i),
    ensures
        concat_map(n, f) == concat_map(n, g),
    decreases n,
{
    if n > 0 {
        lemma_concat_map_same((n - 1) as nat, f, g);
        assert(f(n - 1) == g(n - 1));
    }
}

/// `cell` in a field `w` wide: after the spaces that fill the field when
/// `right`, else before them.
pub open spec fn set_in_field(cell: Seq<char>, w: nat, right: bool) -> Seq<char> {
    if right {
        Seq::new((w - cell.len()) as nat, |k: int| ' ') + cell
    } else {
        cell + Seq::new((w - cell.len()) as nat, |k: int| ' ')
    }
}

/// A Markdown row of cells that fit their fields: `|`, then for each cell a
/// space, the cell set in its field, a space and (but after the last) `|`;
/// then `|` and a newline.
pub open spec fn markdown_row(cells: Seq<Seq<char>>, widths: Seq<usize>, right: spec_fn(int) -> bool) -> Seq<
    char,
> {
    seq!['|'] + concat_map(
        shown(cells, widths),
        |i: int|
            seq![' '] + set_in_field(cells[i], widths[i] as nat, right(i)) + seq![' '] + if i + 1
                < cells.len() {
                seq!['|']
            } else {
                Seq::empty()
            },
    ) + seq!['|', '\n']
}

/// Cells that fit the widths of their columns.
pub open spec fn fit_widths(cells: Seq<Seq<char>>, widths: Seq<usize>) -> bool {
    forall|i: int| 0 <= i < shown(cells, widths) ==> #[trigger] cells[i].len() <= widths[i]
}

proof fn lemma_pipe_row_is_markdown_row(
    cells: Seq<Seq<char>>,
    widths: Seq<usize>,
    aligns: Seq<bool>,
    right: spec_fn(int) -> bool,
)
    requires
        fit_widths(cells, widths),
        forall|i: int| 0 <= i < shown(cells, widths) ==> #[trigger] right(i) == aligns[i],
    ensures
        pipe_row_spec(cells, widths, aligns) == markdown_row(cells, widths, right),
{
    let f = |i: int| pipe_cell(cells, widths, aligns, i);
    let g = |i: int|
        seq![' '] + set_in_field(cells[i], widths[i] as nat, right(i)) + seq![' '] + if i + 1
            < cells.len() {
            seq!['|']
        } else {
            Seq::empty()
        };
    assert forall|i: int| 0 <= i < shown(cells, widths) implies #[trigger] f(i) == g(i) by {
        assert(cells[i].len() <= widths[i]);
        assert(pad(cells[i], widths[i] as nat, aligns[i]) =~= set_in_field(cells[i], widths[i] as nat, right(i)));
    }
    lemma_concat_map_same(shown(cells, widths), f, g);
}

/// The Reddit style sets its header cells to the left of their fields and the
/// cells of a data row to the right when their column is numeric, else to the
/// left, when every cell fits its column.
pub proof fn law_reddit_alignment(data: TableData, widths: Seq<usize>)
    requires
        data.column_meta@.len() >= widths.len(),
        fit_widths(data.header_view(), widths),
        forall|r: int| 0 <= r < data.rows@.len() ==> fit_widths(#[trigger] data.row_view()[r], widths),
    ensures
        reddit_spec(data, widths) == markdown_row(data.header_view(), widths, |i: int| false) + reddit_rule(
            widths,
        ) + concat_map(
            data.rows@.len(),
            |r: int| markdown_row(data.row_view()[r], widths, |i: int| data.column_meta@[i].is_numeric),
        ),
{
    let right = |i: int| data.column_meta@[i].is_numeric;
    let left = |i: int| false;
    lemma_pipe_row_is_markdown_row(data.header_view(), widths, all_left(widths.len()), left);
    let f = |r: int| pipe_row_spec(data.row_view()[r], widths, numeric_flags(data));
    let g = |r: int| markdown_row(data.row_view()[r], widths, right);
    assert forall|r: int| 0 <= r < data.rows@.len() implies #[trigger] f(r) == g(r) by {
        lemma_pipe_row_is_markdown_row(data.row_view()[r], widths, numeric_flags(data), right);
    }
    lemma_concat_map_same(data.rows@.len(), f, g);
}

/// A cell that fits its field is padded as `set_in_field` sets it.
proof fn lemma_pad_sets(cell: Seq<char>, w: nat, right: bool)
    requires
        cell.len() <= w,
    ensures
        pad(cell, w, right) == set_in_field(cell, w, right),
{
    assert(pad(cell, w, right) =~= set_in_field(cell, w, right));
}

/// The Jira style sets its header cells to the left of their fields and the
/// cells of a data row to the right when their column is numeric, else to
/// the left, when every cell fits its column: `|| h ||` for each header,
/// `| c |` for each data cell.
pub proof fn law_jira_alignment(data: TableData, widths: Seq<usize>)
    requires
        data.column_meta@.len() >= widths.len(),
        fit_widths(data.header_view(), widths),
        forall|r: int| 0 <= r < data.rows@.len() ==> fit_widths(#[trigger] data.row_view()[r], widths),
    ensures
        jira_spec(data, widths) == seq!['|', '|'] + concat_map(
            shown(data.header_view(), widths),
            |i: int|
                seq![' '] + set_in_field(data.header_view()[i], widths[i] as nat, false) + seq![
                    ' ',
                    '|',
                    '|',
                ],
        ) + seq!['\n'] + concat_map(
            data.rows@.len(),
            |r: int|
                seq!['|'] + concat_map(
                    shown(data.row_view()[r], widths),
                    |i: int|
                        seq![' '] + set_in_field(
                            data.row_view()[r][i],
                            widths[i] as nat,
                            data.column_meta@[i].is_numeric,
                        ) + seq![' ', '|'],
                ) + seq!['\n'],
        ),
{
    let h = data.header_view();
    let fh = |i: int| jira_head_cell(h, widths, i);
    let gh = |i: int| seq![' '] + set_in_field(h[i], widths[i] as nat, false) + seq![' ', '|', '|'];
    assert forall|i: int| 0 <= i < shown(h, widths) implies #[trigger] fh(i) == gh(i) by {
        assert(h[i].len() <= widths[i]);
        lemma_pad_sets(h[i], widths[i] as nat, false);
    }
    lemma_concat_map_same(shown(h, widths), fh, gh);
    let f = |r: int| jira_row(data.row_view()[r], widths, numeric_flags(data));
    let g = |r: int|
        seq!['|'] + concat_map(
            shown(data.row_view()[r], widths),
            |i: int|
                seq![' '] + set_in_field(data.row_view()[r][i], widths[i] as nat, data.column_meta@[i].is_numeric)
                    + seq![' ', '|'],
        ) + seq!['\n'];
    assert forall|r: int| 0 <= r < data.rows@.len() implies #[trigger] f(r) == g(r) by {
        let cells = data.row_view()[r];
        assert(fit_widths(cells, widths));
        let fc = |i: int| jira_cell(cells, widths, numeric_flags(data), i);
        let gc = |i: int|
            seq![' '] + set_in_field(cells[i], widths[i] as nat, data.column_meta@[i].is_numeric) + seq![' ', '|'];
        assert forall|i: int| 0 <= i < shown(cells, widths) implies #[trigger] fc(i) == gc(i) by {
            assert(cells[i].len() <= widths[i]);
            lemma_pad_sets(cells[i], widths[i] as nat, data.column_meta@[i].is_numeric);
        }
        lemma_concat_map_same(shown(cells, widths), fc, gc);
    }
    lemma_concat_map_same(data.rows@.len(), f, g);
}

/// A row of a box style: its left border, then for each cell a space, the
/// cell set in its field, a space and (but after the last) the column
/// separator; then its right border and a newline.
pub open spec fn framed_row(cells: Seq<Seq<char>>, widths: Seq<usize>, right: spec_fn(int) -> bool, cfg: BoxConfig) -> Seq<
    char,
> {
    seq![cfg.cell_left] + concat_map(
        shown(cells, widths),
        |i: int|
            seq![' '] + set_in_field(cells[i], widths[i] as nat, right(i)) + seq![' '] + if i + 1
                < cells.len() {
                seq![cfg.cell_sep]
            } else {
                Seq::empty()
            },
    ) + seq![cfg.cell_right, '\n']
}

proof fn lemma_box_row_is_framed_row(
    cells: Seq<Seq<char>>,
    widths: Seq<usize>,
    aligns: Seq<bool>,
    right: spec_fn(int) -> bool,
    cfg: BoxConfig,
)
    requires
        fit_widths(cells, widths),
        forall|i: int| 0 <= i < shown(cells, widths) ==> #[trigger] right(i) == aligns[i],
    ensures
        box_row_spec(cells, widths, aligns, cfg) == framed_row(cells, widths, right, cfg),
{
    let f = |i: int| box_cell(cells, widths, aligns, cfg.cell_sep, i);
    let g = |i: int|
        seq![' '] + set_in_field(cells[i], widths[i] as nat, right(i)) + seq![' '] + if i + 1
            < cells.len() {
            seq![cfg.cell_sep]
        } else {
            Seq::empty()
        };
    assert forall|i: int| 0 <= i < shown(cells, widths) implies #[trigger] f(i) == g(i) by {
        assert(cells[i].len() <= widths[i]);
        lemma_pad_sets(cells[i], widths[i] as nat, aligns[i]);
    }
    lemma_concat_map_same(shown(cells, widths), f, g);
}

/// The box styles (orgtbl, RST grid, heavy outline) set the cells of a data
/// row to the right of their fields when their column is numeric, else to
/// the left; header cells go to the right only in a style that aligns its
/// header (orgtbl) and when their column is numeric. This holds when every
/// cell fits its column.
pub proof fn law_box_alignment(data: TableData, widths: Seq<usize>, cfg: BoxConfig)
    requires
        data.column_meta@.len() >= widths.len(),
        data.column_meta@.len() >= data.headers@.len(),
        fit_widths(data.header_view(), widths),
        forall|r: int| 0 <= r < data.rows@.len() ==> fit_widths(#[trigger] data.row_view()[r], widths),
    ensures
        box_row_spec(data.header_view(), widths, header_aligns(data, cfg), cfg) == framed_row(
            data.header_view(),
            widths,
            |i: int| cfg.align_header && data.column_meta@[i].is_numeric,
            cfg,
        ),
        forall|r: int|
            0 <= r < data.rows@.len() ==> #[trigger] box_body_row(data, widths, cfg, r) == framed_row(
                data.row_view()[r],
                widths,
                |i: int| data.column_meta@[i].is_numeric,
                cfg,
            ) + if r + 1 < data.rows@.len() {
                opt_rule(cfg.row_sep, widths)
            } else {
                Seq::empty()
            },
{
    let h = data.header_view();
    lemma_box_row_is_framed_row(
        h,
        widths,
        header_aligns(data, cfg),
        |i: int| cfg.align_header && data.column_meta@[i].is_numeric,
        cfg,
    );
    assert forall|r: int| 0 <= r < data.rows@.len() implies #[trigger] box_body_row(data, widths, cfg, r)
        == framed_row(data.row_view()[r], widths, |i: int| data.column_meta@[i].is_numeric, cfg) + if r + 1
        < data.rows@.len() {
        opt_rule(cfg.row_sep, widths)
    } else {
        Seq::empty()
    } by {
        lemma_box_row_is_framed_row(
            data.row_view()[r],
            widths,
            numeric_flags(data),
            |i: int| data.column_meta@[i].is_numeric,
            cfg,
        );
    }
}

/// An AsciiDoc row: for each cell `| ` and the cell set in its field, a space
/// between cells; then a newline.
pub open spec fn asciidoc_set_row(cells: Seq<Seq<char>>, widths: Seq<usize>, right: spec_fn(int) -> bool) -> Seq<
    char,
> {
    concat_map(
        shown(cells, widths),
        |i: int|
            seq!['|', ' '] + set_in_field(cells[i], widths[i] as nat, right(i)) + if i + 1 < cells.len() {
                seq![' ']
            } else {
                Seq::empty()
            },
    ) + seq!['\n']
}

/// The AsciiDoc style sets the cells of a data row to the right of their
/// fields when their column is numeric, else to the left, when every cell
/// fits its column.
pub proof fn law_asciidoc_alignment(data: TableData, widths: Seq<usize>)
    requires
        data.column_meta@.len() >= widths.len(),
        forall|r: int| 0 <= r < data.rows@.len() ==> fit_widths(#[trigger] data.row_view()[r], widths),
    ensures
        asciidoc_spec(data, widths) == cols_line(widths, numeric_flags(data)) + asciidoc_delim_line()
            + asciidoc_row_spec(data.header_view(), widths, all_left(widths.len())) + concat_map(
            data.rows@.len(),
            |r: int| asciidoc_set_row(data.row_view()[r], widths, |i: int| data.column_meta@[i].is_numeric),
        ) + asciidoc_delim_line(),
{
    let right = |i: int| data.column_meta@[i].is_numeric;
    let f = |r: int| asciidoc_row_spec(data.row_view()[r], widths, numeric_flags(data));
    let g = |r: int| asciidoc_set_row(data.row_view()[r], widths, right);
    assert forall|r: int| 0 <= r < data.rows@.len() implies #[trigger] f(r) == g(r) by {
        let cells = data.row_view()[r];
        assert(fit_widths(cells, widths));
        let fc = |i: int| asciidoc_cell(cells, widths, numeric_flags(data), i);
        let gc = |i: int|
            seq!['|', ' '] + set_in_field(cells[i], widths[i] as nat, right(i)) + if i + 1 < cells.len() {
                seq![' ']
            } else {
                Seq::empty()
            };
        assert forall|i: int| 0 <= i < shown(cells, widths) implies #[trigger] fc(i) == gc(i) by {
            assert(cells[i].len() <= widths[i]);
            lemma_pad_sets(cells[i], widths[i] as nat, right(i));
        }
        lemma_concat_map_same(shown(cells, widths), fc, gc);
    }
    lemma_concat_map_same(data.rows@.len(), f, g);
}

/// The cells of a box row with the spaces around them, as the row writes
/// them between its separators.
pub open spec fn padded_cells(cells: Seq<Seq<char>>, widths: Seq<usize>, aligns: Seq<bool>) -> Seq<Seq<char>> {
    Seq::new(
        cells.len(),
        |i: int| seq![' '] + pad(cells[i], widths[i] as nat, aligns[i]) + seq![' '],
    )
}

/// A padded cell holds the separator only if the cell does.
proof fn lemma_padded_no_sep(cell: Seq<char>, width: nat, right: bool, sep: char)
    requires
        sep != ' ',
        !cell.contains(sep),
    ensures
        !(seq![' '] + pad(cell, width, right) + seq![' ']).contains(sep),
{
    let p = seq![' '] + pad(cell, width, right) + seq![' '];
    if p.contains(sep) {
        let j = choose|j: int| 0 <= j < p.len() && p[j] == sep;
        let fill = if cell.len() < width {
            repeat(' ', (width - cell.len()) as nat)
        } else {
            Seq::empty()
        };
        if right {
            assert(p =~= seq![' '] + fill + cell + seq![' ']);
            if 1 + fill.len() <= j < 1 + fill.len() + cell.len() {
                assert(cell[j - 1 - fill.len()] == sep);
            }
        } else {
            assert(p =~= seq![' '] + cell + fill + seq![' ']);
            if 1 <= j < 1 + cell.len() {
                assert(cell[j - 1] == sep);
            }
        }
    }
}

/// Splitting the first `k` cells of a box row at its separator.
proof fn lemma_box_row_split(
    cells: Seq<Seq<char>>,
    widths: Seq<usize>,
    aligns: Seq<bool>,
    sep: char,
    f: spec_fn(int) -> Seq<char>,
    k: nat,
)
    requires
        0 < cells.len(),
        cells.len() == widths.len(),
        k <= cells.len(),
        sep != ' ',
        forall|i: int| 0 <= i < cells.len() ==> !(#[trigger] cells[i]).contains(sep),
        forall|i: int| #[trigger] f(i) == box_cell(cells, widths, aligns, sep, i),
    ensures
        table_parse::split_on(seq![sep] + concat_map(k, f), sep) == seq![Seq::<char>::empty()]
            + padded_cells(cells, widths, aligns).take(k as int) + if k < cells.len() {
            seq![Seq::<char>::empty()]
        } else {
            Seq::<Seq<char>>::empty()
        },
    decreases k,
{
    let n = cells.len();
    let pd = padded_cells(cells, widths, aligns);
    let e = Seq::<char>::empty();
    if k == 0 {
        assert(seq![sep] + concat_map(0, f) =~= e.push(sep));
        table_parse::lemma_split_on_sep(e, sep);
        assert(table_parse::split_on(e, sep) == seq![e]);
        assert(pd.take(0) =~= Seq::<Seq<char>>::empty());
        assert(seq![e] + pd.take(0) + seq![e] =~= seq![e].push(e));
    } else {
        let j = (k - 1) as nat;
        lemma_box_row_split(cells, widths, aligns, sep, f, j);
        let s = seq![sep] + concat_map(j, f);
        assert(seq![sep] + concat_map(k, f) =~= s + f(j as int));
        let b = pd[j as int];
        lemma_padded_no_sep(cells[j as int], widths[j as int] as nat, aligns[j as int], sep);
        table_parse::lemma_split_on_extend(s, b, sep);
        let prev = seq![e] + pd.take(j as int) + seq![e];
        assert(prev.update(prev.len() - 1, prev.last() + b) =~= seq![e] + pd.take(k as int)) by {
            assert(prev.last() + b =~= b);
        }
        if k < n {
            assert(f(j as int) =~= b.push(sep));
            assert(s + f(j as int) =~= (s + b).push(sep));
            table_parse::lemma_split_on_sep(s + b, sep);
        } else {
            assert(f(j as int) =~= b);
            assert(seq![e] + pd.take(k as int) + Seq::<Seq<char>>::empty() =~= seq![e] + pd.take(k as int));
        }
    }
}

/// A box row reads back as the cells it was written from: cut at its
/// separator and trimmed, it gives those cells, when each is non-empty, has
/// no white space around it and holds no separator.
pub proof fn law_box_row_reads_back(cells: Seq<Seq<char>>, widths: Seq<usize>, aligns: Seq<bool>, cfg: BoxConfig)
    requires
        cfg.cell_left == cfg.cell_sep,
        cfg.cell_right == cfg.cell_sep,
        cfg.cell_sep != ' ',
        0 < cells.len(),
        cells.len() == widths.len(),
        forall|i: int|
            0 <= i < cells.len() ==> (#[trigger] cells[i]).len() > 0 && text::trim(cells[i]) == cells[i]
                && !cells[i].contains(cfg.cell_sep),
    ensures
        table_parse::cells_of(box_row_spec(cells, widths, aligns, cfg).drop_last(), cfg.cell_sep)
            == cells,
{
    let sep = cfg.cell_sep;
    let n = cells.len();
    let e = Seq::<char>::empty();
    let f = |i: int| box_cell(cells, widths, aligns, sep, i);
    lemma_box_row_split(cells, widths, aligns, sep, f, n);
    let pd = padded_cells(cells, widths, aligns);
    assert(pd.take(n as int) =~= pd);
    let body = seq![sep] + concat_map(n, f);
    let row = box_row_spec(cells, widths, aligns, cfg);
    assert(shown(cells, widths) == n);
    assert(row.drop_last() =~= body.push(sep));
    table_parse::lemma_split_on_sep(body, sep);
    let pieces = table_parse::split_on(row.drop_last(), sep);
    assert(pieces =~= (seq![e] + pd).push(e));
    let trimmed = pieces.map_values(|x: Seq<char>| text::trim(x));
    assert forall|i: int| 0 <= i < n implies #[trigger] text::trim(pd[i]) == cells[i] by {
        let c = cells[i];
        text::lemma_trimmed_ends(c);
        let w = widths[i] as nat;
        let fill = if c.len() < w {
            repeat(' ', (w - c.len()) as nat)
        } else {
            Seq::empty()
        };
        if aligns[i] {
            assert(pd[i] =~= (seq![' '] + fill) + c + seq![' ']);
            text::lemma_trim_surrounded(seq![' '] + fill, c, seq![' ']);
        } else {
            assert(pd[i] =~= seq![' '] + c + (fill + seq![' ']));
            text::lemma_trim_surrounded(seq![' '], c, fill + seq![' ']);
        }
    }
    reveal_with_fuel(text::trim_start, 2);
    reveal_with_fuel(text::trim_end, 2);
    assert(text::trim(e) == e);
    assert(trimmed =~= (seq![e] + cells).push(e));
    table_parse::lemma_keep_nonempty_push(seq![e] + cells, e);
    table_parse::lemma_keep_nonempty_front(e, cells);
    table_parse::lemma_keep_nonempty_all(cells);
}

} // verus!
