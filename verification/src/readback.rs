//! Reading a rendered table back: the lines that the box styles write parse
//! into the headers and cells they were written from.

use vstd::prelude::*;
use crate::text;
use crate::table_parse;
use crate::output;
use crate::prettify;
use crate::pipeline;
use crate::output::{BoxConfig, LineConfig};
use crate::model::TableData;
use crate::cli::{ColorMode, OutputFormat};
use crate::locate;

verus! {

/// Lines, each followed by a newline.
pub open spec fn newline_joined(ls: Seq<Seq<char>>) -> Seq<char>
    decreases ls.len(),
{
    if ls.len() == 0 {
        Seq::empty()
    } else {
        newline_joined(ls.drop_last()) + ls.last() + seq!['\n']
    }
}

/// Lines each followed by a newline are the lines joined, then a newline.
proof fn lemma_newline_joined_join(ls: Seq<Seq<char>>)
    requires
        ls.len() > 0,
    ensures
        newline_joined(ls) == text::join_lines(ls) + seq!['\n'],
    decreases ls.len(),
{
    if ls.len() == 1 {
        assert(ls.drop_last().len() == 0);
        assert(newline_joined(ls.drop_last()) == Seq::<char>::empty());
        assert(ls.last() == ls[0]);
        assert(newline_joined(ls) =~= ls[0] + seq!['\n']);
        assert(text::join_lines(ls) == ls[0]);
    } else {
        lemma_newline_joined_join(ls.drop_last());
        assert(newline_joined(ls) =~= text::join_lines(ls) + seq!['\n']);
    }
}

/// Joining two lists of lines each followed by a newline.
proof fn lemma_newline_joined_concat(a: Seq<Seq<char>>, b: Seq<Seq<char>>)
    ensures
        newline_joined(a + b) == newline_joined(a) + newline_joined(b),
    decreases b.len(),
{
    if b.len() == 0 {
        assert(a + b =~= a);
        assert(newline_joined(a) + newline_joined(b) =~= newline_joined(a));
    } else {
        lemma_newline_joined_concat(a, b.drop_last());
        assert((a + b).drop_last() =~= a + b.drop_last());
        assert((a + b).last() == b.last());
        assert(newline_joined(a + b) =~= newline_joined(a) + newline_joined(b));
    }
}

/// Every character of a concatenation satisfies `p` when every character of
/// each piece does.
proof fn lemma_concat_map_all(n: nat, f: spec_fn(int) -> Seq<char>, p: spec_fn(char) -> bool)
    requires
        forall|i: int, j: int| 0 <= i < n && 0 <= j < f(i).len() ==> p(#[trigger] f(i)[j]),
    ensures
        forall|j: int|
            0 <= j < output::concat_map(n, f).len() ==> p(#[trigger] output::concat_map(n, f)[j]),
    decreases n,
{
    if n > 0 {
        lemma_concat_map_all((n - 1) as nat, f, p);
        let a = output::concat_map((n - 1) as nat, f);
        let b = f(n - 1);
        assert(output::concat_map(n, f) == a + b);
        assert forall|j: int| 0 <= j < (a + b).len() implies p(#[trigger] (a + b)[j]) by {
            if j < a.len() {
                assert((a + b)[j] == a[j]);
            } else {
                assert((a + b)[j] == b[j - a.len()]);
            }
        }
    }
}

/// A character of one piece occurs in the concatenation.
proof fn lemma_concat_map_contains(n: nat, f: spec_fn(int) -> Seq<char>, i: int, x: char)
    requires
        0 <= i < n,
        f(i).contains(x),
    ensures
        output::concat_map(n, f).contains(x),
    decreases n,
{
    let a = output::concat_map((n - 1) as nat, f);
    let b = f(n - 1);
    assert(output::concat_map(n, f) == a + b);
    if i == n - 1 {
        let j = choose|j: int| 0 <= j < b.len() && b[j] == x;
        assert((a + b)[a.len() + j] == x);
    } else {
        lemma_concat_map_contains((n - 1) as nat, f, i, x);
        let j = choose|j: int| 0 <= j < a.len() && a[j] == x;
        assert((a + b)[j] == x);
    }
}


/// An optional rule, as a list of at most one line.
pub open spec fn opt_rule_lines(cfg: Option<LineConfig>, widths: Seq<usize>) -> Seq<Seq<char>> {
    match cfg {
        Some(c) => seq![output::rule_spec(c, widths).drop_last()],
        None => Seq::empty(),
    }
}

/// The lines of the first `k` data rows of a box table, each followed by
/// the row rule when another row comes after it.
pub open spec fn body_lines(data: TableData, widths: Seq<usize>, cfg: BoxConfig, k: nat) -> Seq<Seq<char>>
    decreases k,
{
    if k == 0 {
        Seq::empty()
    } else {
        body_lines(data, widths, cfg, (k - 1) as nat) + seq![
            output::box_row_spec(data.row_view()[k - 1], widths, output::numeric_flags(data), cfg).drop_last(),
        ] + if k < data.rows@.len() {
            opt_rule_lines(cfg.row_sep, widths)
        } else {
            Seq::empty()
        }
    }
}

/// The lines of a box table, without their newlines.
pub open spec fn box_lines(data: TableData, widths: Seq<usize>, cfg: BoxConfig) -> Seq<Seq<char>> {
    opt_rule_lines(cfg.top, widths) + seq![
        output::box_row_spec(data.header_view(), widths, output::header_aligns(data, cfg), cfg).drop_last(),
        output::rule_spec(cfg.header_sep, widths).drop_last(),
    ] + body_lines(data, widths, cfg, data.rows@.len()) + opt_rule_lines(cfg.bottom, widths)
}

/// A text ending in a newline is its one line followed by a newline.
proof fn lemma_one_line(x: Seq<char>)
    requires
        x.len() > 0,
        x.last() == '\n',
    ensures
        newline_joined(seq![x.drop_last()]) == x,
{
    let ls = seq![x.drop_last()];
    assert(ls.drop_last().len() == 0);
    assert(newline_joined(ls.drop_last()) == Seq::<char>::empty());
    assert(newline_joined(ls) =~= x);
}

/// A row ends with a newline.
proof fn lemma_row_ends(cells: Seq<Seq<char>>, widths: Seq<usize>, aligns: Seq<bool>, cfg: BoxConfig)
    ensures
        output::box_row_spec(cells, widths, aligns, cfg).len() > 0,
        output::box_row_spec(cells, widths, aligns, cfg).last() == '\n',
{
}

/// A rule ends with a newline.
proof fn lemma_rule_ends(rule: LineConfig, widths: Seq<usize>)
    ensures
        output::rule_spec(rule, widths).len() > 0,
        output::rule_spec(rule, widths).last() == '\n',
{
}

/// An optional rule is its lines, each followed by a newline.
proof fn lemma_opt_rule_lines(cfg: Option<LineConfig>, widths: Seq<usize>)
    ensures
        output::opt_rule(cfg, widths) == newline_joined(opt_rule_lines(cfg, widths)),
{
    match cfg {
        Some(c) => {
            lemma_rule_ends(c, widths);
            lemma_one_line(output::rule_spec(c, widths));
        },
        None => {},
    }
}

/// The body of a box table is its body lines, each followed by a newline.
proof fn lemma_body_lines(data: TableData, widths: Seq<usize>, cfg: BoxConfig, g: spec_fn(int) -> Seq<char>, k: nat)
    requires
        forall|r: int| #[trigger] g(r) == output::box_body_row(data, widths, cfg, r),
    ensures
        output::concat_map(k, g) == newline_joined(body_lines(data, widths, cfg, k)),
    decreases k,
{
    if k > 0 {
        let j = (k - 1) as nat;
        lemma_body_lines(data, widths, cfg, g, j);
        let row = output::box_row_spec(data.row_view()[j as int], widths, output::numeric_flags(data), cfg);
        lemma_row_ends(data.row_view()[j as int], widths, output::numeric_flags(data), cfg);
        lemma_one_line(row);
        let tail = if k < data.rows@.len() {
            opt_rule_lines(cfg.row_sep, widths)
        } else {
            Seq::empty()
        };
        lemma_opt_rule_lines(cfg.row_sep, widths);
        lemma_newline_joined_concat(body_lines(data, widths, cfg, j), seq![row.drop_last()]);
        lemma_newline_joined_concat(body_lines(data, widths, cfg, j) + seq![row.drop_last()], tail);
        assert(newline_joined(Seq::<Seq<char>>::empty()) == Seq::<char>::empty());
        assert(g(j as int) =~= row + newline_joined(tail));
    }
}

/// A box table is its lines, each followed by a newline.
proof fn lemma_box_spec_lines(data: TableData, widths: Seq<usize>, cfg: BoxConfig)
    ensures
        output::box_spec(data, widths, cfg) == newline_joined(box_lines(data, widths, cfg)),
{
    let g = |r: int| output::box_body_row(data, widths, cfg, r);
    let n = data.rows@.len();
    lemma_body_lines(data, widths, cfg, g, n);
    lemma_opt_rule_lines(cfg.top, widths);
    lemma_opt_rule_lines(cfg.bottom, widths);
    let hrow = output::box_row_spec(data.header_view(), widths, output::header_aligns(data, cfg), cfg);
    let hsep = output::rule_spec(cfg.header_sep, widths);
    lemma_row_ends(data.header_view(), widths, output::header_aligns(data, cfg), cfg);
    lemma_rule_ends(cfg.header_sep, widths);
    lemma_one_line(hrow);
    lemma_one_line(hsep);
    let top = opt_rule_lines(cfg.top, widths);
    let mid = seq![hrow.drop_last(), hsep.drop_last()];
    assert(mid =~= seq![hrow.drop_last()] + seq![hsep.drop_last()]);
    lemma_newline_joined_concat(seq![hrow.drop_last()], seq![hsep.drop_last()]);
    let body = body_lines(data, widths, cfg, n);
    let bottom = opt_rule_lines(cfg.bottom, widths);
    lemma_newline_joined_concat(top, mid);
    lemma_newline_joined_concat(top + mid, body);
    lemma_newline_joined_concat(top + mid + body, bottom);
    assert(output::box_spec(data, widths, cfg) =~= newline_joined(box_lines(data, widths, cfg)));
}


/// Every character of a rule satisfies `p` when its four characters do.
proof fn lemma_rule_chars(rule: LineConfig, widths: Seq<usize>, p: spec_fn(char) -> bool)
    requires
        p(rule.left),
        p(rule.right),
        p(rule.fill),
        p(rule.cross),
    ensures
        forall|j: int|
            0 <= j < output::rule_spec(rule, widths).drop_last().len() ==> p(
                #[trigger] output::rule_spec(rule, widths).drop_last()[j],
            ),
{
    let f = |i: int| output::rule_segment(rule, widths, i);
    assert forall|i: int, j: int| 0 <= i < widths.len() && 0 <= j < f(i).len() implies p(#[trigger] f(i)[j]) by {
        let fill = output::repeat(rule.fill, (widths[i] + 2) as nat);
        if j < fill.len() {
            assert(f(i)[j] == fill[j]);
        } else {
            assert(f(i)[j] == rule.cross);
        }
    }
    lemma_concat_map_all(widths.len(), f, p);
    let body = output::concat_map(widths.len(), f);
    let line = output::rule_spec(rule, widths).drop_last();
    assert(line =~= seq![rule.left] + body + seq![rule.right]);
    assert forall|j: int| 0 <= j < line.len() implies p(#[trigger] line[j]) by {
        if j == 0 {
        } else if j < 1 + body.len() {
            assert(line[j] == body[j - 1]);
        } else {
            assert(line[j] == rule.right);
        }
    }
}

/// Every character of a row satisfies `p` when its border characters, the
/// space and every character of its shown cells do.
proof fn lemma_row_chars(
    cells: Seq<Seq<char>>,
    widths: Seq<usize>,
    aligns: Seq<bool>,
    cfg: BoxConfig,
    p: spec_fn(char) -> bool,
)
    requires
        p(cfg.cell_left),
        p(cfg.cell_right),
        p(cfg.cell_sep),
        p(' '),
        forall|i: int, j: int|
            0 <= i < cells.len() && 0 <= j < cells[i].len() ==> p(#[trigger] cells[i][j]),
    ensures
        forall|j: int|
            0 <= j < output::box_row_spec(cells, widths, aligns, cfg).drop_last().len() ==> p(
                #[trigger] output::box_row_spec(cells, widths, aligns, cfg).drop_last()[j],
            ),
{
    let n = output::shown(cells, widths);
    let f = |i: int| output::box_cell(cells, widths, aligns, cfg.cell_sep, i);
    assert forall|i: int, j: int| 0 <= i < n && 0 <= j < f(i).len() implies p(#[trigger] f(i)[j]) by {
        let c = cells[i];
        let w = widths[i] as nat;
        let fill = if c.len() < w {
            output::repeat(' ', (w - c.len()) as nat)
        } else {
            Seq::empty()
        };
        let pd = output::pad(c, w, aligns[i]);
        assert forall|k: int| 0 <= k < pd.len() implies p(#[trigger] pd[k]) by {
            if aligns[i] {
                assert(pd == fill + c);
                if k < fill.len() {
                    assert(pd[k] == fill[k]);
                } else {
                    assert(pd[k] == c[k - fill.len()]);
                }
            } else {
                assert(pd == c + fill);
                if k < c.len() {
                    assert(pd[k] == c[k]);
                } else {
                    assert(pd[k] == fill[k - c.len()]);
                }
            }
        }
        let x = f(i);
        let tail: Seq<char> = if i + 1 < cells.len() {
            seq![cfg.cell_sep]
        } else {
            Seq::empty()
        };
        assert(x == seq![' '] + pd + seq![' '] + tail);
        if j == 0 {
        } else if j < 1 + pd.len() {
            assert(x[j] == pd[j - 1]);
        } else if j == 1 + pd.len() {
        } else {
            assert(x[j] == cfg.cell_sep);
        }
    }
    lemma_concat_map_all(n, f, p);
    let body = output::concat_map(n, f);
    let line = output::box_row_spec(cells, widths, aligns, cfg).drop_last();
    assert(line =~= seq![cfg.cell_left] + body + seq![cfg.cell_right]);
    assert forall|j: int| 0 <= j < line.len() implies p(#[trigger] line[j]) by {
        if j == 0 {
        } else if j < 1 + body.len() {
            assert(line[j] == body[j - 1]);
        } else {
            assert(line[j] == cfg.cell_right);
        }
    }
}

/// A shown cell's characters occur in its row.
proof fn lemma_row_contains(
    cells: Seq<Seq<char>>,
    widths: Seq<usize>,
    aligns: Seq<bool>,
    cfg: BoxConfig,
    i: int,
    k: int,
)
    requires
        0 <= i < output::shown(cells, widths),
        0 <= k < cells[i].len(),
    ensures
        output::box_row_spec(cells, widths, aligns, cfg).drop_last().contains(cells[i][k]),
{
    let n = output::shown(cells, widths);
    let f = |j: int| output::box_cell(cells, widths, aligns, cfg.cell_sep, j);
    let c = cells[i];
    let w = widths[i] as nat;
    let fill = if c.len() < w {
        output::repeat(' ', (w - c.len()) as nat)
    } else {
        Seq::empty()
    };
    let pd = output::pad(c, w, aligns[i]);
    let pos = if aligns[i] {
        fill.len() + k
    } else {
        k
    };
    assert(pd[pos] == c[k]);
    assert(f(i)[1 + pos] == c[k]);
    lemma_concat_map_contains(n, f, i, c[k]);
    let body = output::concat_map(n, f);
    let line = output::box_row_spec(cells, widths, aligns, cfg).drop_last();
    assert(line =~= seq![cfg.cell_left] + body + seq![cfg.cell_right]);
    let q = choose|q: int| 0 <= q < body.len() && body[q] == c[k];
    assert(line[1 + q] == c[k]);
}


/// The data lines of two lists of lines are those of each, in order.
proof fn lemma_data_lines_concat(a: Seq<Seq<char>>, b: Seq<Seq<char>>)
    ensures
        table_parse::data_lines(a + b) == table_parse::data_lines(a) + table_parse::data_lines(b),
    decreases b.len(),
{
    if b.len() == 0 {
        assert(a + b =~= a);
        assert(table_parse::data_lines(a) + table_parse::data_lines(b) =~= table_parse::data_lines(a));
    } else {
        lemma_data_lines_concat(a, b.drop_last());
        assert((a + b).drop_last() =~= a + b.drop_last());
        assert((a + b).last() == b.last());
        if table_parse::is_data_line(b.last()) {
            assert(table_parse::data_lines(a + b) =~= table_parse::data_lines(a)
                + table_parse::data_lines(b));
        } else {
            assert(table_parse::data_lines(a + b) =~= table_parse::data_lines(a)
                + table_parse::data_lines(b));
        }
    }
}

/// One line is a data line or not.
proof fn lemma_data_lines_one(l: Seq<char>)
    ensures
        table_parse::data_lines(seq![l]) == if table_parse::is_data_line(l) {
            seq![l]
        } else {
            Seq::<Seq<char>>::empty()
        },
{
    assert(seq![l].drop_last() =~= Seq::<Seq<char>>::empty());
    assert(seq![l].last() == l);
    assert(table_parse::data_lines(Seq::<Seq<char>>::empty()) == Seq::<Seq<char>>::empty());
    assert(Seq::<Seq<char>>::empty().push(l) =~= seq![l]);
}

/// A text without `c` counts no `c`; a text with one counts some.
proof fn lemma_count_char(s: Seq<char>, c: char)
    ensures
        !s.contains(c) ==> text::count_char(s, c) == 0,
        s.contains(c) ==> text::count_char(s, c) > 0,
    decreases s.len(),
{
    if s.len() > 0 {
        lemma_count_char(s.drop_last(), c);
        if s.contains(c) && s.last() != c {
            let j = choose|j: int| 0 <= j < s.len() && s[j] == c;
            assert(s.drop_last()[j] == c);
        }
        if !s.contains(c) {
            assert(!s.drop_last().contains(c)) by {
                if s.drop_last().contains(c) {
                    let j = choose|j: int| 0 <= j < s.len() - 1 && s.drop_last()[j] == c;
                    assert(s[j] == c);
                }
            }
            assert(s[s.len() - 1] != c);
        }
    }
}

/// The separator detected in a line that holds one candidate and no other.
proof fn lemma_single_separator(s: Seq<char>, m: int)
    requires
        0 <= m < 5,
        s.contains(table_parse::separator_candidates()[m]),
        forall|k: int|
            0 <= k < 5 && k != m ==> !s.contains(#[trigger] table_parse::separator_candidates()[k]),
    ensures
        table_parse::separator_of(s) == table_parse::separator_candidates()[m],
{
    let cs = table_parse::separator_candidates();
    assert forall|k: int| 0 <= k < 5 implies (#[trigger] text::count_char(s, cs[k]) > 0) == (k == m) by {
        lemma_count_char(s, cs[k]);
    }
    assert(text::count_char(s, cs[0]) > 0 <==> m == 0);
    assert(text::count_char(s, cs[1]) > 0 <==> m == 1);
    assert(text::count_char(s, cs[2]) > 0 <==> m == 2);
    assert(text::count_char(s, cs[3]) > 0 <==> m == 3);
    assert(text::count_char(s, cs[4]) > 0 <==> m == 4);
    reveal_with_fuel(table_parse::pick_separator, 6);
}


/// A rule whose four characters are border characters.
pub open spec fn border_rule(c: LineConfig) -> bool {
    &&& table_parse::is_border_char(c.left)
    &&& table_parse::is_border_char(c.right)
    &&& table_parse::is_border_char(c.fill)
    &&& table_parse::is_border_char(c.cross)
}

/// A box style whose rows use one separator that parsing looks for and whose
/// rules are border lines.
pub open spec fn readable_config(cfg: BoxConfig) -> bool {
    &&& cfg.cell_left == cfg.cell_sep
    &&& cfg.cell_right == cfg.cell_sep
    &&& table_parse::separator_candidates().contains(cfg.cell_sep)
    &&& border_rule(cfg.header_sep)
    &&& (cfg.top matches Some(c) ==> border_rule(c))
    &&& (cfg.row_sep matches Some(c) ==> border_rule(c))
    &&& (cfg.bottom matches Some(c) ==> border_rule(c))
    &&& plain_start(cfg.cell_left)
    &&& plain_start(cfg.header_sep.left)
    &&& (cfg.top matches Some(c) ==> plain_start(c.left))
    &&& (cfg.row_sep matches Some(c) ==> plain_start(c.left))
    &&& (cfg.bottom matches Some(c) ==> plain_start(c.left))
}

/// A first character that is neither indentation nor the start of a comment
/// marker.
pub open spec fn plain_start(c: char) -> bool {
    c != ' ' && c != '\t' && c != '/' && c != '#' && c != '*'
}

/// A line that stripping leaves as it is: it begins with neither indentation
/// nor a comment marker.
pub open spec fn unprefixed(l: Seq<char>) -> bool {
    l.len() > 0 && plain_start(l[0])
}

/// A line beginning with a plain character has no prefix to strip.
proof fn lemma_unprefixed(l: Seq<char>)
    requires
        unprefixed(l),
    ensures
        !prettify::is_indent(l[0]),
        prettify::comment_of(l) is None,
        prettify::bare_of(l) == l,
{
    let ms = prettify::comment_markers();
    assert(ms[0][0] == '/' && ms[1][0] == '/' && ms[2][0] == '#' && ms[3][0] == '*');
    assert forall|k: int| 0 <= k < 4 implies !text::starts_with(l, #[trigger] ms[k]) by {
        if text::starts_with(l, ms[k]) {
            assert(l.take(ms[k].len() as int)[0] == l[0]);
        }
    }
    assert(prettify::indent_len(l) == 0);
    assert(l.skip(0) =~= l);
}

/// Cells that read back as they are: non-empty, without white space around
/// them, on one line, and holding none of the separators parsing looks for.
pub open spec fn readable_cells(cells: Seq<Seq<char>>) -> bool {
    forall|i: int|
        0 <= i < cells.len() ==> {
            &&& (#[trigger] cells[i]).len() > 0
            &&& text::trim(cells[i]) == cells[i]
            &&& !cells[i].contains('\n')
            &&& forall|k: int|
                0 <= k < 5 ==> !cells[i].contains(#[trigger] table_parse::separator_candidates()[k])
        }
}

/// Some cell holds a character that no border line holds, so that its row is
/// not taken for a rule.
pub open spec fn has_content(cells: Seq<Seq<char>>) -> bool {
    exists|i: int, k: int|
        0 <= i < cells.len() && 0 <= k < cells[i].len() && !table_parse::is_border_char(
            #[trigger] cells[i][k],
        )
}

/// A border rule is a single line that parsing skips.
proof fn lemma_rule_line(rule: LineConfig, widths: Seq<usize>)
    requires
        border_rule(rule),
    ensures
        text::plain_line(output::rule_spec(rule, widths).drop_last()),
        !table_parse::is_data_line(output::rule_spec(rule, widths).drop_last()),
        output::rule_spec(rule, widths).drop_last().len() > 0,
        output::rule_spec(rule, widths).drop_last()[0] == rule.left,
{
    let line = output::rule_spec(rule, widths).drop_last();
    let p = |c: char| table_parse::is_border_char(c);
    lemma_rule_chars(rule, widths, p);
    assert(table_parse::border_spec(line));
    assert(!line.contains('\n')) by {
        if line.contains('\n') {
            let j = choose|j: int| 0 <= j < line.len() && line[j] == '\n';
            assert(p(line[j]));
        }
    }
    assert(line.last() == rule.right);
}

/// The separator candidates are five distinct characters, none of them white
/// space, all of them border characters.
proof fn lemma_candidates()
    ensures
        table_parse::separator_candidates().len() == 5,
        forall|k: int|
            0 <= k < 5 ==> !text::is_white(#[trigger] table_parse::separator_candidates()[k])
                && table_parse::is_border_char(table_parse::separator_candidates()[k])
                && table_parse::separator_candidates()[k] != '\n'
                && table_parse::separator_candidates()[k] != '\r'
                && table_parse::separator_candidates()[k] != ' ',
        forall|k: int, l: int|
            0 <= k < 5 && 0 <= l < 5 && k != l ==> #[trigger] table_parse::separator_candidates()[k]
                != #[trigger] table_parse::separator_candidates()[l],
{
}

/// A row of readable cells with content is a single line that parsing takes
/// for a row, whose separator it detects and whose cells it reads back.
proof fn lemma_row_line(cells: Seq<Seq<char>>, widths: Seq<usize>, aligns: Seq<bool>, cfg: BoxConfig)
    requires
        readable_config(cfg),
        readable_cells(cells),
        has_content(cells),
        0 < cells.len(),
        cells.len() == widths.len(),
    ensures
        text::plain_line(output::box_row_spec(cells, widths, aligns, cfg).drop_last()),
        table_parse::is_data_line(output::box_row_spec(cells, widths, aligns, cfg).drop_last()),
        table_parse::separator_of(output::box_row_spec(cells, widths, aligns, cfg).drop_last())
            == cfg.cell_sep,
        table_parse::cells_of(
            output::box_row_spec(cells, widths, aligns, cfg).drop_last(),
            cfg.cell_sep,
        ) == cells,
        unprefixed(output::box_row_spec(cells, widths, aligns, cfg).drop_last()),
{
    let line = output::box_row_spec(cells, widths, aligns, cfg).drop_last();
    let sep = cfg.cell_sep;
    let cs = table_parse::separator_candidates();
    lemma_candidates();
    let m = choose|m: int| 0 <= m < cs.len() && cs[m] == sep;
    assert(line[0] == sep);
    assert(line.last() == sep);
    // a single line
    let nl = |c: char| c != '\n';
    assert forall|i: int, j: int| 0 <= i < cells.len() && 0 <= j < cells[i].len() implies nl(
        #[trigger] cells[i][j],
    ) by {
        assert(!cells[i].contains('\n'));
    }
    lemma_row_chars(cells, widths, aligns, cfg, nl);
    assert(!line.contains('\n')) by {
        if line.contains('\n') {
            let j = choose|j: int| 0 <= j < line.len() && line[j] == '\n';
            assert(nl(line[j]));
        }
    }
    // a data line
    let (i, k) = choose|i: int, k: int|
        0 <= i < cells.len() && 0 <= k < cells[i].len() && !table_parse::is_border_char(
            #[trigger] cells[i][k],
        );
    lemma_row_contains(cells, widths, aligns, cfg, i, k);
    assert(!table_parse::border_spec(line)) by {
        let q = choose|q: int| 0 <= q < line.len() && line[q] == cells[i][k];
        assert(!table_parse::is_border_char(line[q]));
    }
    assert(!text::all_white(line)) by {
        assert(!text::is_white(line[0]));
    }
    // its separator
    assert forall|l: int| 0 <= l < 5 && l != m implies !line.contains(#[trigger] cs[l]) by {
        let c = cs[l];
        let other = |x: char| x != c;
        assert forall|a: int, b: int| 0 <= a < cells.len() && 0 <= b < cells[a].len() implies other(
            #[trigger] cells[a][b],
        ) by {
            assert(!cells[a].contains(c));
        }
        lemma_row_chars(cells, widths, aligns, cfg, other);
        if line.contains(c) {
            let j = choose|j: int| 0 <= j < line.len() && line[j] == c;
            assert(other(line[j]));
        }
    }
    assert(line.contains(cs[m]));
    lemma_single_separator(line, m);
    // its cells
    assert forall|a: int| 0 <= a < cells.len() implies (#[trigger] cells[a]).len() > 0 && text::trim(
        cells[a],
    ) == cells[a] && !cells[a].contains(sep) by {
        assert(!cells[a].contains(cs[m]));
    }
    crate::output::law_box_row_reads_back(cells, widths, aligns, cfg);
}


/// The line of data row `r` of a box table.
pub open spec fn data_row_line(data: TableData, widths: Seq<usize>, cfg: BoxConfig, r: int) -> Seq<char> {
    output::box_row_spec(data.row_view()[r], widths, output::numeric_flags(data), cfg).drop_last()
}

/// Rows that read back: as many cells as there are widths, readable, with
/// content.
pub open spec fn readable_rows(data: TableData, n: nat) -> bool {
    forall|r: int|
        0 <= r < data.rows@.len() ==> (#[trigger] data.row_view()[r]).len() == n && readable_cells(
            data.row_view()[r],
        ) && has_content(data.row_view()[r])
}

/// Of the body of a box table, parsing keeps one line per data row.
proof fn lemma_body_data_lines(data: TableData, widths: Seq<usize>, cfg: BoxConfig, k: nat)
    requires
        readable_config(cfg),
        k <= data.rows@.len(),
        widths.len() > 0,
        readable_rows(data, widths.len()),
    ensures
        table_parse::data_lines(body_lines(data, widths, cfg, k)) == Seq::new(
            k,
            |r: int| data_row_line(data, widths, cfg, r),
        ),
        forall|j: int|
            0 <= j < body_lines(data, widths, cfg, k).len() ==> text::plain_line(
                #[trigger] body_lines(data, widths, cfg, k)[j],
            ) && unprefixed(body_lines(data, widths, cfg, k)[j]),
    decreases k,
{
    if k > 0 {
        let j = (k - 1) as nat;
        lemma_body_data_lines(data, widths, cfg, j);
        let prev = body_lines(data, widths, cfg, j);
        let line = data_row_line(data, widths, cfg, j as int);
        lemma_row_line(data.row_view()[j as int], widths, output::numeric_flags(data), cfg);
        let tail = if k < data.rows@.len() {
            opt_rule_lines(cfg.row_sep, widths)
        } else {
            Seq::empty()
        };
        let tail_data = table_parse::data_lines(tail);
        assert(tail_data == Seq::<Seq<char>>::empty() && forall|q: int|
            0 <= q < tail.len() ==> text::plain_line(#[trigger] tail[q]) && unprefixed(tail[q])) by {
            if k < data.rows@.len() {
                match cfg.row_sep {
                    Some(c) => {
                        lemma_rule_line(c, widths);
                        lemma_data_lines_one(output::rule_spec(c, widths).drop_last());
                    },
                    None => {},
                }
            }
        }
        lemma_data_lines_one(line);
        lemma_data_lines_concat(prev, seq![line]);
        lemma_data_lines_concat(prev + seq![line], tail);
        let all = prev + seq![line] + tail;
        assert(body_lines(data, widths, cfg, k) == all);
        assert(table_parse::data_lines(all) =~= Seq::new(
            k,
            |r: int| data_row_line(data, widths, cfg, r),
        ));
        assert forall|q: int| 0 <= q < all.len() implies text::plain_line(#[trigger] all[q])
            && unprefixed(all[q]) by {
            if q < prev.len() {
                assert(all[q] == prev[q]);
            } else if q == prev.len() {
                assert(all[q] == line);
            } else {
                assert(all[q] == tail[q - prev.len() - 1]);
            }
        }
    }
}

/// The lines of a box table of readable cells: single lines without a
/// prefix to strip, whose data lines are the header row and the data rows.
proof fn lemma_box_text_lines(data: TableData, cfg: BoxConfig)
    requires
        readable_config(cfg),
        data.headers@.len() > 0,
        readable_cells(data.header_view()),
        has_content(data.header_view()),
        readable_rows(data, data.headers@.len() as nat),
    ensures
        text::lines_of(output::box_spec(data, output::widths_of(data), cfg)) == box_lines(
            data,
            output::widths_of(data),
            cfg,
        ),
        forall|q: int|
            0 <= q < box_lines(data, output::widths_of(data), cfg).len() ==> text::plain_line(
                #[trigger] box_lines(data, output::widths_of(data), cfg)[q],
            ) && unprefixed(box_lines(data, output::widths_of(data), cfg)[q]),
        table_parse::data_lines(box_lines(data, output::widths_of(data), cfg)) == seq![
            output::box_row_spec(
                data.header_view(),
                output::widths_of(data),
                output::header_aligns(data, cfg),
                cfg,
            ).drop_last(),
        ] + Seq::new(
            data.rows@.len(),
            |r: int| data_row_line(data, output::widths_of(data), cfg, r),
        ),
{
    let widths = output::widths_of(data);
    let n = data.headers@.len();
    let rows = data.row_view();
    let lines = box_lines(data, widths, cfg);
    let top = opt_rule_lines(cfg.top, widths);
    let hrow = output::box_row_spec(data.header_view(), widths, output::header_aligns(data, cfg), cfg).drop_last();
    let hsep = output::rule_spec(cfg.header_sep, widths).drop_last();
    let body = body_lines(data, widths, cfg, rows.len());
    let bottom = opt_rule_lines(cfg.bottom, widths);
    assert(lines == top + seq![hrow, hsep] + body + bottom);
    lemma_row_line(data.header_view(), widths, output::header_aligns(data, cfg), cfg);
    lemma_rule_line(cfg.header_sep, widths);
    lemma_body_data_lines(data, widths, cfg, rows.len());
    assert(table_parse::data_lines(top) == Seq::<Seq<char>>::empty() && forall|q: int|
        0 <= q < top.len() ==> text::plain_line(#[trigger] top[q]) && unprefixed(top[q])) by {
        match cfg.top {
            Some(c) => {
                lemma_rule_line(c, widths);
                lemma_data_lines_one(output::rule_spec(c, widths).drop_last());
            },
            None => {},
        }
    }
    assert(table_parse::data_lines(bottom) == Seq::<Seq<char>>::empty() && forall|q: int|
        0 <= q < bottom.len() ==> text::plain_line(#[trigger] bottom[q]) && unprefixed(bottom[q])) by {
        match cfg.bottom {
            Some(c) => {
                lemma_rule_line(c, widths);
                lemma_data_lines_one(output::rule_spec(c, widths).drop_last());
            },
            None => {},
        }
    }
    assert forall|q: int| 0 <= q < lines.len() implies text::plain_line(#[trigger] lines[q])
        && unprefixed(lines[q]) by {
        let a = top.len();
        if q < a {
            assert(lines[q] == top[q]);
        } else if q == a {
            assert(lines[q] == hrow);
        } else if q == a + 1 {
            assert(lines[q] == hsep);
        } else if q < a + 2 + body.len() {
            assert(lines[q] == body[q - a - 2]);
        } else {
            assert(lines[q] == bottom[q - a - 2 - body.len()]);
        }
    }
    lemma_box_spec_lines(data, widths, cfg);
    lemma_newline_joined_join(lines);
    text::lemma_lines_of_join(lines);
    let mid = seq![hrow, hsep];
    assert(mid =~= seq![hrow] + seq![hsep]);
    lemma_data_lines_one(hrow);
    lemma_data_lines_one(hsep);
    lemma_data_lines_concat(seq![hrow], seq![hsep]);
    lemma_data_lines_concat(top, mid);
    lemma_data_lines_concat(top + mid, body);
    lemma_data_lines_concat(top + mid + body, bottom);
    let rl = Seq::new(rows.len(), |r: int| data_row_line(data, widths, cfg, r));
    assert(table_parse::data_lines(lines) =~= seq![hrow] + rl);
}

/// The lines of a box table of readable cells read as its headers and rows.
proof fn lemma_box_lines_read(data: TableData, cfg: BoxConfig)
    requires
        readable_config(cfg),
        data.headers@.len() > 0,
        readable_cells(data.header_view()),
        has_content(data.header_view()),
        readable_rows(data, data.headers@.len() as nat),
    ensures
        table_parse::pipe_table(box_lines(data, output::widths_of(data), cfg)) == Ok::<
            table_parse::TableView,
            crate::error::TableError,
        >((data.header_view(), data.row_view())),
{
    let widths = output::widths_of(data);
    let n = data.headers@.len();
    let rows = data.row_view();
    lemma_box_text_lines(data, cfg);
    let hrow = output::box_row_spec(data.header_view(), widths, output::header_aligns(data, cfg), cfg).drop_last();
    lemma_row_line(data.header_view(), widths, output::header_aligns(data, cfg), cfg);
    let rl = Seq::new(rows.len(), |r: int| data_row_line(data, widths, cfg, r));
    let d = table_parse::data_lines(box_lines(data, widths, cfg));
    assert(d == seq![hrow] + rl);
    assert(d[0] == hrow);
    assert(d.drop_first() =~= rl);
    let sep = cfg.cell_sep;
    assert forall|r: int| 0 <= r < rows.len() implies #[trigger] table_parse::fit_cells(
        table_parse::cells_of(rl[r], sep),
        n,
    ) == rows[r] by {
        lemma_row_line(rows[r], widths, output::numeric_flags(data), cfg);
        assert(table_parse::cells_of(rl[r], sep) == rows[r]);
        assert(table_parse::fit_cells(rows[r], n) =~= rows[r]);
    }
    assert(rl.map_values(|l: Seq<char>| table_parse::fit_cells(table_parse::cells_of(l, sep), n))
        =~= rows);
}

/// A table rendered in a box style parses back into its headers and cells:
/// splitting the text into lines and reading them as a pipe-style table gives
/// the headers and the rows again, when every row has one cell per header and
/// every header and cell reads back (see `readable_cells`, `has_content`).
pub proof fn law_box_table_reads_back(data: TableData, cfg: BoxConfig)
    requires
        readable_config(cfg),
        data.headers@.len() > 0,
        readable_cells(data.header_view()),
        has_content(data.header_view()),
        readable_rows(data, data.headers@.len() as nat),
    ensures
        table_parse::pipe_table(text::lines_of(output::box_spec(data, output::widths_of(data), cfg)))
            == Ok::<table_parse::TableView, crate::error::TableError>(
            (data.header_view(), data.row_view()),
        ),
{
    lemma_box_text_lines(data, cfg);
    lemma_box_lines_read(data, cfg);
}

/// The orgtbl, RST grid and heavy outline styles read back.
proof fn lemma_box_styles_readable(style: OutputFormat)
    requires
        style is Orgtbl || style is RstGrid || style is HeavyOutline,
    ensures
        readable_config(output::box_config_of(style)),
{
    let cfg = output::box_config_of(style);
    let cs = table_parse::separator_candidates();
    assert(cs[4] == '|');
    assert(cs[1] == '┃');
    if style is HeavyOutline {
        assert(cs.contains(cfg.cell_sep));
    } else {
        assert(cs.contains(cfg.cell_sep));
    }
}

/// A table rendered in the orgtbl, RST grid or heavy outline style parses
/// back, in that style, into its headers and cells, when every row has one
/// cell per header and every header and cell reads back (see
/// `readable_cells`, `has_content`).
pub proof fn law_rendered_table_reads_back(
    data: TableData,
    style: OutputFormat,
    color: ColorMode,
    is_tty: bool,
)
    requires
        style is Orgtbl || style is RstGrid || style is HeavyOutline,
        data.headers@.len() > 0,
        readable_cells(data.header_view()),
        has_content(data.header_view()),
        readable_rows(data, data.headers@.len() as nat),
    ensures
        table_parse::table_in_style(text::lines_of(output::rendered(data, style, color, is_tty)), style)
            == Ok::<table_parse::TableView, crate::error::TableError>(
            (data.header_view(), data.row_view()),
        ),
{
    lemma_box_styles_readable(style);
    law_box_table_reads_back(data, output::box_config_of(style));
    assert(output::rendered(data, style, color, is_tty) == output::box_spec(
        data,
        output::widths_of(data),
        output::box_config_of(style),
    ));
}


/// Prefixing every line of single lines joined with a final newline gives
/// text whose lines are the prefixed lines.
proof fn lemma_prefixed_lines(ls: Seq<Seq<char>>, p: Seq<char>)
    requires
        ls.len() > 0,
        forall|q: int| 0 <= q < ls.len() ==> text::plain_line(#[trigger] ls[q]),
        text::plain_line(p),
    ensures
        text::lines_of(prettify::with_prefix(text::join_lines(ls) + seq!['\n'], p)) =~= ls.map_values(
            |l: Seq<char>| p + l,
        ),
{
    let r = text::join_lines(ls) + seq!['\n'];
    text::lemma_lines_of_join(ls);
    let pl = ls.map_values(|l: Seq<char>| p + l);
    assert forall|q: int| 0 <= q < pl.len() implies text::plain_line(#[trigger] pl[q]) by {
        let l = ls[q];
        assert(pl[q] == p + l);
        assert(!(p + l).contains('\n')) by {
            if (p + l).contains('\n') {
                let j = choose|j: int| 0 <= j < (p + l).len() && (p + l)[j] == '\n';
                if j < p.len() {
                    assert(p[j] == '\n');
                } else {
                    assert(l[j - p.len()] == '\n');
                }
            }
        }
        if l.len() > 0 {
            assert((p + l).last() == l.last());
        } else {
            assert(p + l =~= p);
        }
    }
    text::lemma_lines_of_join(pl);
    assert(text::lines_of(r).map_values(|l: Seq<char>| p + l) =~= pl);
    assert(r.last() == '\n');
    assert(prettify::with_prefix(r, p) =~= text::join_lines(pl) + seq!['\n']);
}

/// Prefixing every line of single lines joined without a final newline, the
/// last not empty, gives text whose lines are the prefixed lines.
proof fn lemma_prefixed_lines_open(ls: Seq<Seq<char>>, p: Seq<char>)
    requires
        ls.len() > 0,
        ls.last().len() > 0,
        forall|q: int| 0 <= q < ls.len() ==> text::plain_line(#[trigger] ls[q]),
        text::plain_line(p),
    ensures
        text::lines_of(prettify::with_prefix(text::join_lines(ls), p)) =~= ls.map_values(
            |l: Seq<char>| p + l,
        ),
        text::lines_of(text::join_lines(ls)) == ls,
{
    let r = text::join_lines(ls);
    text::lemma_lines_of_join_open(ls);
    let pl = ls.map_values(|l: Seq<char>| p + l);
    assert forall|q: int| 0 <= q < pl.len() implies text::plain_line(#[trigger] pl[q]) by {
        let l = ls[q];
        assert(pl[q] == p + l);
        assert(!(p + l).contains('\n')) by {
            if (p + l).contains('\n') {
                let j = choose|j: int| 0 <= j < (p + l).len() && (p + l)[j] == '\n';
                if j < p.len() {
                    assert(p[j] == '\n');
                } else {
                    assert(l[j - p.len()] == '\n');
                }
            }
        }
        if l.len() > 0 {
            assert((p + l).last() == l.last());
        } else {
            assert(p + l =~= p);
        }
    }
    assert(pl.last() == p + ls.last());
    assert(pl.last().len() > 0);
    text::lemma_lines_of_join_open(pl);
    assert(text::lines_of(r).map_values(|l: Seq<char>| p + l) =~= pl);
    let last = ls.last();
    assert(last.last() != '\n') by {
        assert(last[last.len() - 1] == last.last());
        if last.last() == '\n' {
            assert(last.contains('\n'));
        }
    }
    assert(prettify::with_prefix(r, p) =~= text::join_lines(pl));
}

/// The prefix put back in front of a table's lines is a single line.
proof fn lemma_prefix_single_line(meta: prettify::PrettifyMeta)
    requires
        meta.comment matches Some(c) ==> prettify::comment_markers().contains(c@),
    ensures
        text::plain_line(meta.line_prefix()),
{
    let p = meta.line_prefix();
    if p.len() > 0 {
        let pre = prettify::spaces(meta.pre_comment_spaces as nat);
        match meta.comment {
            None => {
                assert(p =~= pre);
            },
            Some(c) => {
                let k: nat = if meta.post_comment_spaces >= 1 {
                    meta.post_comment_spaces as nat
                } else {
                    1nat
                };
                assert(p =~= (pre + c@) + prettify::spaces(k));
                assert(prettify::spaces(k).last() == ' ');
            },
        }
    }
    if p.contains('\n') {
        let j = choose|j: int| 0 <= j < p.len() && p[j] == '\n';
        let pre = prettify::spaces(meta.pre_comment_spaces as nat);
        match meta.comment {
            None => {
                assert(p =~= pre);
                assert(pre[j] == ' ');
            },
            Some(c) => {
                let k: nat = if meta.post_comment_spaces >= 1 {
                    meta.post_comment_spaces as nat
                } else {
                    1nat
                };
                let post = prettify::spaces(k);
                assert(p =~= pre + c@ + post);
                if j < pre.len() {
                    assert(pre[j] == ' ');
                } else if j < pre.len() + c@.len() {
                    let i = choose|i: int|
                        0 <= i < prettify::comment_markers().len() && prettify::comment_markers()[i]
                            == c@;
                    assert(c@[j - pre.len()] == '\n');
                    assert(i == 0 || i == 1 || i == 2 || i == 3);
                } else {
                    assert(post[j - pre.len() - c@.len()] == ' ');
                }
            },
        }
    }
}

/// Prettified text reads back whole: putting the prefix of `meta` in front
/// of each line of a text and stripping it again gives the text's lines, and
/// measuring the prefixed text finds the same indentation, comment marker and
/// gap after it (the gap at least one space when there is a marker). The text
/// is its lines joined by newlines, with a final newline or without one (then
/// its last line is not empty); its lines do not begin with a space or a tab,
/// nor, when `meta` has no marker, with a comment marker.
pub proof fn law_prettified_text_reads_back(meta: prettify::PrettifyMeta, ls: Seq<Seq<char>>, newline: bool)
    requires
        meta.comment matches Some(c) ==> prettify::comment_markers().contains(c@),
        ls.len() > 0,
        !newline ==> ls.last().len() > 0,
        forall|q: int| 0 <= q < ls.len() ==> text::plain_line(#[trigger] ls[q]),
        prettify::fits_prefix(meta, ls),
    ensures
        ({
            let r = text::join_lines(ls) + if newline {
                seq!['\n']
            } else {
                Seq::empty()
            };
            let lines = text::lines_of(prettify::with_prefix(r, meta.line_prefix()));
            &&& text::lines_of(r) == ls
            &&& lines.map_values(|l: Seq<char>| prettify::bare_of(l)) == ls
            &&& prettify::max_pre(lines) == meta.pre_comment_spaces
            &&& prettify::first_comment(lines) == match meta.comment {
                Some(c) => Some(c@),
                None => None::<Seq<char>>,
            }
            &&& prettify::max_post(lines) == if meta.comment is Some {
                prettify::post_spaces(meta)
            } else {
                0
            }
        }),
{
    let p = meta.line_prefix();
    lemma_prefix_single_line(meta);
    let r = text::join_lines(ls) + if newline {
        seq!['\n']
    } else {
        Seq::empty()
    };
    if newline {
        lemma_prefixed_lines(ls, p);
        text::lemma_lines_of_join(ls);
    } else {
        assert(r =~= text::join_lines(ls));
        lemma_prefixed_lines_open(ls, p);
    }
    let lines = text::lines_of(prettify::with_prefix(r, p));
    assert(lines =~= prettify::prefixed(meta, ls));
    prettify::law_prefix_measured_back(meta, ls);
    assert forall|q: int| 0 <= q < ls.len() implies prettify::bare_of(#[trigger] lines[q]) == ls[q] by {
        assert(lines[q] == p + ls[q]);
        prettify::law_prefix_strips_back(meta, ls[q]);
    }
    assert(lines.map_values(|l: Seq<char>| prettify::bare_of(l)) =~= ls);
}

/// Stripping the prefix off prefixed lines that had none gives them back.
proof fn lemma_bare_after_prefix(t: Seq<char>, lines: Seq<Seq<char>>, meta: prettify::PrettifyMeta)
    requires
        meta.comment matches Some(c) ==> prettify::comment_markers().contains(c@),
        text::lines_of(t) == lines.map_values(|l: Seq<char>| meta.line_prefix() + l),
        forall|q: int| 0 <= q < lines.len() ==> unprefixed(#[trigger] lines[q]),
    ensures
        pipeline::bare_lines_of(t) == lines,
{
    let p = meta.line_prefix();
    assert forall|q: int| 0 <= q < lines.len() implies prettify::bare_of(#[trigger] (p + lines[q]))
        == lines[q] by {
        lemma_unprefixed(lines[q]);
        prettify::law_prefix_strips_back(meta, lines[q]);
    }
    assert(pipeline::bare_lines_of(t) =~= lines);
}

/// A box table of readable cells is its lines joined, with a final newline;
/// single lines without a prefix that read as the table.
#[verifier::spinoff_prover]
proof fn lemma_box_text(data: TableData, cfg: BoxConfig)
    requires
        readable_config(cfg),
        data.headers@.len() > 0,
        readable_cells(data.header_view()),
        has_content(data.header_view()),
        readable_rows(data, data.headers@.len() as nat),
    ensures
        ({
            let lines = box_lines(data, output::widths_of(data), cfg);
            &&& lines.len() > 0
            &&& output::box_spec(data, output::widths_of(data), cfg) == text::join_lines(lines)
                + seq!['\n']
            &&& forall|q: int|
                0 <= q < lines.len() ==> text::plain_line(#[trigger] lines[q]) && lines[q].len() > 0
                    && unprefixed(lines[q])
            &&& table_parse::pipe_table(lines) == Ok::<table_parse::TableView, crate::error::TableError>(
                (data.header_view(), data.row_view()),
            )
        }),
{
    lemma_box_text_lines(data, cfg);
    lemma_box_lines_read(data, cfg);
    lemma_box_spec_joined(data, output::widths_of(data), cfg);
}

/// A box table is its lines joined with newlines, with a final newline.
#[verifier::spinoff_prover]
proof fn lemma_box_spec_joined(data: TableData, widths: Seq<usize>, cfg: BoxConfig)
    ensures
        box_lines(data, widths, cfg).len() >= 2,
        output::box_spec(data, widths, cfg) == text::join_lines(box_lines(data, widths, cfg)) + seq![
            '\n',
        ],
{
    let lines = box_lines(data, widths, cfg);
    lemma_box_spec_lines(data, widths, cfg);
    assert(lines.len() >= 2);
    lemma_newline_joined_join(lines);
}

/// A table rendered in a box style is that style's box table.
proof fn lemma_rendered_is_box(data: TableData, style: OutputFormat, color: ColorMode, is_tty: bool)
    requires
        style is Orgtbl || style is RstGrid || style is HeavyOutline,
    ensures
        output::rendered(data, style, color, is_tty) == output::box_spec(
            data,
            output::widths_of(data),
            output::box_config_of(style),
        ),
        readable_config(output::box_config_of(style)),
        table_parse::table_in_style(box_lines(data, output::widths_of(data), output::box_config_of(style)), style)
            == table_parse::pipe_table(box_lines(data, output::widths_of(data), output::box_config_of(style))),
{
    lemma_box_styles_readable(style);
}

/// Stripping the prefix off the re-formatted text of a box table of readable
/// cells gives the lines of the table.
proof fn lemma_prettified_bare_lines(data: TableData, style: OutputFormat, meta: prettify::PrettifyMeta)
    requires
        style is Orgtbl || style is RstGrid || style is HeavyOutline,
        meta.comment matches Some(c) ==> prettify::comment_markers().contains(c@),
        data.headers@.len() > 0,
        readable_cells(data.header_view()),
        has_content(data.header_view()),
        readable_rows(data, data.headers@.len() as nat),
    ensures
        pipeline::bare_lines_of(
            prettify::with_prefix(
                pipeline::newline_terminated(output::rendered(data, style, ColorMode::Off, false)),
                meta.line_prefix(),
            ),
        ) == box_lines(data, output::widths_of(data), output::box_config_of(style)),
{
    let cfg = output::box_config_of(style);
    let lines = box_lines(data, output::widths_of(data), cfg);
    lemma_rendered_is_box(data, style, ColorMode::Off, false);
    lemma_box_text(data, cfg);
    let r = output::rendered(data, style, ColorMode::Off, false);
    assert(pipeline::newline_terminated(r) == r);
    let p = meta.line_prefix();
    lemma_prefix_single_line(meta);
    lemma_prefixed_lines(lines, p);
    let t = prettify::with_prefix(r, p);
    assert(text::lines_of(t) == lines.map_values(|l: Seq<char>| meta.line_prefix() + l));
    lemma_bare_after_prefix(t, lines, meta);
}

/// Prettifying reads back: the text that re-formatting writes for a table in
/// the orgtbl, RST grid or heavy outline style (the table rendered without
/// colour, each line given the indentation and comment prefix that was found
/// on the table) reads, once stripped of that prefix again, as the same headers
/// and cells, when every row has one cell per header and every header and cell
/// reads back (see `readable_cells`, `has_content`).
pub proof fn law_prettified_table_reads_back(
    data: TableData,
    style: OutputFormat,
    meta: prettify::PrettifyMeta,
)
    requires
        style is Orgtbl || style is RstGrid || style is HeavyOutline,
        meta.comment matches Some(c) ==> prettify::comment_markers().contains(c@),
        data.headers@.len() > 0,
        readable_cells(data.header_view()),
        has_content(data.header_view()),
        readable_rows(data, data.headers@.len() as nat),
    ensures
        table_parse::table_in_style(
            pipeline::bare_lines_of(
                prettify::with_prefix(
                    pipeline::newline_terminated(output::rendered(data, style, ColorMode::Off, false)),
                    meta.line_prefix(),
                ),
            ),
            style,
        ) == Ok::<table_parse::TableView, crate::error::TableError>(
            (data.header_view(), data.row_view()),
        ),
{
    let cfg = output::box_config_of(style);
    lemma_prettified_bare_lines(data, style, meta);
    lemma_rendered_is_box(data, style, ColorMode::Off, false);
    lemma_box_text(data, cfg);
}

/// Re-formatting a heavy outline table keeps it recognisable: the stripped
/// lines of the text that prettifying writes are detected as heavy outline.
pub proof fn law_prettified_heavy_outline_detected(data: TableData, meta: prettify::PrettifyMeta)
    requires
        meta.comment matches Some(c) ==> prettify::comment_markers().contains(c@),
        data.headers@.len() > 0,
        readable_cells(data.header_view()),
        has_content(data.header_view()),
        readable_rows(data, data.headers@.len() as nat),
    ensures
        table_parse::style_of(
            pipeline::bare_lines_of(
                prettify::with_prefix(
                    pipeline::newline_terminated(
                        output::rendered(data, OutputFormat::HeavyOutline, ColorMode::Off, false),
                    ),
                    meta.line_prefix(),
                ),
            ),
        ) == OutputFormat::HeavyOutline,
{
    lemma_prettified_bare_lines(data, OutputFormat::HeavyOutline, meta);
    lemma_heavy_top(data, output::widths_of(data));
}

/// The first line of a heavy outline table is its top rule, drawn with `━`,
/// which marks the style.
proof fn lemma_heavy_top(data: TableData, widths: Seq<usize>)
    requires
        widths.len() > 0,
    ensures
        ({
            let cfg = output::box_config_of(OutputFormat::HeavyOutline);
            let top = output::rule_spec(cfg.top->Some_0, widths).drop_last();
            &&& cfg.top is Some
            &&& box_lines(data, widths, cfg)[0] == top
            &&& text::plain_line(top)
            &&& table_parse::marker_style(top) == Some(OutputFormat::HeavyOutline)
            &&& table_parse::first_marker(box_lines(data, widths, cfg)) == Some(
                OutputFormat::HeavyOutline,
            )
        }),
{
    let cfg = output::box_config_of(OutputFormat::HeavyOutline);
    let rule = cfg.top->Some_0;
    let top = output::rule_spec(rule, widths).drop_last();
    lemma_box_styles_readable(OutputFormat::HeavyOutline);
    lemma_rule_line(rule, widths);
    let not_double = |c: char| c != '║';
    lemma_rule_chars(rule, widths, not_double);
    assert(!top.contains('║')) by {
        if top.contains('║') {
            let j = choose|j: int| 0 <= j < top.len() && top[j] == '║';
            assert(not_double(top[j]));
        }
    }
    let seg = output::rule_segment(rule, widths, 0);
    assert(seg[0] == '━');
    assert(output::concat_map(widths.len(), |i: int| output::rule_segment(rule, widths, i))[0]
        == '━') by {
        let f = |i: int| output::rule_segment(rule, widths, i);
        lemma_concat_map_first(widths.len(), f);
    }
    assert(top[1] == '━');
    assert(top.contains('━'));
    assert(!text::starts_with(top, table_parse::asciidoc_delim())) by {
        if text::starts_with(top, table_parse::asciidoc_delim()) {
            assert(top.take(4)[0] == top[0]);
        }
    }
    assert(!text::starts_with(top, table_parse::cols_attr())) by {
        if text::starts_with(top, table_parse::cols_attr()) {
            assert(top.take(6)[0] == top[0]);
        }
    }
    let ls = box_lines(data, widths, cfg);
    assert(ls[0] == top);
    assert(table_parse::first_marker(ls) == Some(OutputFormat::HeavyOutline));
}

/// A concatenation starts with its first piece when that one is not empty.
proof fn lemma_concat_map_first(n: nat, f: spec_fn(int) -> Seq<char>)
    requires
        n > 0,
        f(0).len() > 0,
    ensures
        output::concat_map(n, f).len() > 0,
        output::concat_map(n, f)[0] == f(0)[0],
    decreases n,
{
    if n > 1 {
        lemma_concat_map_first((n - 1) as nat, f);
    } else {
        assert(output::concat_map(0, f).len() == 0);
        assert(output::concat_map(1, f) =~= f(0));
    }
}

/// The first line of lines each followed by a newline.
proof fn lemma_first_line(ls: Seq<Seq<char>>)
    requires
        ls.len() > 0,
        !ls[0].contains('\n'),
        ls[0].len() > 0 && ls[0].last() != '\r',
    ensures
        text::lines_of(newline_joined(ls)).len() > 0,
        text::lines_of(newline_joined(ls))[0] == ls[0],
{
    let first = seq![ls[0]];
    let rest = ls.drop_first();
    assert(ls =~= first + rest);
    lemma_newline_joined_concat(first, rest);
    assert(first.drop_last().len() == 0);
    assert(newline_joined(first.drop_last()) == Seq::<char>::empty());
    assert(newline_joined(first) =~= ls[0] + seq!['\n']);
    let s = newline_joined(ls);
    let k = ls[0].len() as int;
    assert(s == ls[0] + seq!['\n'] + newline_joined(rest));
    assert(s[k] == '\n');
    assert forall|j: int| 0 <= j < k implies #[trigger] s[j] != '\n' by {
        assert(s[j] == ls[0][j]);
    }
    text::lemma_lines_of_step(s, k);
    assert(s.take(k) =~= ls[0]);
}

/// A table rendered in the heavy outline style is detected as such.
pub proof fn law_heavy_outline_detected(data: TableData, color: ColorMode, is_tty: bool)
    requires
        data.headers@.len() > 0,
    ensures
        table_parse::style_of(text::lines_of(output::rendered(data, OutputFormat::HeavyOutline, color, is_tty)))
            == OutputFormat::HeavyOutline,
{
    let widths = output::widths_of(data);
    let cfg = output::box_config_of(OutputFormat::HeavyOutline);
    lemma_rendered_is_box(data, OutputFormat::HeavyOutline, color, is_tty);
    lemma_heavy_top(data, widths);
    lemma_box_spec_lines(data, widths, cfg);
    let ls = box_lines(data, widths, cfg);
    lemma_box_spec_joined(data, widths, cfg);
    lemma_first_line(ls);
    let lines = text::lines_of(output::rendered(data, OutputFormat::HeavyOutline, color, is_tty));
    assert(lines[0] == ls[0]);
    assert(table_parse::marker_style(lines[0]) == Some(OutputFormat::HeavyOutline));
    assert(table_parse::first_marker(lines) == Some(OutputFormat::HeavyOutline));
}


/// Rendering depends only on a table's headers, rows and column analysis.
proof fn lemma_rendered_congruent(d1: TableData, d2: TableData, style: OutputFormat)
    requires
        style is Orgtbl || style is RstGrid || style is HeavyOutline,
        d1.header_view() == d2.header_view(),
        d1.row_view() == d2.row_view(),
        d1.column_meta@ == d2.column_meta@,
    ensures
        output::rendered(d1, style, ColorMode::Off, false) == output::rendered(
            d2,
            style,
            ColorMode::Off,
            false,
        ),
{
    let cfg = output::box_config_of(style);
    lemma_rendered_is_box(d1, style, ColorMode::Off, false);
    lemma_rendered_is_box(d2, style, ColorMode::Off, false);
    assert(d1.headers@.len() == d1.header_view().len());
    assert(d2.headers@.len() == d2.header_view().len());
    assert(d1.rows@.len() == d1.row_view().len());
    assert(d2.rows@.len() == d2.row_view().len());
    let w = output::widths_of(d1);
    assert(w =~= output::widths_of(d2));
    assert(output::numeric_flags(d1) =~= output::numeric_flags(d2));
    let g1 = |r: int| output::box_body_row(d1, w, cfg, r);
    let g2 = |r: int| output::box_body_row(d2, w, cfg, r);
    assert(g1 =~= g2);
    assert(output::box_spec(d1, w, cfg) == output::box_spec(d2, w, cfg));
}

/// Re-formatting is idempotent for the orgtbl, RST grid and heavy outline
/// styles: reading the text that prettifying wrote (in the same style) and
/// writing it again gives the same text, when the table carries its column
/// analysis and every row has one cell per header and every header and cell
/// reads back (see `readable_cells`, `has_content`).
pub proof fn law_prettify_idempotent(
    data: TableData,
    style: OutputFormat,
    meta: prettify::PrettifyMeta,
    again: pipeline::Prepared,
)
    requires
        style is Orgtbl || style is RstGrid || style is HeavyOutline,
        meta.comment matches Some(c) ==> prettify::comment_markers().contains(c@),
        data.headers@.len() > 0,
        crate::numeric::analysed(data),
        readable_cells(data.header_view()),
        has_content(data.header_view()),
        readable_rows(data, data.headers@.len() as nat),
        pipeline::prepared_from(
            again,
            prettify::with_prefix(
                pipeline::newline_terminated(output::rendered(data, style, ColorMode::Off, false)),
                meta.line_prefix(),
            ),
            Some(style),
        ),
    ensures
        prettify::with_prefix(
            pipeline::newline_terminated(
                output::rendered(again.data, again.style, ColorMode::Off, false),
            ),
            again.meta.line_prefix(),
        ) == prettify::with_prefix(
            pipeline::newline_terminated(output::rendered(data, style, ColorMode::Off, false)),
            meta.line_prefix(),
        ),
{
    let cfg = output::box_config_of(style);
    let lines = box_lines(data, output::widths_of(data), cfg);
    let t = prettify::with_prefix(
        pipeline::newline_terminated(output::rendered(data, style, ColorMode::Off, false)),
        meta.line_prefix(),
    );
    // the same table is read back
    law_prettified_table_reads_back(data, style, meta);
    assert(again.style == style);
    assert(again.data.header_view() == data.header_view());
    assert(again.data.row_view() == data.row_view());
    assert(again.data.column_meta@ =~= data.column_meta@) by {
        assert(again.data.column_meta@.len() == data.column_meta@.len());
        assert forall|c: int| 0 <= c < data.column_meta@.len() implies again.data.column_meta@[c]
            == data.column_meta@[c] by {
            assert(again.data.column_meta@[c] == crate::numeric::column_meta_of(
                again.data.row_view(),
                c,
            ));
            assert(data.column_meta@[c] == crate::numeric::column_meta_of(data.row_view(), c));
        }
    }
    lemma_rendered_congruent(again.data, data, style);
    // the same prefix is measured back
    lemma_rendered_is_box(data, style, ColorMode::Off, false);
    lemma_box_text(data, cfg);
    let r = output::rendered(data, style, ColorMode::Off, false);
    assert(pipeline::newline_terminated(r) == r);
    let p = meta.line_prefix();
    lemma_prefix_single_line(meta);
    lemma_prefixed_lines(lines, p);
    assert(text::lines_of(t) =~= prettify::prefixed(meta, lines));
    assert forall|q: int| 0 <= q < lines.len() implies ((#[trigger] lines[q]).len() == 0
        || !prettify::is_indent(lines[q][0])) && (meta.comment is None ==> prettify::comment_of(
        lines[q],
    ) is None) by {
        lemma_unprefixed(lines[q]);
    }
    prettify::law_prefix_measured_back(meta, lines);
    let m2 = again.meta;
    assert(m2.pre_comment_spaces == meta.pre_comment_spaces);
    match meta.comment {
        None => {
            assert(m2.comment is None);
            assert(m2.line_prefix() =~= meta.line_prefix());
        },
        Some(c) => {
            let c2 = m2.comment->Some_0;
            assert(c2@ == c@);
            assert(m2.post_comment_spaces == prettify::post_spaces(meta));
            assert(prettify::post_spaces(m2) == prettify::post_spaces(meta));
            assert(m2.line_prefix() =~= meta.line_prefix());
        },
    }
}


/// Every character of a padded cell satisfies `p` when the space and every
/// character of the cell do.
proof fn lemma_pad_chars(cell: Seq<char>, w: nat, right: bool, p: spec_fn(char) -> bool)
    requires
        p(' '),
        forall|j: int| 0 <= j < cell.len() ==> p(#[trigger] cell[j]),
    ensures
        forall|j: int| 0 <= j < output::pad(cell, w, right).len() ==> p(#[trigger] output::pad(cell, w, right)[j]),
{
    let fill = if cell.len() < w {
        output::repeat(' ', (w - cell.len()) as nat)
    } else {
        Seq::empty()
    };
    let pd = output::pad(cell, w, right);
    assert forall|k: int| 0 <= k < pd.len() implies p(#[trigger] pd[k]) by {
        if right {
            assert(pd == fill + cell);
            if k < fill.len() {
                assert(pd[k] == fill[k]);
            } else {
                assert(pd[k] == cell[k - fill.len()]);
            }
        } else {
            assert(pd == cell + fill);
            if k < cell.len() {
                assert(pd[k] == cell[k]);
            } else {
                assert(pd[k] == fill[k - cell.len()]);
            }
        }
    }
}

/// A padded cell holds every character of the cell.
proof fn lemma_pad_contains(cell: Seq<char>, w: nat, right: bool, k: int)
    requires
        0 <= k < cell.len(),
    ensures
        output::pad(cell, w, right).contains(cell[k]),
{
    let fill = if cell.len() < w {
        output::repeat(' ', (w - cell.len()) as nat)
    } else {
        Seq::empty()
    };
    let pd = output::pad(cell, w, right);
    if right {
        assert(pd[fill.len() + k] == cell[k]);
    } else {
        assert(pd[k] == cell[k]);
    }
}

/// `c` repeated `m` times, as separators after a cell.
pub open spec fn seps(c: char, m: nat) -> Seq<char> {
    Seq::new(m, |i: int| c)
}

/// Separators at the end of a line add no cell.
proof fn lemma_cells_of_seps(y: Seq<char>, sep: char, m: nat)
    ensures
        table_parse::cells_of(y + seps(sep, m), sep) == table_parse::cells_of(y, sep),
        m > 0 ==> (y + seps(sep, m)).last() == sep,
    decreases m,
{
    if m == 0 {
        assert(y + seps(sep, 0) =~= y);
    } else {
        lemma_cells_of_seps(y, sep, (m - 1) as nat);
        let z = y + seps(sep, (m - 1) as nat);
        table_parse::lemma_cells_of_sep(z, sep);
        assert(z.push(sep) =~= y + seps(sep, m));
    }
}

/// Reading cells written as blocks: after a start that ends with the
/// separator and holds no cell, each block is a text without the separator
/// (whose trimmed form is the cell) followed by separators.
proof fn lemma_cells_of_blocks(
    start: Seq<char>,
    f: spec_fn(int) -> Seq<char>,
    b: spec_fn(int) -> Seq<char>,
    m: nat,
    sep: char,
    k: nat,
)
    requires
        start.len() > 0,
        start.last() == sep,
        table_parse::cells_of(start, sep) == Seq::<Seq<char>>::empty(),
        m >= 1,
        forall|i: int| 0 <= i < k ==> #[trigger] f(i) == b(i) + seps(sep, m),
        forall|i: int| 0 <= i < k ==> !(#[trigger] b(i)).contains(sep) && text::trim(b(i)).len() > 0,
    ensures
        table_parse::cells_of(start + output::concat_map(k, f), sep) == Seq::new(
            k,
            |i: int| text::trim(b(i)),
        ),
        (start + output::concat_map(k, f)).len() > 0,
        (start + output::concat_map(k, f)).last() == sep,
    decreases k,
{
    if k == 0 {
        assert(start + output::concat_map(0, f) =~= start);
        assert(Seq::new(0, |i: int| text::trim(b(i))) =~= Seq::<Seq<char>>::empty());
    } else {
        let j = (k - 1) as nat;
        lemma_cells_of_blocks(start, f, b, m, sep, j);
        let x = start + output::concat_map(j, f);
        assert(start + output::concat_map(k, f) =~= x + f(j as int));
        table_parse::lemma_cells_of_piece(x, b(j as int), sep);
        let y0 = x + b(j as int);
        lemma_cells_of_seps(y0, sep, m);
        let y = y0 + seps(sep, m);
        assert(y =~= x + f(j as int));
        assert(Seq::new(k, |i: int| text::trim(b(i))) =~= Seq::new(j, |i: int| text::trim(b(i))).push(
            text::trim(b(j as int)),
        ));
        assert(y.last() == sep);
    }
}


/// A cell padded to its width, with a space on each side.
pub open spec fn spaced(cell: Seq<char>, w: nat, right: bool) -> Seq<char> {
    seq![' '] + output::pad(cell, w, right) + seq![' ']
}

/// A spaced readable cell trims back to the cell, holds no separator the cell
/// lacks, and its characters are the space and the cell's.
proof fn lemma_spaced(cell: Seq<char>, w: nat, right: bool)
    requires
        cell.len() > 0,
        text::trim(cell) == cell,
    ensures
        text::trim(spaced(cell, w, right)) == cell,
        forall|c: char| c != ' ' && !cell.contains(c) ==> !spaced(cell, w, right).contains(c),
        forall|k: int| 0 <= k < cell.len() ==> spaced(cell, w, right).contains(#[trigger] cell[k]),
{
    text::lemma_trimmed_ends(cell);
    let fill = if cell.len() < w {
        output::repeat(' ', (w - cell.len()) as nat)
    } else {
        Seq::empty()
    };
    let s = spaced(cell, w, right);
    if right {
        assert(s =~= (seq![' '] + fill) + cell + seq![' ']);
        text::lemma_trim_surrounded(seq![' '] + fill, cell, seq![' ']);
    } else {
        assert(s =~= seq![' '] + cell + (fill + seq![' ']));
        text::lemma_trim_surrounded(seq![' '], cell, fill + seq![' ']);
    }
    assert forall|c: char| c != ' ' && !cell.contains(c) implies !s.contains(c) by {
        let p = |x: char| x != c;
        assert forall|j: int| 0 <= j < cell.len() implies p(#[trigger] cell[j]) by {}
        lemma_pad_chars(cell, w, right, p);
        let pd = output::pad(cell, w, right);
        if s.contains(c) {
            let j = choose|j: int| 0 <= j < s.len() && s[j] == c;
            if 1 <= j < 1 + pd.len() {
                assert(s[j] == pd[j - 1]);
            }
        }
    }
    assert forall|k: int| 0 <= k < cell.len() implies s.contains(#[trigger] cell[k]) by {
        lemma_pad_contains(cell, w, right, k);
        let pd = output::pad(cell, w, right);
        let j = choose|j: int| 0 <= j < pd.len() && pd[j] == cell[k];
        assert(s[1 + j] == cell[k]);
    }
}

/// Texts ending in a newline, concatenated, are their lines each followed by
/// a newline.
proof fn lemma_concat_as_lines(k: nat, g: spec_fn(int) -> Seq<char>)
    requires
        forall|r: int| 0 <= r < k ==> (#[trigger] g(r)).len() > 0 && g(r).last() == '\n',
    ensures
        output::concat_map(k, g) == newline_joined(Seq::new(k, |r: int| g(r).drop_last())),
    decreases k,
{
    if k > 0 {
        let j = (k - 1) as nat;
        lemma_concat_as_lines(j, g);
        let ls = Seq::new(k, |r: int| g(r).drop_last());
        assert(ls.drop_last() =~= Seq::new(j, |r: int| g(r).drop_last()));
        assert(g(j as int) =~= g(j as int).drop_last() + seq!['\n']);
    }
}

/// The lines of a Jira table: the header line, then one line per data row.
pub open spec fn jira_lines(data: TableData, widths: Seq<usize>) -> Seq<Seq<char>> {
    seq![
        seq!['|', '|'] + output::concat_map(
            output::shown(data.header_view(), widths),
            |i: int| output::jira_head_cell(data.header_view(), widths, i),
        ),
    ] + Seq::new(
        data.rows@.len(),
        |r: int| output::jira_row(data.row_view()[r], widths, output::numeric_flags(data)).drop_last(),
    )
}

/// A Jira line of readable cells with content, written as `start` then one
/// spaced cell and `m` bars per cell: a single line that parsing reads as a
/// row of those cells, with `|` for separator.
proof fn lemma_jira_line(
    cells: Seq<Seq<char>>,
    widths: Seq<usize>,
    aligns: Seq<bool>,
    start: Seq<char>,
    f: spec_fn(int) -> Seq<char>,
    m: nat,
)
    requires
        readable_cells(cells),
        has_content(cells),
        0 < cells.len(),
        cells.len() == widths.len(),
        start == seps('|', m),
        m >= 1,
        forall|i: int|
            0 <= i < cells.len() ==> #[trigger] f(i) == spaced(cells[i], widths[i] as nat, aligns[i])
                + seps('|', m),
    ensures
        ({
            let line = start + output::concat_map(cells.len(), f);
            &&& text::plain_line(line)
            &&& table_parse::is_data_line(line)
            &&& table_parse::separator_of(line) == '|'
            &&& table_parse::cells_of(line, '|') == cells
            &&& unprefixed(line)
            &&& line.len() > m && line[m as int] == ' '
            &&& forall|c: char|
                c != ' ' && c != '|' && (forall|i: int| 0 <= i < cells.len() ==> !(#[trigger] cells[i]).contains(c))
                    ==> !#[trigger] line.contains(c)
        }),
{
    let n = cells.len();
    let cs = table_parse::separator_candidates();
    lemma_candidates();
    let b = |i: int| spaced(cells[i], widths[i] as nat, aligns[i]);
    assert forall|i: int| 0 <= i < n implies !(#[trigger] b(i)).contains('|') && text::trim(b(i)).len()
        > 0 by {
        lemma_spaced(cells[i], widths[i] as nat, aligns[i]);
        assert(!cells[i].contains(cs[4]));
    }
    assert forall|i: int| 0 <= i < n implies #[trigger] f(i) == b(i) + seps('|', m) by {}
    // the start holds no cell
    let e = Seq::<char>::empty();
    table_parse::lemma_cells_of_empty('|');
    lemma_cells_of_seps(e, '|', m);
    assert(e + seps('|', m) =~= start);
    lemma_cells_of_blocks(start, f, b, m, '|', n);
    let line = start + output::concat_map(n, f);
    assert forall|i: int| 0 <= i < n implies text::trim(#[trigger] b(i)) == cells[i] by {
        lemma_spaced(cells[i], widths[i] as nat, aligns[i]);
    }
    assert(Seq::new(n, |i: int| text::trim(b(i))) =~= cells);
    // its characters
    assert forall|c: char| c != ' ' && c != '|' && (forall|i: int| 0 <= i < n ==> !(#[trigger] cells[i]).contains(c))
        implies !line.contains(c) by {
        let p = |x: char| x != c;
        assert forall|i: int, j: int| 0 <= i < n && 0 <= j < f(i).len() implies p(#[trigger] f(i)[j]) by {
            lemma_spaced(cells[i], widths[i] as nat, aligns[i]);
            let s = b(i);
            if j < s.len() {
                assert(f(i)[j] == s[j]);
                assert(!s.contains(c));
            } else {
                assert(f(i)[j] == '|');
            }
        }
        lemma_concat_map_all(n, f, p);
        let body = output::concat_map(n, f);
        if line.contains(c) {
            let j = choose|j: int| 0 <= j < line.len() && line[j] == c;
            if j < start.len() {
                assert(line[j] == '|');
            } else {
                assert(line[j] == body[j - start.len()]);
            }
        }
    }
    assert(!line.contains('\n')) by {
        assert forall|i: int| 0 <= i < n implies !(#[trigger] cells[i]).contains('\n') by {}
    }
    assert(line[0] == '|');
    assert(line.last() == '|');
    lemma_concat_map_first(n, f);
    assert(line[m as int] == ' ');
    // content
    let (i, k) = choose|i: int, k: int|
        0 <= i < cells.len() && 0 <= k < cells[i].len() && !table_parse::is_border_char(
            #[trigger] cells[i][k],
        );
    lemma_spaced(cells[i], widths[i] as nat, aligns[i]);
    assert(f(i).contains(cells[i][k])) by {
        let bi = b(i);
        assert(bi.contains(cells[i][k]));
        let q = choose|q: int| 0 <= q < bi.len() && #[trigger] bi[q] == cells[i][k];
        assert(f(i)[q] == cells[i][k]);
    }
    lemma_concat_map_contains(n, f, i, cells[i][k]);
    assert(!table_parse::border_spec(line)) by {
        let body = output::concat_map(n, f);
        let q = choose|q: int| 0 <= q < body.len() && body[q] == cells[i][k];
        assert(line[start.len() + q] == cells[i][k]);
    }
    assert(!text::all_white(line)) by {
        assert(!text::is_white(line[0]));
    }
    // its separator
    assert forall|l: int| 0 <= l < 5 && l != 4 implies !line.contains(#[trigger] cs[l]) by {
        assert forall|a: int| 0 <= a < n implies !(#[trigger] cells[a]).contains(cs[l]) by {}
    }
    assert(line.contains(cs[4]));
    lemma_single_separator(line, 4);
}


/// Data lines only: parsing keeps them all.
proof fn lemma_data_lines_all(ls: Seq<Seq<char>>)
    requires
        forall|q: int| 0 <= q < ls.len() ==> table_parse::is_data_line(#[trigger] ls[q]),
    ensures
        table_parse::data_lines(ls) == ls,
    decreases ls.len(),
{
    if ls.len() > 0 {
        lemma_data_lines_all(ls.drop_last());
        assert(ls.drop_last().push(ls.last()) =~= ls);
    }
}

/// The header line and the row lines of a Jira table of readable cells.
proof fn lemma_jira_lines(data: TableData, widths: Seq<usize>)
    requires
        widths.len() == data.headers@.len(),
        data.headers@.len() > 0,
        readable_cells(data.header_view()),
        has_content(data.header_view()),
        readable_rows(data, data.headers@.len() as nat),
    ensures
        forall|q: int|
            0 <= q < jira_lines(data, widths).len() ==> text::plain_line(
                #[trigger] jira_lines(data, widths)[q],
            ) && table_parse::is_data_line(jira_lines(data, widths)[q]) && table_parse::cells_of(
                jira_lines(data, widths)[q],
                '|',
            ) == if q == 0 {
                data.header_view()
            } else {
                data.row_view()[q - 1]
            },
        table_parse::separator_of(jira_lines(data, widths)[0]) == '|',
{
    let n = data.headers@.len();
    let h = data.header_view();
    let ls = jira_lines(data, widths);
    let left = output::all_left(n);
    let fh = |i: int| output::jira_head_cell(h, widths, i);
    assert forall|i: int| 0 <= i < h.len() implies #[trigger] fh(i) == spaced(
        h[i],
        widths[i] as nat,
        left[i],
    ) + seps('|', 2) by {
        assert(fh(i) =~= spaced(h[i], widths[i] as nat, left[i]) + seps('|', 2));
    }
    assert(output::shown(h, widths) == n);
    lemma_jira_line(h, widths, left, seps('|', 2), fh, 2);
    assert(ls[0] == seps('|', 2) + output::concat_map(n, fh));
    let flags = output::numeric_flags(data);
    assert forall|q: int| 0 <= q < ls.len() implies text::plain_line(#[trigger] ls[q])
        && table_parse::is_data_line(ls[q]) && table_parse::cells_of(ls[q], '|') == if q == 0 {
        h
    } else {
        data.row_view()[q - 1]
    } by {
        if q > 0 {
            let r = q - 1;
            let cells = data.row_view()[r];
            let fr = |i: int| output::jira_cell(cells, widths, flags, i);
            assert forall|i: int| 0 <= i < cells.len() implies #[trigger] fr(i) == spaced(
                cells[i],
                widths[i] as nat,
                flags[i],
            ) + seps('|', 1) by {
                assert(fr(i) =~= spaced(cells[i], widths[i] as nat, flags[i]) + seps('|', 1));
            }
            assert(output::shown(cells, widths) == n);
            lemma_jira_line(cells, widths, flags, seps('|', 1), fr, 1);
            assert(ls[q] =~= seps('|', 1) + output::concat_map(cells.len(), fr));
        }
    }
}

/// A table rendered in the Jira style parses back, in that style, into its
/// headers and cells, when every row has one cell per header and every header
/// and cell reads back (see `readable_cells`, `has_content`).
pub proof fn law_jira_table_reads_back(data: TableData, color: ColorMode, is_tty: bool)
    requires
        data.headers@.len() > 0,
        readable_cells(data.header_view()),
        has_content(data.header_view()),
        readable_rows(data, data.headers@.len() as nat),
    ensures
        table_parse::table_in_style(
            text::lines_of(output::rendered(data, OutputFormat::Jira, color, is_tty)),
            OutputFormat::Jira,
        ) == Ok::<table_parse::TableView, crate::error::TableError>(
            (data.header_view(), data.row_view()),
        ),
{
    let widths = output::widths_of(data);
    let n = data.headers@.len();
    let h = data.header_view();
    let rows = data.row_view();
    let flags = output::numeric_flags(data);
    let ls = jira_lines(data, widths);
    lemma_jira_lines(data, widths);
    lemma_jira_text(data, color, is_tty);
    let g = |r: int| output::jira_row(rows[r], widths, flags);
    let hl = ls[0];
    let rl = Seq::new(rows.len(), |r: int| g(r).drop_last());
    // read as a pipe table
    lemma_data_lines_all(ls);
    let d = table_parse::data_lines(ls);
    assert(d[0] == hl);
    assert(d.drop_first() =~= rl);
    assert forall|r: int| 0 <= r < rows.len() implies #[trigger] table_parse::fit_cells(
        table_parse::cells_of(rl[r], '|'),
        n,
    ) == rows[r] by {
        assert(rl[r] == ls[r + 1]);
        assert(table_parse::cells_of(ls[r + 1], '|') == rows[r]);
        assert(table_parse::fit_cells(rows[r], n) =~= rows[r]);
    }
    assert(rl.map_values(|l: Seq<char>| table_parse::fit_cells(table_parse::cells_of(l, '|'), n))
        =~= rows);
}


/// Reading cells written as blocks each led by one separator: every block
/// after its separator is a text without the separator, whose trimmed form is
/// the cell.
proof fn lemma_cells_of_led_blocks(
    f: spec_fn(int) -> Seq<char>,
    b: spec_fn(int) -> Seq<char>,
    sep: char,
    k: nat,
)
    requires
        forall|i: int| 0 <= i < k ==> #[trigger] f(i) == seq![sep] + b(i),
        forall|i: int| 0 <= i < k ==> !(#[trigger] b(i)).contains(sep) && text::trim(b(i)).len() > 0,
    ensures
        table_parse::cells_of(output::concat_map(k, f), sep) == Seq::new(k, |i: int| text::trim(b(i))),
    decreases k,
{
    if k == 0 {
        table_parse::lemma_cells_of_empty(sep);
        assert(Seq::new(0, |i: int| text::trim(b(i))) =~= Seq::<Seq<char>>::empty());
    } else {
        let j = (k - 1) as nat;
        lemma_cells_of_led_blocks(f, b, sep, j);
        let x = output::concat_map(j, f);
        table_parse::lemma_cells_of_sep(x, sep);
        table_parse::lemma_cells_of_piece(x.push(sep), b(j as int), sep);
        assert(output::concat_map(k, f) =~= x.push(sep) + b(j as int));
        assert(Seq::new(k, |i: int| text::trim(b(i))) =~= Seq::new(j, |i: int| text::trim(b(i))).push(
            text::trim(b(j as int)),
        ));
    }
}

/// The digits of a number are digits.
proof fn lemma_decimal_digits(n: nat)
    ensures
        forall|j: int| 0 <= j < output::decimal(n).len() ==> output::digit_chars().contains(
            #[trigger] output::decimal(n)[j],
        ),
    decreases n,
{
    let ds = output::digit_chars();
    if n < 10 {
        assert(ds[n as int] == output::decimal(n)[0]);
    } else {
        lemma_decimal_digits(n / 10);
        let a = output::decimal(n / 10);
        let d = output::decimal(n);
        assert(d == a + seq![ds[(n % 10) as int]]);
        assert forall|j: int| 0 <= j < d.len() implies ds.contains(#[trigger] d[j]) by {
            if j < a.len() {
                assert(d[j] == a[j]);
            } else {
                assert(d[j] == ds[(n % 10) as int]);
            }
        }
    }
}

/// The lines of an AsciiDoc table: the `cols` line, the delimiter, the
/// header row, the data rows, the delimiter.
pub open spec fn asciidoc_lines(data: TableData, widths: Seq<usize>) -> Seq<Seq<char>> {
    let delim = output::asciidoc_delim_line().drop_last();
    seq![output::cols_line(widths, output::numeric_flags(data)).drop_last(), delim] + seq![
        output::asciidoc_row_spec(data.header_view(), widths, output::all_left(widths.len())).drop_last(),
    ] + Seq::new(
        data.rows@.len(),
        |r: int| output::asciidoc_row_spec(data.row_view()[r], widths, output::numeric_flags(data)).drop_last(),
    ) + seq![delim]
}

/// An AsciiDoc row of readable cells with content: a single line that parsing
/// reads as a row of those cells, with `|` for separator.
proof fn lemma_asciidoc_row(cells: Seq<Seq<char>>, widths: Seq<usize>, aligns: Seq<bool>)
    requires
        readable_cells(cells),
        has_content(cells),
        0 < cells.len(),
        cells.len() == widths.len(),
    ensures
        ({
            let line = output::asciidoc_row_spec(cells, widths, aligns).drop_last();
            &&& text::plain_line(line)
            &&& table_parse::is_data_line(line)
            &&& table_parse::separator_of(line) == '|'
            &&& table_parse::cells_of(line, '|') == cells
            &&& line.len() > 0 && line[0] == '|'
        }),
{
    let n = cells.len();
    let cs = table_parse::separator_candidates();
    lemma_candidates();
    let f = |i: int| output::asciidoc_cell(cells, widths, aligns, i);
    let b = |i: int|
        seq![' '] + output::pad(cells[i], widths[i] as nat, aligns[i]) + if i + 1 < n {
            seq![' ']
        } else {
            Seq::<char>::empty()
        };
    assert(output::shown(cells, widths) == n);
    let line = output::asciidoc_row_spec(cells, widths, aligns).drop_last();
    assert(line =~= output::concat_map(n, f));
    assert forall|i: int| 0 <= i < n implies #[trigger] f(i) == seq!['|'] + b(i) by {
        assert(f(i) =~= seq!['|'] + b(i));
    }
    assert forall|i: int| 0 <= i < n implies !(#[trigger] b(i)).contains('|') && text::trim(b(i))
        == cells[i] && (forall|c: char| c != ' ' && !cells[i].contains(c) ==> !b(i).contains(c))
        && (forall|k: int| 0 <= k < cells[i].len() ==> b(i).contains(#[trigger] cells[i][k])) by {
        let c = cells[i];
        text::lemma_trimmed_ends(c);
        let w = widths[i] as nat;
        let fill = if c.len() < w {
            output::repeat(' ', (w - c.len()) as nat)
        } else {
            Seq::empty()
        };
        let tail: Seq<char> = if i + 1 < n {
            seq![' ']
        } else {
            Seq::empty()
        };
        let pd = output::pad(c, w, aligns[i]);
        assert(b(i) == seq![' '] + pd + tail);
        if aligns[i] {
            assert(b(i) =~= (seq![' '] + fill) + c + tail);
            text::lemma_trim_surrounded(seq![' '] + fill, c, tail);
        } else {
            assert(b(i) =~= seq![' '] + c + (fill + tail));
            text::lemma_trim_surrounded(seq![' '], c, fill + tail);
        }
        assert forall|x: char| x != ' ' && !c.contains(x) implies !b(i).contains(x) by {
            let p = |y: char| y != x;
            assert forall|j: int| 0 <= j < c.len() implies p(#[trigger] c[j]) by {}
            lemma_pad_chars(c, w, aligns[i], p);
            let bi = b(i);
            if bi.contains(x) {
                let j = choose|j: int| 0 <= j < bi.len() && #[trigger] bi[j] == x;
                if 1 <= j < 1 + pd.len() {
                    assert(bi[j] == pd[j - 1]);
                }
            }
        }
        assert forall|k: int| 0 <= k < c.len() implies b(i).contains(#[trigger] c[k]) by {
            lemma_pad_contains(c, w, aligns[i], k);
            let j = choose|j: int| 0 <= j < pd.len() && #[trigger] pd[j] == c[k];
            assert(b(i)[1 + j] == c[k]);
        }
        assert(!c.contains(cs[4]));
    }
    lemma_cells_of_led_blocks(f, b, '|', n);
    assert(Seq::new(n, |i: int| text::trim(b(i))) =~= cells);
    // its characters
    assert forall|x: char| x != ' ' && x != '|' && (forall|i: int| 0 <= i < n ==> !(#[trigger] cells[i]).contains(x))
        implies !line.contains(x) by {
        let p = |y: char| y != x;
        assert forall|i: int, j: int| 0 <= i < n && 0 <= j < f(i).len() implies p(#[trigger] f(i)[j]) by {
            if j > 0 {
                assert(f(i)[j] == b(i)[j - 1]);
                assert(!b(i).contains(x));
            }
        }
        lemma_concat_map_all(n, f, p);
        if line.contains(x) {
            let j = choose|j: int| 0 <= j < line.len() && line[j] == x;
            assert(p(line[j]));
        }
    }
    assert(!line.contains('\n')) by {
        assert forall|i: int| 0 <= i < n implies !(#[trigger] cells[i]).contains('\n') by {}
    }
    // its first and last characters
    lemma_concat_map_first(n, f);
    assert(line[0] == '|');
    assert(line.last() != '\r') by {
        let x = output::concat_map((n - 1) as nat, f);
        assert(line =~= x + f(n - 1));
        let last = f(n - 1);
        let c = cells[n - 1];
        text::lemma_trimmed_ends(c);
        let pd = output::pad(c, widths[n - 1] as nat, aligns[n - 1]);
        assert(last =~= seq!['|', ' '] + pd);
        assert(line.last() == pd.last());
        if aligns[n - 1] {
            assert(pd.last() == c.last());
        } else if c.len() < widths[n - 1] {
            assert(pd.last() == ' ');
        } else {
            assert(pd.last() == c.last());
        }
    }
    // content
    let (i, k) = choose|i: int, k: int|
        0 <= i < cells.len() && 0 <= k < cells[i].len() && !table_parse::is_border_char(
            #[trigger] cells[i][k],
        );
    assert(f(i).contains(cells[i][k])) by {
        let bi = b(i);
        assert(bi.contains(cells[i][k]));
        let q = choose|q: int| 0 <= q < bi.len() && #[trigger] bi[q] == cells[i][k];
        assert(f(i)[q + 1] == cells[i][k]);
    }
    lemma_concat_map_contains(n, f, i, cells[i][k]);
    assert(!table_parse::border_spec(line)) by {
        let q = choose|q: int| 0 <= q < line.len() && line[q] == cells[i][k];
        assert(!table_parse::is_border_char(line[q]));
    }
    assert(!text::all_white(line)) by {
        assert(!text::is_white(line[0]));
    }
    // its separator
    assert forall|l: int| 0 <= l < 5 && l != 4 implies !line.contains(#[trigger] cs[l]) by {
        assert forall|a: int| 0 <= a < n implies !(#[trigger] cells[a]).contains(cs[l]) by {}
    }
    assert(line.contains(cs[4]));
    lemma_single_separator(line, 4);
}


/// Dropping the `cols` attribute line when it is the first line and the
/// only one.
proof fn lemma_without_cols_first(ls: Seq<Seq<char>>)
    requires
        ls.len() > 0,
        text::starts_with(text::trim_start(ls[0]), table_parse::cols_attr()),
        forall|q: int|
            1 <= q < ls.len() ==> !text::starts_with(
                text::trim_start(#[trigger] ls[q]),
                table_parse::cols_attr(),
            ),
    ensures
        table_parse::without_cols_attr(ls) == ls.drop_first(),
    decreases ls.len(),
{
    if ls.len() == 1 {
        assert(ls.drop_last().len() == 0);
        assert(table_parse::without_cols_attr(ls.drop_last()) == Seq::<Seq<char>>::empty());
        assert(ls.drop_first() =~= Seq::<Seq<char>>::empty());
    } else {
        lemma_without_cols_first(ls.drop_last());
        assert(ls.drop_last().drop_first().push(ls.last()) =~= ls.drop_first());
    }
}

/// A line beginning with a character that is not white space is its own
/// front-trimmed form.
proof fn lemma_trim_start_solid(l: Seq<char>)
    requires
        l.len() > 0,
        !text::is_white(l[0]),
    ensures
        text::trim_start(l) == l,
{
}

/// The `cols` line of an AsciiDoc table: a single line that begins with
/// `[cols=`.
proof fn lemma_cols_line(widths: Seq<usize>, flags: Seq<bool>)
    ensures
        ({
            let cols = output::cols_line(widths, flags);
            let cl = cols.drop_last();
            &&& cols.len() > 0 && cols.last() == '\n'
            &&& text::plain_line(cl)
            &&& text::trim_start(cl) == cl
            &&& text::starts_with(cl, table_parse::cols_attr())
        }),
{
    let cols = output::cols_line(widths, flags);
    let cl = cols.drop_last();
    let f = |i: int| output::cols_entry(widths, flags, i);
    let entries = output::concat_map(widths.len(), f);
    let head = seq!['[', 'c', 'o', 'l', 's', '=', '"'];
    let foot = seq!['"', ',', 'o', 'p', 't', 'i', 'o', 'n', 's', '=', '"', 'h', 'e', 'a', 'd', 'e', 'r', '"', ']'];
    assert(cl =~= head + entries + foot);
    let nl = |c: char| c != '\n';
    assert forall|i: int, j: int| 0 <= i < widths.len() && 0 <= j < f(i).len() implies nl(#[trigger] f(i)[j]) by {
        let e = f(i);
        let pre: Seq<char> = if i > 0 {
            seq![',']
        } else {
            Seq::empty()
        };
        let d = output::decimal(widths[i] as nat);
        lemma_decimal_digits(widths[i] as nat);
        assert(e == pre + seq![if flags[i] { '>' } else { '<' }] + d);
        if j >= pre.len() + 1 {
            assert(e[j] == d[j - pre.len() - 1]);
            assert(output::digit_chars().contains(d[j - pre.len() - 1]));
        }
    }
    lemma_concat_map_all(widths.len(), f, nl);
    assert(!cl.contains('\n')) by {
        if cl.contains('\n') {
            let j = choose|j: int| 0 <= j < cl.len() && cl[j] == '\n';
            if head.len() <= j < head.len() + entries.len() {
                assert(cl[j] == entries[j - head.len()]);
            }
        }
    }
    assert(cl.last() == ']');
    assert(cl.take(6) =~= table_parse::cols_attr());
    lemma_trim_start_solid(cl);
}

/// An AsciiDoc table is its lines, each followed by a newline.
proof fn lemma_asciidoc_text(data: TableData, widths: Seq<usize>)
    ensures
        output::asciidoc_spec(data, widths) == newline_joined(asciidoc_lines(data, widths)),
{
    let flags = output::numeric_flags(data);
    let rows = data.row_view();
    let left = output::all_left(widths.len());
    let cols = output::cols_line(widths, flags);
    let cl = cols.drop_last();
    let delim = output::asciidoc_delim_line().drop_last();
    let hr = output::asciidoc_row_spec(data.header_view(), widths, left);
    let hrow = hr.drop_last();
    let g = |r: int| output::asciidoc_row_spec(rows[r], widths, flags);
    let rl = Seq::new(rows.len(), |r: int| g(r).drop_last());
    lemma_cols_line(widths, flags);
    assert forall|r: int| 0 <= r < rows.len() implies (#[trigger] g(r)).len() > 0 && g(r).last()
        == '\n' by {}
    lemma_concat_as_lines(rows.len(), g);
    let e = Seq::<Seq<char>>::empty();
    assert(newline_joined(e) == Seq::<char>::empty());
    assert(seq![cl].drop_last() =~= e);
    assert(newline_joined(seq![cl]) =~= cols);
    assert(seq![cl, delim].drop_last() =~= seq![cl]);
    assert(newline_joined(seq![cl, delim]) =~= cols + output::asciidoc_delim_line());
    assert(seq![hrow].drop_last() =~= e);
    assert(newline_joined(seq![hrow]) =~= hr);
    assert(seq![delim].drop_last() =~= e);
    assert(newline_joined(seq![delim]) =~= output::asciidoc_delim_line());
    lemma_newline_joined_concat(seq![cl, delim], seq![hrow]);
    lemma_newline_joined_concat(seq![cl, delim] + seq![hrow], rl);
    lemma_newline_joined_concat(seq![cl, delim] + seq![hrow] + rl, seq![delim]);
    assert(asciidoc_lines(data, widths) =~= seq![cl, delim] + seq![hrow] + rl + seq![delim]);
    assert(output::asciidoc_spec(data, widths) =~= newline_joined(asciidoc_lines(data, widths)));
}

/// A table rendered in the AsciiDoc style parses back, in that style, into
/// its headers and cells, when every row has one cell per header and every
/// header and cell reads back (see `readable_cells`, `has_content`).
pub proof fn law_asciidoc_table_reads_back(data: TableData, color: ColorMode, is_tty: bool)
    requires
        data.headers@.len() > 0,
        readable_cells(data.header_view()),
        has_content(data.header_view()),
        readable_rows(data, data.headers@.len() as nat),
    ensures
        table_parse::table_in_style(
            text::lines_of(output::rendered(data, OutputFormat::Asciidoc, color, is_tty)),
            OutputFormat::Asciidoc,
        ) == Ok::<table_parse::TableView, crate::error::TableError>(
            (data.header_view(), data.row_view()),
        ),
{
    let widths = output::widths_of(data);
    let n = data.headers@.len();
    let h = data.header_view();
    let rows = data.row_view();
    let flags = output::numeric_flags(data);
    let left = output::all_left(widths.len());
    let ls = asciidoc_lines(data, widths);
    let cl = output::cols_line(widths, flags).drop_last();
    let delim = output::asciidoc_delim_line().drop_last();
    let hrow = output::asciidoc_row_spec(h, widths, left).drop_last();
    let rl = Seq::new(
        rows.len(),
        |r: int| output::asciidoc_row_spec(rows[r], widths, flags).drop_last(),
    );
    assert(ls =~= seq![cl, delim] + seq![hrow] + rl + seq![delim]);
    lemma_asciidoc_row(h, widths, left);
    assert forall|r: int| 0 <= r < rows.len() implies text::plain_line(#[trigger] rl[r])
        && table_parse::is_data_line(rl[r]) && table_parse::cells_of(rl[r], '|') == rows[r]
        && rl[r].len() > 0 && rl[r][0] == '|' by {
        lemma_asciidoc_row(rows[r], widths, flags);
    }
    lemma_cols_line(widths, flags);
    assert(text::plain_line(delim));
    assert(table_parse::border_spec(delim));
    // the text is its lines
    lemma_asciidoc_text(data, widths);
    let text = output::rendered(data, OutputFormat::Asciidoc, color, is_tty);
    assert(text == output::asciidoc_spec(data, widths));
    assert forall|q: int| 0 <= q < ls.len() implies text::plain_line(#[trigger] ls[q]) by {
        if q >= 3 && q < 3 + rl.len() {
            assert(ls[q] == rl[q - 3]);
        }
    }
    lemma_newline_joined_join(ls);
    text::lemma_lines_of_join(ls);
    // without the cols line, the data lines are the rows
    assert forall|q: int| 1 <= q < ls.len() implies !text::starts_with(
        text::trim_start(#[trigger] ls[q]),
        table_parse::cols_attr(),
    ) by {
        if q >= 3 && q < 3 + rl.len() {
            assert(ls[q] == rl[q - 3]);
        }
        lemma_trim_start_solid(ls[q]);
        let t = text::trim_start(ls[q]);
        if text::starts_with(t, table_parse::cols_attr()) {
            assert(t.take(6)[0] == t[0]);
        }
    }
    lemma_without_cols_first(ls);
    let mid = seq![hrow] + rl;
    assert(ls.drop_first() =~= seq![delim] + mid + seq![delim]);
    lemma_data_lines_one(delim);
    assert forall|q: int| 0 <= q < mid.len() implies table_parse::is_data_line(#[trigger] mid[q]) by {
        if q > 0 {
            assert(mid[q] == rl[q - 1]);
        }
    }
    lemma_data_lines_all(mid);
    lemma_data_lines_concat(seq![delim], mid);
    lemma_data_lines_concat(seq![delim] + mid, seq![delim]);
    let d = table_parse::data_lines(ls.drop_first());
    assert(d =~= mid);
    assert(d.drop_first() =~= rl);
    assert forall|r: int| 0 <= r < rows.len() implies #[trigger] table_parse::fit_cells(
        table_parse::cells_of(rl[r], '|'),
        n,
    ) == rows[r] by {
        assert(table_parse::fit_cells(rows[r], n) =~= rows[r]);
    }
    assert(rl.map_values(|l: Seq<char>| table_parse::fit_cells(table_parse::cells_of(l, '|'), n))
        =~= rows);
}

/// Cells without the characters that mark other styles: `║`, `━` and `─`.
pub open spec fn unmarked_cells(cells: Seq<Seq<char>>) -> bool {
    forall|i: int|
        0 <= i < cells.len() ==> !(#[trigger] cells[i]).contains('║') && !cells[i].contains('━')
            && !cells[i].contains('─')
}

/// No line of `ls` marks a style: the first marker is none.
proof fn lemma_first_marker_none(ls: Seq<Seq<char>>)
    requires
        forall|q: int| 0 <= q < ls.len() ==> table_parse::marker_style(#[trigger] ls[q]) is None,
    ensures
        table_parse::first_marker(ls) is None,
    decreases ls.len(),
{
    if ls.len() > 0 {
        assert forall|q: int| 0 <= q < ls.drop_first().len() implies table_parse::marker_style(
            #[trigger] ls.drop_first()[q],
        ) is None by {
            assert(ls.drop_first()[q] == ls[q + 1]);
        }
        lemma_first_marker_none(ls.drop_first());
    }
}

/// A line that begins with `|` not followed by `=`, and holds none of `║`,
/// `━` and `·`, marks no style.
proof fn lemma_no_marker(l: Seq<char>)
    requires
        l.len() >= 2,
        l[0] == '|',
        l[1] != '=',
        !l.contains('║'),
        !l.contains('━'),
        !l.contains('·'),
    ensures
        table_parse::marker_style(l) is None,
{
    assert(!text::starts_with(l, table_parse::asciidoc_delim())) by {
        if text::starts_with(l, table_parse::asciidoc_delim()) {
            assert(l.take(4)[1] == l[1]);
        }
    }
    assert(!text::starts_with(l, table_parse::cols_attr())) by {
        if text::starts_with(l, table_parse::cols_attr()) {
            assert(l.take(6)[0] == l[0]);
        }
    }
}

/// A line that begins with `|` and holds neither `│` nor `─` is none of the
/// lines that the RST, ASCII and box-drawing styles are told by.
proof fn lemma_not_rst_ascii_box(l: Seq<char>)
    requires
        l.len() > 0,
        l[0] == '|',
        !l.contains('│'),
        !l.contains('─'),
    ensures
        !table_parse::is_rst_style_sep(l),
        !table_parse::is_plus_border(l),
        !table_parse::has_box_drawing(l),
{
    assert(l.contains('|'));
}

/// A table rendered in the AsciiDoc style is detected as such: its first line
/// is the `cols` attribute.
pub proof fn law_asciidoc_detected(data: TableData, color: ColorMode, is_tty: bool)
    ensures
        table_parse::style_of(text::lines_of(output::rendered(data, OutputFormat::Asciidoc, color, is_tty)))
            == OutputFormat::Asciidoc,
{
    let widths = output::widths_of(data);
    let ls = asciidoc_lines(data, widths);
    lemma_asciidoc_text(data, widths);
    lemma_cols_line(widths, output::numeric_flags(data));
    let cl = ls[0];
    lemma_first_line(ls);
    let lines = text::lines_of(output::rendered(data, OutputFormat::Asciidoc, color, is_tty));
    assert(lines[0] == cl);
    assert(table_parse::marker_style(cl) == Some(OutputFormat::Asciidoc));
    assert(table_parse::first_marker(lines) == Some(OutputFormat::Asciidoc));
}

/// A line that marks no style and is none of the RST, ASCII and box-drawing
/// lines.
pub open spec fn unmarked_line(l: Seq<char>) -> bool {
    &&& table_parse::marker_style(l) is None
    &&& !table_parse::is_rst_style_sep(l)
    &&& !table_parse::is_plus_border(l)
    &&& !table_parse::has_box_drawing(l)
}

/// A `|`-led line whose second character is not `=` and that holds none of
/// `║ ━ · │ ─` is unmarked.
proof fn lemma_plain_pipe_line(l: Seq<char>)
    requires
        l.len() >= 2,
        l[0] == '|',
        l[1] != '=',
        !l.contains('║'),
        !l.contains('━'),
        !l.contains('·'),
        !l.contains('│'),
        !l.contains('─'),
    ensures
        unmarked_line(l),
{
    lemma_no_marker(l);
    lemma_not_rst_ascii_box(l);
}

/// Unmarked lines are told apart by the later rules alone: a `||` start
/// gives Jira, else an orgtbl separator gives orgtbl.
proof fn lemma_style_of_unmarked(ls: Seq<Seq<char>>)
    requires
        forall|q: int| 0 <= q < ls.len() ==> unmarked_line(#[trigger] ls[q]),
    ensures
        ls.len() > 0 && text::starts_with(ls[0], seq!['|', '|']) ==> table_parse::style_of(ls)
            == OutputFormat::Jira,
        !(ls.len() > 0 && text::starts_with(ls[0], seq!['|', '|'])) && (exists|q: int|
            0 <= q < ls.len() && table_parse::is_orgtbl_sep(#[trigger] ls[q])) ==> table_parse::style_of(ls)
            == OutputFormat::Orgtbl,
{
    assert forall|q: int| 0 <= q < ls.len() implies table_parse::marker_style(#[trigger] ls[q]) is None by {
        assert(unmarked_line(ls[q]));
    }
    lemma_first_marker_none(ls);
    let p1 = |l: Seq<char>| table_parse::is_rst_style_sep(l);
    let p2 = |l: Seq<char>| table_parse::is_plus_border(l);
    let p3 = |l: Seq<char>| table_parse::has_box_drawing(l);
    let p4 = |l: Seq<char>| table_parse::is_orgtbl_sep(l);
    assert(!table_parse::any_line(ls, p1)) by {
        if table_parse::any_line(ls, p1) {
            let q = choose|q: int| 0 <= q < ls.len() && #[trigger] p1(ls[q]);
            assert(unmarked_line(ls[q]));
        }
    }
    assert(!table_parse::any_line(ls, p2)) by {
        if table_parse::any_line(ls, p2) {
            let q = choose|q: int| 0 <= q < ls.len() && #[trigger] p2(ls[q]);
            assert(unmarked_line(ls[q]));
        }
    }
    assert(!table_parse::any_line(ls, p3)) by {
        if table_parse::any_line(ls, p3) {
            let q = choose|q: int| 0 <= q < ls.len() && #[trigger] p3(ls[q]);
            assert(unmarked_line(ls[q]));
        }
    }
    if exists|q: int| 0 <= q < ls.len() && table_parse::is_orgtbl_sep(#[trigger] ls[q]) {
        let q = choose|q: int| 0 <= q < ls.len() && table_parse::is_orgtbl_sep(#[trigger] ls[q]);
        assert(p4(ls[q]));
        assert(table_parse::any_line(ls, p4));
    }
}

/// A Jira line of cells that are readable, have content and are unmarked,
/// led by `m` bars, is an unmarked line.
proof fn lemma_jira_line_unmarked(
    cells: Seq<Seq<char>>,
    widths: Seq<usize>,
    aligns: Seq<bool>,
    f: spec_fn(int) -> Seq<char>,
    m: nat,
)
    requires
        readable_cells(cells),
        has_content(cells),
        unmarked_cells(cells),
        0 < cells.len(),
        cells.len() == widths.len(),
        1 <= m <= 2,
        forall|i: int|
            0 <= i < cells.len() ==> #[trigger] f(i) == spaced(cells[i], widths[i] as nat, aligns[i])
                + seps('|', m),
    ensures
        unmarked_line(seps('|', m) + output::concat_map(cells.len(), f)),
{
    let cs = table_parse::separator_candidates();
    lemma_candidates();
    lemma_jira_line(cells, widths, aligns, seps('|', m), f, m);
    let line = seps('|', m) + output::concat_map(cells.len(), f);
    assert forall|i: int| 0 <= i < cells.len() implies !(#[trigger] cells[i]).contains('·') && !cells[i].contains(
        '│',
    ) && !cells[i].contains('║') && !cells[i].contains('━') && !cells[i].contains('─') by {
        assert(!cells[i].contains(cs[3]));
        assert(!cells[i].contains(cs[0]));
    }
    assert(!line.contains('║'));
    assert(!line.contains('━'));
    assert(!line.contains('─'));
    assert(!line.contains('·'));
    assert(!line.contains('│'));
    assert(line[0] == '|');
    assert(line[1] != '=');
    lemma_plain_pipe_line(line);
}

/// The text of a Jira table of readable cells is made of its Jira lines.
proof fn lemma_jira_text(data: TableData, color: ColorMode, is_tty: bool)
    requires
        data.headers@.len() > 0,
        readable_cells(data.header_view()),
        has_content(data.header_view()),
        readable_rows(data, data.headers@.len() as nat),
    ensures
        text::lines_of(output::rendered(data, OutputFormat::Jira, color, is_tty)) == jira_lines(
            data,
            output::widths_of(data),
        ),
{
    let widths = output::widths_of(data);
    let n = data.headers@.len();
    let h = data.header_view();
    let rows = data.row_view();
    let flags = output::numeric_flags(data);
    let ls = jira_lines(data, widths);
    lemma_jira_lines(data, widths);
    let g = |r: int| output::jira_row(rows[r], widths, flags);
    assert forall|r: int| 0 <= r < rows.len() implies (#[trigger] g(r)).len() > 0 && g(r).last()
        == '\n' by {}
    lemma_concat_as_lines(rows.len(), g);
    let hl = ls[0];
    let rl = Seq::new(rows.len(), |r: int| g(r).drop_last());
    assert(ls =~= seq![hl] + rl);
    lemma_newline_joined_concat(seq![hl], rl);
    assert(seq![hl].drop_last() =~= Seq::<Seq<char>>::empty());
    assert(newline_joined(seq![hl].drop_last()) == Seq::<char>::empty());
    assert(newline_joined(seq![hl]) =~= hl + seq!['\n']);
    let text = output::rendered(data, OutputFormat::Jira, color, is_tty);
    assert(text == output::jira_spec(data, widths));
    assert(output::shown(h, widths) == n);
    assert(text =~= newline_joined(ls));
    lemma_newline_joined_join(ls);
    text::lemma_lines_of_join(ls);
}

/// A table rendered in the Jira style is detected as such, when its cells
/// read back and hold none of the characters that mark other styles.
pub proof fn law_jira_detected(data: TableData, color: ColorMode, is_tty: bool)
    requires
        data.headers@.len() > 0,
        readable_cells(data.header_view()),
        has_content(data.header_view()),
        readable_rows(data, data.headers@.len() as nat),
        unmarked_cells(data.header_view()),
        forall|r: int| 0 <= r < data.rows@.len() ==> unmarked_cells(#[trigger] data.row_view()[r]),
    ensures
        table_parse::style_of(text::lines_of(output::rendered(data, OutputFormat::Jira, color, is_tty)))
            == OutputFormat::Jira,
{
    let widths = output::widths_of(data);
    let n = data.headers@.len();
    let h = data.header_view();
    let rows = data.row_view();
    let flags = output::numeric_flags(data);
    let ls = jira_lines(data, widths);
    lemma_jira_text(data, color, is_tty);
    assert(output::shown(h, widths) == n);
    let left = output::all_left(n);
    let fh = |i: int| output::jira_head_cell(h, widths, i);
    assert forall|i: int| 0 <= i < h.len() implies #[trigger] fh(i) == spaced(
        h[i],
        widths[i] as nat,
        left[i],
    ) + seps('|', 2) by {
        assert(fh(i) =~= spaced(h[i], widths[i] as nat, left[i]) + seps('|', 2));
    }
    lemma_jira_line_unmarked(h, widths, left, fh, 2);
    assert(ls[0] == seps('|', 2) + output::concat_map(n, fh));
    assert forall|q: int| 0 <= q < ls.len() implies unmarked_line(#[trigger] ls[q]) by {
        if q > 0 {
            let cells = rows[q - 1];
            let fr = |i: int| output::jira_cell(cells, widths, flags, i);
            assert forall|i: int| 0 <= i < cells.len() implies #[trigger] fr(i) == spaced(
                cells[i],
                widths[i] as nat,
                flags[i],
            ) + seps('|', 1) by {
                assert(fr(i) =~= spaced(cells[i], widths[i] as nat, flags[i]) + seps('|', 1));
            }
            assert(output::shown(cells, widths) == n);
            lemma_jira_line_unmarked(cells, widths, flags, fr, 1);
            assert(ls[q] =~= seps('|', 1) + output::concat_map(cells.len(), fr));
        }
    }
    lemma_style_of_unmarked(ls);
    assert(text::starts_with(ls[0], seq!['|', '|'])) by {
        assert(ls[0].take(2) =~= seq!['|', '|']);
    }
}

/// Without row rules, the body lines of a box table are its data rows.
proof fn lemma_body_lines_are_rows(data: TableData, widths: Seq<usize>, cfg: BoxConfig, k: nat)
    requires
        cfg.row_sep is None,
    ensures
        body_lines(data, widths, cfg, k).len() == k,
        forall|q: int|
            0 <= q < k ==> #[trigger] body_lines(data, widths, cfg, k)[q] == data_row_line(data, widths, cfg, q),
    decreases k,
{
    if k > 0 {
        let j = (k - 1) as nat;
        lemma_body_lines_are_rows(data, widths, cfg, j);
        assert(opt_rule_lines(cfg.row_sep, widths) =~= Seq::<Seq<char>>::empty());
        assert(body_lines(data, widths, cfg, k) =~= body_lines(data, widths, cfg, j).push(
            data_row_line(data, widths, cfg, j as int),
        ));
    }
}

/// A row of a style whose verticals are all `|`, of cells that are readable
/// and unmarked, is an unmarked line whose second character is a space.
proof fn lemma_pipe_row_unmarked(cells: Seq<Seq<char>>, widths: Seq<usize>, al: Seq<bool>, cfg: BoxConfig)
    requires
        cells.len() == widths.len(),
        cells.len() > 0,
        unmarked_cells(cells),
        readable_cells(cells),
        cfg.cell_left == '|',
        cfg.cell_right == '|',
        cfg.cell_sep == '|',
    ensures
        ({
            let line = output::box_row_spec(cells, widths, al, cfg).drop_last();
            unmarked_line(line) && line[1] == ' '
        }),
{
    let n = cells.len();
    let cs = table_parse::separator_candidates();
    lemma_candidates();
    let line = output::box_row_spec(cells, widths, al, cfg).drop_last();
    let f = |i: int| output::box_cell(cells, widths, al, '|', i);
    assert(output::shown(cells, widths) == n);
    lemma_concat_map_first(n, f);
    assert(line[1] == ' ');
    assert forall|x: char| x == '║' || x == '━' || x == '─' || x == '·' || x == '│' implies !line.contains(x) by {
        let p = |y: char| y != x;
        assert forall|i: int, j: int| 0 <= i < cells.len() && 0 <= j < cells[i].len() implies p(
            #[trigger] cells[i][j],
        ) by {
            assert(!cells[i].contains(cs[3]));
            assert(!cells[i].contains(cs[0]));
            assert(!cells[i].contains(x));
        }
        lemma_row_chars(cells, widths, al, cfg, p);
        if line.contains(x) {
            let j = choose|j: int| 0 <= j < line.len() && line[j] == x;
            assert(p(line[j]));
        }
    }
    lemma_plain_pipe_line(line);
}

/// The header rule of the orgtbl style is an unmarked orgtbl separator.
proof fn lemma_orgtbl_rule(widths: Seq<usize>)
    requires
        widths.len() >= 2,
    ensures
        ({
            let rule = output::rule_spec(output::box_config_of(OutputFormat::Orgtbl).header_sep, widths).drop_last();
            unmarked_line(rule) && table_parse::is_orgtbl_sep(rule)
        }),
{
    let rc = output::box_config_of(OutputFormat::Orgtbl).header_sep;
    let n = widths.len();
    let rule = output::rule_spec(rc, widths).drop_last();
    let rf = |i: int| output::rule_segment(rc, widths, i);
    let allowed = |c: char| c == '|' || c == '-' || c == '+' || c == ' ';
    lemma_rule_chars(rc, widths, allowed);
    assert(rf(0).contains('+')) by {
        let fill = output::repeat('-', (widths[0] + 2) as nat);
        assert(rf(0)[fill.len() as int] == '+');
    }
    lemma_concat_map_contains(n, rf, 0, '+');
    let body_r = output::concat_map(n, rf);
    assert(rule =~= seq!['|'] + body_r + seq!['|']);
    assert(rule.contains('+')) by {
        let j = choose|j: int| 0 <= j < body_r.len() && body_r[j] == '+';
        assert(rule[1 + j] == '+');
    }
    assert(table_parse::is_orgtbl_sep(rule));
    assert forall|x: char| x == '║' || x == '━' || x == '─' || x == '·' || x == '│' implies !rule.contains(x) by {
        if rule.contains(x) {
            let j = choose|j: int| 0 <= j < rule.len() && rule[j] == x;
            assert(allowed(rule[j]));
        }
    }
    lemma_concat_map_first(n, rf);
    assert(rule[1] == '-');
    lemma_plain_pipe_line(rule);
}

/// A table rendered in the orgtbl style is detected as such, when it has at
/// least two columns (one column gives a rule without `+`) and its cells read
/// back and hold none of the characters that mark other styles.
pub proof fn law_orgtbl_detected(data: TableData, color: ColorMode, is_tty: bool)
    requires
        data.headers@.len() >= 2,
        readable_cells(data.header_view()),
        has_content(data.header_view()),
        readable_rows(data, data.headers@.len() as nat),
        unmarked_cells(data.header_view()),
        forall|r: int| 0 <= r < data.rows@.len() ==> unmarked_cells(#[trigger] data.row_view()[r]),
    ensures
        table_parse::style_of(text::lines_of(output::rendered(data, OutputFormat::Orgtbl, color, is_tty)))
            == OutputFormat::Orgtbl,
{
    let style = OutputFormat::Orgtbl;
    let cfg = output::box_config_of(style);
    let widths = output::widths_of(data);
    let n = data.headers@.len();
    let h = data.header_view();
    let rows = data.row_view();
    let flags = output::numeric_flags(data);
    lemma_rendered_is_box(data, style, color, is_tty);
    lemma_box_text_lines(data, cfg);
    let ls = box_lines(data, widths, cfg);
    let hrow = output::box_row_spec(h, widths, output::header_aligns(data, cfg), cfg).drop_last();
    let rule = output::rule_spec(cfg.header_sep, widths).drop_last();
    lemma_body_lines_are_rows(data, widths, cfg, rows.len());
    let body = body_lines(data, widths, cfg, rows.len());
    assert(ls =~= seq![hrow, rule] + body);
    lemma_pipe_row_unmarked(h, widths, output::header_aligns(data, cfg), cfg);
    lemma_orgtbl_rule(widths);
    assert forall|q: int| 0 <= q < ls.len() implies unmarked_line(#[trigger] ls[q]) by {
        if q >= 2 {
            assert(ls[q] == body[q - 2]);
            lemma_pipe_row_unmarked(rows[q - 2], widths, flags, cfg);
        }
    }
    lemma_style_of_unmarked(ls);
    assert(!text::starts_with(ls[0], seq!['|', '|'])) by {
        if text::starts_with(ls[0], seq!['|', '|']) {
            assert(ls[0].take(2)[1] == ls[0][1]);
        }
    }
    assert(table_parse::is_orgtbl_sep(ls[1]));
}


/// Every body line of a box table is one of its data rows or its row rule.
proof fn lemma_body_lines_each(
    data: TableData,
    widths: Seq<usize>,
    cfg: BoxConfig,
    k: nat,
    p: spec_fn(Seq<char>) -> bool,
)
    requires
        forall|r: int| 0 <= r < k ==> p(#[trigger] data_row_line(data, widths, cfg, r)),
        forall|c: LineConfig| cfg.row_sep == Some(c) ==> p(#[trigger] output::rule_spec(c, widths).drop_last()),
    ensures
        forall|q: int|
            0 <= q < body_lines(data, widths, cfg, k).len() ==> p(#[trigger] body_lines(data, widths, cfg, k)[q]),
    decreases k,
{
    if k > 0 {
        let j = (k - 1) as nat;
        lemma_body_lines_each(data, widths, cfg, j, p);
        let prev = body_lines(data, widths, cfg, j);
        let rules = if k < data.rows@.len() {
            opt_rule_lines(cfg.row_sep, widths)
        } else {
            Seq::empty()
        };
        let body = body_lines(data, widths, cfg, k);
        assert(body =~= prev + seq![data_row_line(data, widths, cfg, j as int)] + rules);
        assert forall|q: int| 0 <= q < body.len() implies p(#[trigger] body[q]) by {
            if q < prev.len() {
                assert(body[q] == prev[q]);
            } else if q == prev.len() {
                assert(body[q] == data_row_line(data, widths, cfg, j as int));
            } else {
                let c = cfg.row_sep->0;
                assert(body[q] == output::rule_spec(c, widths).drop_last());
            }
        }
    }
}

/// A rule with `+` at its ends and crossings, filled with `-` or `=`, is a
/// `+` border that marks no style and is no RST separator.
proof fn lemma_plus_rule(c: LineConfig, widths: Seq<usize>)
    requires
        c.left == '+',
        c.right == '+',
        c.cross == '+',
        c.fill == '-' || c.fill == '=',
    ensures
        ({
            let rule = output::rule_spec(c, widths).drop_last();
            &&& table_parse::marker_style(rule) is None
            &&& !table_parse::is_rst_style_sep(rule)
            &&& table_parse::is_plus_border(rule)
        }),
{
    let rule = output::rule_spec(c, widths).drop_last();
    let allowed = |x: char| x == '+' || x == '-' || x == '=';
    lemma_rule_chars(c, widths, allowed);
    assert(rule[0] == '+');
    assert(rule.contains('+'));
    assert forall|x: char| x == '║' || x == '━' || x == '·' implies !rule.contains(x) by {
        if rule.contains(x) {
            let j = choose|j: int| 0 <= j < rule.len() && rule[j] == x;
            assert(allowed(rule[j]));
        }
    }
    assert(!text::starts_with(rule, table_parse::asciidoc_delim())) by {
        if text::starts_with(rule, table_parse::asciidoc_delim()) {
            assert(rule.take(4)[0] == rule[0]);
        }
    }
    assert(!text::starts_with(rule, table_parse::cols_attr())) by {
        if text::starts_with(rule, table_parse::cols_attr()) {
            assert(rule.take(6)[0] == rule[0]);
        }
    }
    assert forall|i: int| 0 <= i < rule.len() implies (#[trigger] rule[i] == '+' || rule[i] == '-' || rule[i]
        == '=' || rule[i] == '|' || rule[i] == ' ') by {
        assert(allowed(rule[i]));
    }
}

/// Lines that mark no style and hold no RST separator, the first of them a
/// `+` border, are read as the ASCII style.
proof fn lemma_style_of_plus(ls: Seq<Seq<char>>)
    requires
        ls.len() > 0,
        table_parse::is_plus_border(ls[0]),
        forall|q: int|
            0 <= q < ls.len() ==> table_parse::marker_style(#[trigger] ls[q]) is None
                && !table_parse::is_rst_style_sep(ls[q]),
    ensures
        table_parse::style_of(ls) == OutputFormat::Ascii,
{
    lemma_first_marker_none(ls);
    let p1 = |l: Seq<char>| table_parse::is_rst_style_sep(l);
    let p2 = |l: Seq<char>| table_parse::is_plus_border(l);
    assert(!table_parse::any_line(ls, p1)) by {
        if table_parse::any_line(ls, p1) {
            let q = choose|q: int| 0 <= q < ls.len() && #[trigger] p1(ls[q]);
            assert(!table_parse::is_rst_style_sep(ls[q]));
        }
    }
    assert(p2(ls[0]));
    assert(table_parse::any_line(ls, p2));
}

/// A table rendered in the RST grid style is detected as the ASCII style,
/// whose borders it shares, when its cells read back and hold none of the
/// characters that mark other styles.
pub proof fn law_rst_grid_detected_as_ascii(data: TableData, color: ColorMode, is_tty: bool)
    requires
        data.headers@.len() > 0,
        readable_cells(data.header_view()),
        has_content(data.header_view()),
        readable_rows(data, data.headers@.len() as nat),
        unmarked_cells(data.header_view()),
        forall|r: int| 0 <= r < data.rows@.len() ==> unmarked_cells(#[trigger] data.row_view()[r]),
    ensures
        table_parse::style_of(text::lines_of(output::rendered(data, OutputFormat::RstGrid, color, is_tty)))
            == OutputFormat::Ascii,
{
    let style = OutputFormat::RstGrid;
    let cfg = output::box_config_of(style);
    let widths = output::widths_of(data);
    let n = data.headers@.len();
    let h = data.header_view();
    let rows = data.row_view();
    let flags = output::numeric_flags(data);
    lemma_rendered_is_box(data, style, color, is_tty);
    lemma_box_text_lines(data, cfg);
    let ls = box_lines(data, widths, cfg);
    let outer = cfg.top->0;
    let top = output::rule_spec(outer, widths).drop_last();
    let hrow = output::box_row_spec(h, widths, output::header_aligns(data, cfg), cfg).drop_last();
    let hsep = output::rule_spec(cfg.header_sep, widths).drop_last();
    let body = body_lines(data, widths, cfg, rows.len());
    assert(ls =~= seq![top, hrow, hsep] + body + seq![top]);
    let p = |l: Seq<char>| table_parse::marker_style(l) is None && !table_parse::is_rst_style_sep(l);
    lemma_plus_rule(outer, widths);
    lemma_plus_rule(cfg.header_sep, widths);
    lemma_pipe_row_unmarked(h, widths, output::header_aligns(data, cfg), cfg);
    assert forall|r: int| 0 <= r < rows.len() implies p(#[trigger] data_row_line(data, widths, cfg, r)) by {
        lemma_pipe_row_unmarked(rows[r], widths, flags, cfg);
    }
    assert forall|c: LineConfig| cfg.row_sep == Some(c) implies p(#[trigger] output::rule_spec(c, widths).drop_last()) by {
        lemma_plus_rule(c, widths);
    }
    lemma_body_lines_each(data, widths, cfg, rows.len(), p);
    assert forall|q: int| 0 <= q < ls.len() implies table_parse::marker_style(#[trigger] ls[q]) is None
        && !table_parse::is_rst_style_sep(ls[q]) by {
        if q == 0 || q == ls.len() - 1 {
            assert(ls[q] == top);
        } else if q == 1 {
            assert(ls[q] == hrow);
        } else if q == 2 {
            assert(ls[q] == hsep);
        } else {
            assert(ls[q] == body[q - 3]);
            assert(p(body[q - 3]));
        }
    }
    lemma_style_of_plus(ls);
}

/// The number of lines of the body of a box table's first `k` rows: one per
/// row, and a row rule after each row that another row follows.
proof fn lemma_body_lines_len(data: TableData, widths: Seq<usize>, cfg: BoxConfig, k: nat)
    requires
        k <= data.rows@.len(),
    ensures
        body_lines(data, widths, cfg, k).len() == k + if cfg.row_sep is Some && k > 0 {
            if k < data.rows@.len() {
                k as int
            } else {
                k - 1
            }
        } else {
            0
        },
    decreases k,
{
    if k > 0 {
        lemma_body_lines_len(data, widths, cfg, (k - 1) as nat);
    }
}

/// A row of cells without line feeds, between verticals that are neither a
/// line feed nor a carriage return, is a single line.
proof fn lemma_row_plain(cells: Seq<Seq<char>>, widths: Seq<usize>, al: Seq<bool>, cfg: BoxConfig)
    requires
        cfg.cell_left != '\n' && cfg.cell_right != '\n' && cfg.cell_sep != '\n',
        cfg.cell_right != '\r',
        forall|i: int| 0 <= i < cells.len() ==> !(#[trigger] cells[i]).contains('\n'),
    ensures
        text::plain_line(output::box_row_spec(cells, widths, al, cfg).drop_last()),
{
    let line = output::box_row_spec(cells, widths, al, cfg).drop_last();
    let p = |c: char| c != '\n';
    assert forall|i: int, j: int| 0 <= i < cells.len() && 0 <= j < cells[i].len() implies p(
        #[trigger] cells[i][j],
    ) by {
        if cells[i][j] == '\n' {
            assert(cells[i].contains('\n'));
        }
    }
    lemma_row_chars(cells, widths, al, cfg, p);
    if line.contains('\n') {
        let j = choose|j: int| 0 <= j < line.len() && line[j] == '\n';
        assert(p(line[j]));
    }
    assert(line.last() == cfg.cell_right);
}

/// A rule drawn with characters that are neither a line feed nor a carriage
/// return is a single line.
proof fn lemma_rule_plain(rule: LineConfig, widths: Seq<usize>)
    requires
        rule.left != '\n' && rule.right != '\n' && rule.fill != '\n' && rule.cross != '\n',
        rule.right != '\r',
    ensures
        text::plain_line(output::rule_spec(rule, widths).drop_last()),
{
    let line = output::rule_spec(rule, widths).drop_last();
    let p = |c: char| c != '\n';
    lemma_rule_chars(rule, widths, p);
    if line.contains('\n') {
        let j = choose|j: int| 0 <= j < line.len() && line[j] == '\n';
        assert(p(line[j]));
    }
    assert(line.last() == rule.right);
}

/// A rule whose characters keep it to one line: none is a line feed, and it
/// does not end in a carriage return.
pub open spec fn one_line_rule(c: LineConfig) -> bool {
    c.left != '\n' && c.right != '\n' && c.fill != '\n' && c.cross != '\n' && c.right != '\r'
}

/// A box style whose characters keep each rule and row to one line.
pub open spec fn one_line_config(cfg: BoxConfig) -> bool {
    &&& cfg.cell_left != '\n' && cfg.cell_right != '\n' && cfg.cell_sep != '\n' && cfg.cell_right != '\r'
    &&& one_line_rule(cfg.header_sep)
    &&& forall|c: LineConfig| cfg.top == Some(c) || cfg.row_sep == Some(c) || cfg.bottom == Some(c)
        ==> #[trigger] one_line_rule(c)
}

/// Headers and cells without line feeds.
pub open spec fn no_line_feeds(data: TableData) -> bool {
    &&& forall|i: int| 0 <= i < data.headers@.len() ==> !(#[trigger] data.header_view()[i]).contains('\n')
    &&& forall|r: int, i: int|
        0 <= r < data.rows@.len() && 0 <= i < data.row_view()[r].len() ==> !(
        #[trigger] data.row_view()[r][i]).contains('\n')
}

/// The text of a box table of cells without line feeds, in a style that keeps
/// rules and rows to one line, ends with a newline and splits into its box
/// lines.
proof fn lemma_box_text_split(data: TableData, widths: Seq<usize>, cfg: BoxConfig)
    requires
        one_line_config(cfg),
        no_line_feeds(data),
    ensures
        output::box_spec(data, widths, cfg).len() > 0,
        output::box_spec(data, widths, cfg).last() == '\n',
        text::lines_of(output::box_spec(data, widths, cfg)) == box_lines(data, widths, cfg),
{
    let n = data.rows@.len();
    lemma_box_spec_lines(data, widths, cfg);
    let ls = box_lines(data, widths, cfg);
    let hrow = output::box_row_spec(data.header_view(), widths, output::header_aligns(data, cfg), cfg).drop_last();
    let hsep = output::rule_spec(cfg.header_sep, widths).drop_last();
    let body = body_lines(data, widths, cfg, n);
    let p = |l: Seq<char>| text::plain_line(l);
    assert(data.header_view().len() == data.headers@.len());
    lemma_row_plain(data.header_view(), widths, output::header_aligns(data, cfg), cfg);
    lemma_rule_plain(cfg.header_sep, widths);
    assert forall|r: int| 0 <= r < n implies p(#[trigger] data_row_line(data, widths, cfg, r)) by {
        assert(data.row_view().len() == n);
        lemma_row_plain(data.row_view()[r], widths, output::numeric_flags(data), cfg);
    }
    assert forall|c: LineConfig| cfg.top == Some(c) || cfg.row_sep == Some(c) || cfg.bottom == Some(c) implies p(
        #[trigger] output::rule_spec(c, widths).drop_last(),
    ) by {
        assert(one_line_rule(c));
        lemma_rule_plain(c, widths);
    }
    lemma_body_lines_each(data, widths, cfg, n, p);
    assert(ls =~= opt_rule_lines(cfg.top, widths) + seq![hrow, hsep] + body + opt_rule_lines(cfg.bottom, widths));
    assert forall|q: int| 0 <= q < ls.len() implies text::plain_line(#[trigger] ls[q]) by {
        let t0 = opt_rule_lines(cfg.top, widths).len();
        if q < t0 {
            assert(ls[q] == output::rule_spec(cfg.top->0, widths).drop_last());
            assert(p(ls[q]));
        } else if q == t0 {
            assert(ls[q] == hrow);
        } else if q == t0 + 1 {
            assert(ls[q] == hsep);
        } else if q < t0 + 2 + body.len() {
            assert(ls[q] == body[q - t0 - 2]);
            assert(p(body[q - t0 - 2]));
        } else {
            assert(ls[q] == output::rule_spec(cfg.bottom->0, widths).drop_last());
            assert(p(ls[q]));
        }
    }
    lemma_newline_joined_join(ls);
    text::lemma_lines_of_join(ls);
}

/// A box table (as `render_box` writes it, in any style whose characters
/// keep rules and rows to one line) of headers and cells without line feeds
/// ends with a newline and has one line for each part: the top rule when the
/// style has one, the header, the header rule, each data row, a row rule
/// between two rows when the style has them, the bottom rule when the style
/// has one.
pub proof fn law_box_table_lines(data: TableData, widths: Seq<usize>, cfg: BoxConfig)
    requires
        one_line_config(cfg),
        no_line_feeds(data),
    ensures
        ({
            let t = output::box_spec(data, widths, cfg);
            let n = data.rows@.len();
            &&& t.len() > 0 && t.last() == '\n'
            &&& text::lines_of(t).len() == (if cfg.top is Some {
                1int
            } else {
                0
            }) + 2 + n + (if cfg.row_sep is Some && n > 0 {
                n - 1
            } else {
                0
            }) + (if cfg.bottom is Some {
                1int
            } else {
                0
            })
        }),
{
    lemma_box_text_split(data, widths, cfg);
    lemma_body_lines_len(data, widths, cfg, data.rows@.len());
}

/// The styles the library draws itself with rules keep rules and rows to one
/// line.
pub proof fn lemma_box_styles_one_line(style: OutputFormat)
    requires
        style is Orgtbl || style is RstGrid || style is HeavyOutline,
    ensures
        one_line_config(output::box_config_of(style)),
{
}

/// Every line of a box table (as `render_box` writes it with the column
/// widths of `col_widths`, in any style whose characters keep rules and rows
/// to one line) is as wide as the columns with a space on either side, plus
/// a border at each end and a separator between each two columns. This holds
/// when every row has one cell per header, no header or cell holds a line
/// feed, and the column widths fit in a `usize` (as they do for texts in
/// memory).
pub proof fn law_box_table_line_widths(data: TableData, cfg: BoxConfig)
    requires
        one_line_config(cfg),
        no_line_feeds(data),
        data.headers@.len() > 0,
        forall|r: int| 0 <= r < data.rows@.len() ==> #[trigger] data.row_view()[r].len() == data.headers@.len(),
        forall|i: int|
            0 <= i < data.headers@.len() ==> #[trigger] output::col_width(data.header_view(), data.row_view(), i)
                <= usize::MAX,
    ensures
        ({
            let w = output::widths_of(data);
            let ls = text::lines_of(output::box_spec(data, w, cfg));
            forall|q: int|
                0 <= q < ls.len() ==> (#[trigger] ls[q]).len() == w.len() + 1 + output::padded_total(
                    w,
                    w.len(),
                )
        }),
{
    let w = output::widths_of(data);
    let n = data.rows@.len();
    let width = w.len() + 1 + output::padded_total(w, w.len());
    assert(w.len() == data.headers@.len());
    lemma_box_text_split(data, w, cfg);
    let ls = box_lines(data, w, cfg);
    let hrow = output::box_row_spec(data.header_view(), w, output::header_aligns(data, cfg), cfg).drop_last();
    let hsep = output::rule_spec(cfg.header_sep, w).drop_last();
    let body = body_lines(data, w, cfg, n);
    let p = |l: Seq<char>| l.len() == width;
    output::law_rule_width(cfg.header_sep, w);
    output::law_box_table_aligned(data, cfg, cfg.header_sep);
    assert forall|r: int| 0 <= r < n implies p(#[trigger] data_row_line(data, w, cfg, r)) by {}
    assert forall|c: LineConfig| cfg.row_sep == Some(c) || cfg.top == Some(c) || cfg.bottom == Some(c) implies p(
        #[trigger] output::rule_spec(c, w).drop_last(),
    ) by {
        output::law_rule_width(c, w);
    }
    lemma_body_lines_each(data, w, cfg, n, p);
    assert(ls =~= opt_rule_lines(cfg.top, w) + seq![hrow, hsep] + body + opt_rule_lines(cfg.bottom, w));
    assert forall|q: int| 0 <= q < ls.len() implies (#[trigger] ls[q]).len() == width by {
        let t0 = opt_rule_lines(cfg.top, w).len();
        if q < t0 {
            assert(ls[q] == output::rule_spec(cfg.top->0, w).drop_last());
            assert(p(ls[q]));
        } else if q == t0 {
            assert(ls[q] == hrow);
        } else if q == t0 + 1 {
            assert(ls[q] == hsep);
        } else if q < t0 + 2 + body.len() {
            assert(ls[q] == body[q - t0 - 2]);
            assert(p(body[q - t0 - 2]));
        } else {
            assert(ls[q] == output::rule_spec(cfg.bottom->0, w).drop_last());
            assert(p(ls[q]));
        }
    }
}

/// A line of a box table that the table locator takes as it is and counts
/// as a table line.
pub open spec fn located_line(l: Seq<char>) -> bool {
    unprefixed(l) && locate::table_line_spec(l)
}

/// A row of a style whose left border is `|` or `┃` is such a line.
proof fn lemma_row_located(cells: Seq<Seq<char>>, widths: Seq<usize>, al: Seq<bool>, cfg: BoxConfig)
    requires
        cfg.cell_left == '|' || cfg.cell_left == '┃',
    ensures
        located_line(output::box_row_spec(cells, widths, al, cfg).drop_last()),
{
    let l = output::box_row_spec(cells, widths, al, cfg).drop_last();
    assert(l[0] == cfg.cell_left);
    assert(l.contains(cfg.cell_left));
}

/// A rule of border characters that does not begin with a prefix character
/// is such a line.
proof fn lemma_rule_located(c: LineConfig, widths: Seq<usize>)
    requires
        plain_start(c.left),
        table_parse::is_border_char(c.left),
        table_parse::is_border_char(c.right),
        table_parse::is_border_char(c.fill),
        table_parse::is_border_char(c.cross),
    ensures
        located_line(output::rule_spec(c, widths).drop_last()),
{
    let l = output::rule_spec(c, widths).drop_last();
    lemma_rule_chars(c, widths, |x: char| table_parse::is_border_char(x));
    assert(l[0] == c.left);
    assert(table_parse::border_spec(l));
}

/// A table rendered in orgtbl, RST grid or heavy outline style is one table
/// to the table locator: asked about any of its lines, it finds all of them,
/// from the first line to the last (when no header or cell holds a line
/// feed).
pub proof fn law_rendered_table_is_one_table(data: TableData, style: OutputFormat, color: ColorMode, is_tty: bool)
    requires
        style is Orgtbl || style is RstGrid || style is HeavyOutline,
        no_line_feeds(data),
    ensures
        ({
            let ls = text::lines_of(output::rendered(data, style, color, is_tty));
            forall|t: int|
                0 <= t < ls.len() ==> #[trigger] locate::bounds_of(ls, t) == Ok::<(int, int), crate::error::TableError>(
                    (0, ls.len() - 1),
                )
        }),
{
    let cfg = output::box_config_of(style);
    let widths = output::widths_of(data);
    let n = data.rows@.len();
    lemma_rendered_is_box(data, style, color, is_tty);
    lemma_box_styles_one_line(style);
    lemma_box_text_split(data, widths, cfg);
    let ls = box_lines(data, widths, cfg);
    let hrow = output::box_row_spec(data.header_view(), widths, output::header_aligns(data, cfg), cfg).drop_last();
    let hsep = output::rule_spec(cfg.header_sep, widths).drop_last();
    let body = body_lines(data, widths, cfg, n);
    let p = |l: Seq<char>| located_line(l);
    lemma_row_located(data.header_view(), widths, output::header_aligns(data, cfg), cfg);
    lemma_rule_located(cfg.header_sep, widths);
    assert forall|r: int| 0 <= r < n implies p(#[trigger] data_row_line(data, widths, cfg, r)) by {
        lemma_row_located(data.row_view()[r], widths, output::numeric_flags(data), cfg);
    }
    assert forall|c: LineConfig| cfg.top == Some(c) || cfg.row_sep == Some(c) || cfg.bottom == Some(c) implies p(
        #[trigger] output::rule_spec(c, widths).drop_last(),
    ) by {
        lemma_rule_located(c, widths);
    }
    lemma_body_lines_each(data, widths, cfg, n, p);
    assert(ls =~= opt_rule_lines(cfg.top, widths) + seq![hrow, hsep] + body + opt_rule_lines(cfg.bottom, widths));
    assert forall|q: int| 0 <= q < ls.len() implies located_line(#[trigger] ls[q]) by {
        let t0 = opt_rule_lines(cfg.top, widths).len();
        if q < t0 {
            assert(ls[q] == output::rule_spec(cfg.top->0, widths).drop_last());
            assert(p(ls[q]));
        } else if q == t0 {
            assert(ls[q] == hrow);
        } else if q == t0 + 1 {
            assert(ls[q] == hsep);
        } else if q < t0 + 2 + body.len() {
            assert(ls[q] == body[q - t0 - 2]);
            assert(p(body[q - t0 - 2]));
        } else {
            assert(ls[q] == output::rule_spec(cfg.bottom->0, widths).drop_last());
            assert(p(ls[q]));
        }
    }
    assert forall|q: int| 0 <= q < ls.len() implies prettify::bare_of(#[trigger] ls[q]) == ls[q] by {
        assert(located_line(ls[q]));
        lemma_unprefixed(ls[q]);
    }
    assert forall|q: int| 0 <= q < ls.len() implies locate::table_line_spec(#[trigger] ls[q]) by {
        assert(located_line(ls[q]));
    }
    locate::law_table_lines_form_one_table(ls);
}

} // verus!
