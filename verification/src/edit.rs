//! Editing operations on a table: finding the column under a cursor,
//! inserting an empty column and removing a column.

use vstd::prelude::*;
use crate::text;
use crate::prettify;
use crate::table_parse;
use crate::model::TableData;
use crate::error::TableError;


verus! {

/// The 0-based column under cursor offset `cursor` of a (possibly commented)
/// table line: the number of separators before the cursor in the bare line,
/// less one, never below 0.
pub open spec fn column_at(line: Seq<char>, cursor: nat) -> nat {
    let b = prettify::bare_of(line);
    let p = line.len() - b.len();
    let c = if cursor >= p {
        (cursor - p) as nat
    } else {
        0nat
    };
    let k = if c <= b.len() {
        c
    } else {
        b.len()
    };
    let n = text::count_char(b.take(k as int), table_parse::separator_of(b));
    if n > 0 {
        (n - 1) as nat
    } else {
        0
    }
}

/// The 0-based table column for a cursor at character offset `raw_cursor` of
/// the original (unstripped) line. Works with any pipe-family separator
/// (`| │ ┃ ║ ·`); RST simple tables give 0.
pub fn find_column_at_cursor(original_line: &str, raw_cursor: usize) -> (col: usize)
    ensures
        col == column_at(original_line@, raw_cursor as nat),
{
    let v = text::chars_of(original_line);
    let bare = prettify::bare_line(original_line);
    let b = text::chars_of(bare);
    let prefix_len = v.len() - b.len();
    let cursor_in_bare = raw_cursor.saturating_sub(prefix_len);
    let sep = table_parse::detect_separator(b.as_slice());
    let k = if cursor_in_bare <= b.len() {
        cursor_in_bare
    } else {
        b.len()
    };
    let n = text::count_of(&b.as_slice()[0..k], sep);
    assert(b@.subrange(0, k as int) =~= b@.take(k as int));
    n.saturating_sub(1)
}

/// A longer prefix holds at least as many of a character.
proof fn lemma_count_prefix_grows(s: Seq<char>, c: char, i: int, j: int)
    requires
        0 <= i <= j <= s.len(),
    ensures
        text::count_char(s.take(i), c) <= text::count_char(s.take(j), c),
    decreases j - i,
{
    if i < j {
        lemma_count_prefix_grows(s, c, i, j - 1);
        assert(s.take(j).drop_last() =~= s.take(j - 1));
    }
}

/// Moving the cursor right never moves it to an earlier column.
pub proof fn law_column_at_monotone(line: Seq<char>, c1: nat, c2: nat)
    requires
        c1 <= c2,
    ensures
        column_at(line, c1) <= column_at(line, c2),
{
    let b = prettify::bare_of(line);
    let p = line.len() - b.len();
    let k = |cursor: nat| {
        let c = if cursor >= p {
            (cursor - p) as nat
        } else {
            0nat
        };
        if c <= b.len() {
            c
        } else {
            b.len()
        }
    };
    lemma_count_prefix_grows(b, table_parse::separator_of(b), k(c1) as int, k(c2) as int);
}

/// The column under a cursor does not depend on the line's prefix: putting
/// an indentation and comment prefix in front of a bare line and moving the
/// cursor right by the prefix's length finds the same column, and a cursor
/// inside the prefix finds column 0.
pub proof fn law_column_ignores_prefix(meta: prettify::PrettifyMeta, b: Seq<char>, c: nat)
    requires
        meta.comment matches Some(m) ==> prettify::comment_markers().contains(m@),
        b.len() == 0 || !prettify::is_indent(b[0]),
        prettify::comment_of(b) is None,
    ensures
        column_at(meta.line_prefix() + b, c + meta.line_prefix().len()) == column_at(b, c),
        c < meta.line_prefix().len() ==> column_at(meta.line_prefix() + b, c) == 0,
{
    prettify::law_prefix_strips_back(meta, b);
    let plain = prettify::PrettifyMeta { pre_comment_spaces: 0, comment: None, post_comment_spaces: 0 };
    prettify::law_prefix_strips_back(plain, b);
    assert(plain.line_prefix() + b =~= b);
    assert(b.take(0) =~= Seq::<char>::empty());
}

/// On a bare line (one without indentation or comment prefix), the cursor at
/// the start is in column 0; moving it right across a character other than
/// the line's column separator keeps its column; moving it across a
/// separator moves it to the next column, except across the first separator
/// (the table's left border); and past the end of the line the column stays
/// that of the end.
pub proof fn law_column_steps(b: Seq<char>, j: nat)
    requires
        b.len() == 0 || !prettify::is_indent(b[0]),
        prettify::comment_of(b) is None,
    ensures
        column_at(b, 0) == 0,
        j < b.len() && b[j as int] != table_parse::separator_of(b) ==> column_at(b, j + 1) == column_at(b, j),
        j < b.len() && b[j as int] == table_parse::separator_of(b) && b.take(j as int).contains(
            table_parse::separator_of(b),
        ) ==> column_at(b, j + 1) == column_at(b, j) + 1,
        j < b.len() && b[j as int] == table_parse::separator_of(b) && !b.take(j as int).contains(
            table_parse::separator_of(b),
        ) ==> column_at(b, j + 1) == 0,
        j >= b.len() ==> column_at(b, j) == column_at(b, b.len()),
{
    let plain = prettify::PrettifyMeta { pre_comment_spaces: 0, comment: None, post_comment_spaces: 0 };
    prettify::law_prefix_strips_back(plain, b);
    assert(plain.line_prefix() + b =~= b);
    let sep = table_parse::separator_of(b);
    assert(b.take(0) =~= Seq::<char>::empty());
    if j < b.len() {
        assert(b.take(j + 1int).drop_last() =~= b.take(j as int));
        assert(b.take(j + 1int).last() == b[j as int]);
        lemma_count_zero_iff_absent(b.take(j as int), sep);
    }
}

/// A text holds a character none of its characters are exactly when it
/// counts none of them.
proof fn lemma_count_zero_iff_absent(s: Seq<char>, c: char)
    ensures
        (text::count_char(s, c) == 0) == !s.contains(c),
    decreases s.len(),
{
    if s.len() > 0 {
        lemma_count_zero_iff_absent(s.drop_last(), c);
        if s.drop_last().contains(c) {
            let k = choose|k: int| 0 <= k < s.drop_last().len() && s.drop_last()[k] == c;
            assert(s[k] == c);
        }
        if s.contains(c) && s.last() != c {
            let k = choose|k: int| 0 <= k < s.len() && s[k] == c;
            assert(s.drop_last()[k] == c);
        }
        if s.last() == c {
            assert(s[s.len() - 1] == c);
        }
    }
}

/// Where an empty column asked for at `col_idx` goes among `n` columns.
pub open spec fn insert_index(col_idx: int, n: int) -> int {
    if col_idx <= n {
        col_idx
    } else {
        n
    }
}

/// `row` with an empty cell at column `idx`, or at its end when it is shorter.
pub open spec fn row_with_empty_cell(row: Seq<Seq<char>>, idx: int) -> Seq<Seq<char>> {
    row.insert(
        if idx <= row.len() {
            idx
        } else {
            row.len() as int
        },
        Seq::empty(),
    )
}

/// `row` without its cell at column `idx`, or unchanged when it has none there.
pub open spec fn row_without_cell(row: Seq<Seq<char>>, idx: int) -> Seq<Seq<char>> {
    if idx < row.len() {
        row.remove(idx)
    } else {
        row
    }
}

/// The table `v` with an empty column inserted at `col_idx`, clamped to the
/// number of columns.
pub open spec fn with_empty_column(v: table_parse::TableView, col_idx: int) -> table_parse::TableView {
    let idx = insert_index(col_idx, v.0.len() as int);
    (v.0.insert(idx, Seq::empty()), v.1.map_values(|r: Seq<Seq<char>>| row_with_empty_cell(r, idx)))
}

/// The table `v` without its column `col_idx`.
pub open spec fn without_column(v: table_parse::TableView, col_idx: int) -> table_parse::TableView {
    (v.0.remove(col_idx), v.1.map_values(|r: Seq<Seq<char>>| row_without_cell(r, col_idx)))
}

/// The headers and rows of `t`.
pub open spec fn view_of(t: TableData) -> table_parse::TableView {
    (t.header_view(), t.row_view())
}

/// Inserts an empty column at `col_idx`, clamped to the number of columns;
/// a row too short to reach that position gets its empty cell at its end.
/// The column analysis starts afresh.
pub fn add_column(data: TableData, col_idx: usize) -> (t: TableData)
    ensures
        t.header_view() == with_empty_column(view_of(data), col_idx as int).0,
        t.row_view() == with_empty_column(view_of(data), col_idx as int).1,
        t.column_meta@ == crate::model::default_meta(t.headers@.len()),
        t.well_formed(),
{
    let ghost old_h = data.header_view();
    let ghost old_r = data.row_view();
    let idx = if col_idx <= data.headers.len() {
        col_idx
    } else {
        data.headers.len()
    };
    let mut headers = data.headers;
    headers.insert(idx, String::new());
    assert(headers.deep_view() =~= old_h.insert(idx as int, Seq::empty()));
    let mut rows: Vec<Vec<String>> = Vec::new();
    for row in it: data.rows.into_iter()
        invariant
            it.seq().len() == old_r.len(),
            forall|r: int| 0 <= r < old_r.len() ==> #[trigger] it.seq()[r].deep_view() == old_r[r],
            rows@.len() == it.index(),
            forall|r: int|
                0 <= r < rows@.len() ==> #[trigger] rows@[r].deep_view() == row_with_empty_cell(
                    old_r[r],
                    idx as int,
                ),
    {
        let mut row = row;
        let ghost before = row.deep_view();
        let at = if idx <= row.len() {
            idx
        } else {
            row.len()
        };
        row.insert(at, String::new());
        assert(row.deep_view() =~= before.insert(at as int, Seq::empty()));
        rows.push(row);
    }
    assert(rows.deep_view() =~= old_r.map_values(
        |r: Seq<Seq<char>>| row_with_empty_cell(r, idx as int),
    ));
    TableData::new(headers, rows)
}

/// Removes the column at `col_idx`; rows too short to have that cell are
/// kept as they are. The column analysis starts afresh. An index past the
/// last column is refused.
pub fn remove_column(data: TableData, col_idx: usize) -> (res: Result<TableData, TableError>)
    ensures
        col_idx >= data.headers@.len() ==> res == Err::<TableData, TableError>(
            TableError::ColumnOutOfRange { index: col_idx, n_columns: data.headers@.len() as usize },
        ),
        col_idx < data.headers@.len() ==> (res matches Ok(t) && t.header_view() == without_column(
            view_of(data),
            col_idx as int,
        ).0 && t.row_view() == without_column(view_of(data), col_idx as int).1
            && t.column_meta@ == crate::model::default_meta(t.headers@.len())
            && t.well_formed()),
{
    if col_idx >= data.headers.len() {
        return Err(TableError::ColumnOutOfRange { index: col_idx, n_columns: data.headers.len() });
    }
    let ghost old_h = data.header_view();
    let ghost old_r = data.row_view();
    let mut headers = data.headers;
    headers.remove(col_idx);
    assert(headers.deep_view() =~= old_h.remove(col_idx as int));
    let mut rows: Vec<Vec<String>> = Vec::new();
    for row in it: data.rows.into_iter()
        invariant
            it.seq().len() == old_r.len(),
            forall|r: int| 0 <= r < old_r.len() ==> #[trigger] it.seq()[r].deep_view() == old_r[r],
            rows@.len() == it.index(),
            forall|r: int|
                0 <= r < rows@.len() ==> #[trigger] rows@[r].deep_view() == row_without_cell(
                    old_r[r],
                    col_idx as int,
                ),
    {
        let mut row = row;
        let ghost before = row.deep_view();
        if col_idx < row.len() {
            row.remove(col_idx);
            assert(row.deep_view() =~= before.remove(col_idx as int));
        }
        rows.push(row);
    }
    assert(rows.deep_view() =~= old_r.map_values(
        |r: Seq<Seq<char>>| row_without_cell(r, col_idx as int),
    ));
    Ok(TableData::new(headers, rows))
}

/// Removing the column that was just inserted gives the table back, when the
/// column was asked for within the table and every row reaches it.
pub proof fn law_remove_undoes_add(v: table_parse::TableView, col_idx: int)
    requires
        0 <= col_idx <= v.0.len(),
        crate::model::rows_cover(v.1, col_idx),
    ensures
        col_idx < with_empty_column(v, col_idx).0.len(),
        without_column(with_empty_column(v, col_idx), col_idx) == v,
{
    let w = with_empty_column(v, col_idx);
    assert(w.0.remove(col_idx) =~= v.0);
    assert forall|r: int| 0 <= r < v.1.len() implies #[trigger] row_without_cell(w.1[r], col_idx)
        == v.1[r] by {
        assert(v.1[r].len() >= col_idx);
        assert(w.1[r] == v.1[r].insert(col_idx, Seq::empty()));
        assert(w.1[r].remove(col_idx) =~= v.1[r]);
    }
    let back = without_column(w, col_idx);
    assert(back.1 =~= v.1);
    assert(back.0 =~= v.0);
}

/// Inserting a column, or removing one that exists, keeps every row at least
/// as long as the header row.
pub proof fn law_column_edits_keep_rows_covered(v: table_parse::TableView, col_idx: int)
    requires
        0 <= col_idx,
        crate::model::rows_cover(v.1, v.0.len() as int),
    ensures
        crate::model::rows_cover(with_empty_column(v, col_idx).1, with_empty_column(v, col_idx).0.len() as int),
        col_idx < v.0.len() ==> crate::model::rows_cover(
            without_column(v, col_idx).1,
            without_column(v, col_idx).0.len() as int,
        ),
{
    let w = with_empty_column(v, col_idx);
    assert forall|r: int| 0 <= r < w.1.len() implies #[trigger] w.1[r].len() >= w.0.len() by {
        assert(v.1[r].len() >= v.0.len());
    }
    if col_idx < v.0.len() {
        let x = without_column(v, col_idx);
        assert forall|r: int| 0 <= r < x.1.len() implies #[trigger] x.1[r].len() >= x.0.len() by {
            assert(v.1[r].len() >= v.0.len());
        }
    }
}

} // verus!
