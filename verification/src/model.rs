//! The in-memory table every parser produces and every renderer consumes.

use vstd::prelude::*;
use crate::text;

verus! {

/// What the numeric analysis learned about one column.
#[derive(Debug, Clone, Copy, PartialEq, Eq, Structural)]
pub struct ColumnMeta {
    pub is_numeric: bool,
    pub max_decimal_places: usize,
}

impl Default for ColumnMeta {
    fn default() -> (m: Self)
        ensures
            m == (ColumnMeta { is_numeric: false, max_decimal_places: 0 }),
    {
        ColumnMeta { is_numeric: false, max_decimal_places: 0 }
    }
}

/// A header row, data rows and one `ColumnMeta` per header.
#[derive(Debug)]
pub struct TableData {
    pub headers: Vec<String>,
    pub rows: Vec<Vec<String>>,
    pub column_meta: Vec<ColumnMeta>,
}

/// The column analysis a fresh table starts with: nothing numeric.
pub open spec fn default_meta(n: nat) -> Seq<ColumnMeta> {
    Seq::new(n, |i: int| ColumnMeta { is_numeric: false, max_decimal_places: 0 })
}

/// Every row of `rows` has at least `n` cells.
pub open spec fn rows_cover(rows: Seq<Seq<Seq<char>>>, n: int) -> bool {
    forall|r: int| 0 <= r < rows.len() ==> #[trigger] rows[r].len() >= n
}

/// Each text of `cells` trimmed of surrounding white space.
pub open spec fn trimmed_cells(cells: Seq<Seq<char>>) -> Seq<Seq<char>> {
    cells.map_values(|c: Seq<char>| text::trim(c))
}

/// Each cell of each row trimmed of surrounding white space.
pub open spec fn trimmed_rows(rows: Seq<Seq<Seq<char>>>) -> Seq<Seq<Seq<char>>> {
    rows.map_values(|r: Seq<Seq<char>>| trimmed_cells(r))
}

/// Trimming a table's values a second time changes nothing.
pub proof fn law_trim_values_idempotent(headers: Seq<Seq<char>>, rows: Seq<Seq<Seq<char>>>)
    ensures
        trimmed_cells(trimmed_cells(headers)) == trimmed_cells(headers),
        trimmed_rows(trimmed_rows(rows)) == trimmed_rows(rows),
{
    assert forall|i: int| 0 <= i < headers.len() implies #[trigger] trimmed_cells(
        trimmed_cells(headers),
    )[i] == trimmed_cells(headers)[i] by {
        text::lemma_trim_idempotent(headers[i]);
    }
    assert(trimmed_cells(trimmed_cells(headers)) =~= trimmed_cells(headers));
    assert forall|r: int| 0 <= r < rows.len() implies #[trigger] trimmed_rows(trimmed_rows(rows))[r]
        == trimmed_rows(rows)[r] by {
        let row = rows[r];
        assert forall|i: int| 0 <= i < row.len() implies #[trigger] trimmed_cells(
            trimmed_cells(row),
        )[i] == trimmed_cells(row)[i] by {
            text::lemma_trim_idempotent(row[i]);
        }
        assert(trimmed_cells(trimmed_cells(row)) =~= trimmed_cells(row));
    }
    assert(trimmed_rows(trimmed_rows(rows)) =~= trimmed_rows(rows));
}

impl TableData {
    /// The header texts.
    pub open spec fn header_view(&self) -> Seq<Seq<char>> {
        self.headers.deep_view()
    }

    /// The cell texts, row by row.
    pub open spec fn row_view(&self) -> Seq<Seq<Seq<char>>> {
        self.rows.deep_view()
    }

    /// One `ColumnMeta` per header, as every constructor and method keeps it.
    pub open spec fn well_formed(&self) -> bool {
        self.column_meta@.len() == self.headers@.len()
    }

    /// A table of the given headers and rows, with default column analysis.
    pub fn new(headers: Vec<String>, rows: Vec<Vec<String>>) -> (t: Self)
        ensures
            t.headers == headers,
            t.rows == rows,
            t.column_meta@ == default_meta(headers@.len()),
            t.well_formed(),
    {
        let n = headers.len();
        let mut column_meta: Vec<ColumnMeta> = Vec::new();
        let mut i: usize = 0;
        while i < n
            invariant
                i <= n,
                column_meta@ == default_meta(i as nat),
            decreases n - i,
        {
            column_meta.push(ColumnMeta::default());
            i = i + 1;
            assert(column_meta@ =~= default_meta(i as nat));
        }
        TableData { headers, rows, column_meta }
    }

    /// Keeps at most the first `max_rows` data rows.
    pub fn truncate_rows(&mut self, max_rows: usize)
        ensures
            final(self).headers == old(self).headers,
            final(self).column_meta == old(self).column_meta,
            final(self).rows@ == if max_rows <= old(self).rows@.len() {
                old(self).rows@.take(max_rows as int)
            } else {
                old(self).rows@
            },
    {
        self.rows.truncate(max_rows);
    }

    /// Trims the white space around every header and cell.
    pub fn trim_values(&mut self)
        ensures
            final(self).column_meta == old(self).column_meta,
            final(self).header_view() == trimmed_cells(old(self).header_view()),
            final(self).row_view() == trimmed_rows(old(self).row_view()),
    {
        let ghost old_h = self.header_view();
        let ghost old_r = self.row_view();
        let mut i: usize = 0;
        while i < self.headers.len()
            invariant
                i <= self.headers@.len(),
                self.headers@.len() == old_h.len(),
                self.column_meta == old(self).column_meta,
                self.rows == old(self).rows,
                forall|j: int| 0 <= j < i ==> #[trigger] self.headers@[j]@ == text::trim(old_h[j]),
                forall|j: int| i <= j < old_h.len() ==> #[trigger] self.headers@[j]@ == old_h[j],
            decreases old_h.len() - i,
        {
            let t = text::trim_string(self.headers[i].as_str());
            self.headers.set(i, t);
            i = i + 1;
        }
        assert(self.header_view() =~= trimmed_cells(old_h));
        let mut r: usize = 0;
        while r < self.rows.len()
            invariant
                r <= self.rows@.len(),
                self.rows@.len() == old_r.len(),
                self.column_meta == old(self).column_meta,
                self.header_view() == trimmed_cells(old_h),
                forall|j: int|
                    0 <= j < r ==> #[trigger] self.rows@[j].deep_view() == trimmed_cells(old_r[j]),
                forall|j: int| r <= j < old_r.len() ==> #[trigger] self.rows@[j].deep_view() == old_r[j],
            decreases old_r.len() - r,
        {
            let mut row: Vec<String> = Vec::new();
            let n = self.rows[r].len();
            let ghost src = old_r[r as int];
            let mut c: usize = 0;
            while c < n
                invariant
                    c <= n,
                    r < self.rows@.len(),
                    n == self.rows@[r as int]@.len(),
                    src == self.rows@[r as int].deep_view(),
                    row@.len() == c,
                    forall|k: int| 0 <= k < c ==> #[trigger] row@[k]@ == text::trim(src[k]),
                decreases n - c,
            {
                let t = text::trim_string(self.rows[r][c].as_str());
                row.push(t);
                c = c + 1;
            }
            assert(row.deep_view() =~= trimmed_cells(src));
            self.rows.set(r, row);
            r = r + 1;
        }
        assert(self.row_view() =~= trimmed_rows(old_r));
    }
}

} // verus!
