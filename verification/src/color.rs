//! Colouring the columns or the rows of a `tabled` table.

use vstd::prelude::*;
use tabled::Table;
use crate::cli::ColorMode;
use crate::tabled_api;
use crate::tabled_api::{TableSetting, TermColor};

verus! {

/// The colours of successive columns, repeating.
pub open spec fn column_palette() -> Seq<TermColor> {
    seq![
        TermColor::Cyan,
        TermColor::Yellow,
        TermColor::Green,
        TermColor::Magenta,
        TermColor::Red,
        TermColor::Blue,
    ]
}

/// The colour of data row `i` (0-based): cyan and white alternating.
pub open spec fn row_color(i: int) -> TermColor {
    if i % 2 == 0 {
        TermColor::Cyan
    } else {
        TermColor::White
    }
}

/// The colour settings for a mode: every column in palette order, or every
/// data row (table rows 1 onward, row 0 being the header) alternating.
pub open spec fn color_settings(mode: ColorMode, n_cols: nat, n_rows: nat) -> Seq<TableSetting> {
    match mode {
        ColorMode::Off => Seq::empty(),
        ColorMode::Columns => Seq::new(
            n_cols,
            |i: int| TableSetting::ColorColumn(i as usize, column_palette()[i % 6]),
        ),
        ColorMode::Rows => Seq::new(
            n_rows,
            |i: int| TableSetting::ColorRow((i + 1) as usize, row_color(i)),
        ),
    }
}

/// Colours the columns or the data rows of `table`.
pub fn apply(table: &mut Table, mode: &ColorMode, n_cols: usize, n_data_rows: usize)
    ensures
        tabled_api::table_records(*final(table)) == tabled_api::table_records(*old(table)),
        tabled_api::table_settings(*final(table)) == tabled_api::table_settings(*old(table))
            + color_settings(*mode, n_cols as nat, n_data_rows as nat),
{
    let palette: [TermColor; 6] = [
        TermColor::Cyan,
        TermColor::Yellow,
        TermColor::Green,
        TermColor::Magenta,
        TermColor::Red,
        TermColor::Blue,
    ];
    assert(palette@ == column_palette());
    let ghost start = tabled_api::table_settings(*table);
    match mode {
        ColorMode::Off => {
            assert(start + color_settings(*mode, n_cols as nat, n_data_rows as nat) =~= start);
        },
        ColorMode::Columns => {
            let mut i: usize = 0;
            while i < n_cols
                invariant
                    i <= n_cols,
                    palette@ == column_palette(),
                    tabled_api::table_records(*table) == tabled_api::table_records(*old(table)),
                    tabled_api::table_settings(*table) == start + color_settings(
                        ColorMode::Columns,
                        i as nat,
                        0,
                    ),
                decreases n_cols - i,
            {
                tabled_api::color_column(table, i, palette[i % 6]);
                i = i + 1;
                assert(tabled_api::table_settings(*table) =~= start + color_settings(
                    ColorMode::Columns,
                    i as nat,
                    0,
                ));
            }
        },
        ColorMode::Rows => {
            let mut i: usize = 0;
            while i < n_data_rows
                invariant
                    i <= n_data_rows,
                    tabled_api::table_records(*table) == tabled_api::table_records(*old(table)),
                    tabled_api::table_settings(*table) == start + color_settings(
                        ColorMode::Rows,
                        0,
                        i as nat,
                    ),
                decreases n_data_rows - i,
            {
                let c = if i % 2 == 0 {
                    TermColor::Cyan
                } else {
                    TermColor::White
                };
                tabled_api::color_row(table, i + 1, c);
                i = i + 1;
                assert(tabled_api::table_settings(*table) =~= start + color_settings(
                    ColorMode::Rows,
                    0,
                    i as nat,
                ));
            }
        },
    }
}

} // verus!
