//! The parts of the `tabled` crate that the library renders with, and what
//! the library relies on about them.

use vstd::prelude::*;
use tabled::builder::Builder;
use tabled::Table;
use tabled::settings::{Alignment, Color, Style};
use tabled::settings::object::{Columns, Rows};

verus! {

#[verifier::external_type_specification]
#[verifier::external_body]
pub struct ExBuilder(Builder);

#[verifier::external_type_specification]
#[verifier::external_body]
pub struct ExTable(Table);

/// The `tabled` style presets the library uses.
#[derive(Clone, Copy, Debug, PartialEq, Eq, Structural)]
pub enum TabledStyle {
    Markdown,
    Psql,
    ReStructuredText,
    Dots,
    Ascii,
    Modern,
    Sharp,
    Extended,
}

/// The terminal foreground colours the library uses.
#[derive(Clone, Copy, Debug, PartialEq, Eq, Structural)]
pub enum TermColor {
    Cyan,
    Yellow,
    Green,
    Magenta,
    Red,
    Blue,
    White,
}

/// A setting applied to a `tabled::Table`.
#[derive(Clone, Copy, Debug, PartialEq, Eq, Structural)]
pub enum TableSetting {
    /// `Table::with` a style preset.
    Style(TabledStyle),
    /// `Table::modify` of one column with `Alignment::right()`.
    AlignRight(usize),
    /// `Table::modify` of one column with a foreground colour.
    ColorColumn(usize, TermColor),
    /// `Table::modify` of one row with a foreground colour.
    ColorRow(usize, TermColor),
}

/// The records held by a builder, in order, as filled out with empty cells.
pub uninterp spec fn builder_records(b: Builder) -> Seq<Seq<Seq<char>>>;

/// The number of columns a builder fills its records out to.
pub uninterp spec fn builder_width(b: Builder) -> nat;

/// `n` empty cells.
pub open spec fn blanks(n: nat) -> Seq<Seq<char>> {
    Seq::new(n, |i: int| Seq::<char>::empty())
}

/// A record filled out with empty cells to at least `w` cells.
pub open spec fn fill_to(r: Seq<Seq<char>>, w: nat) -> Seq<Seq<char>> {
    if r.len() >= w {
        r
    } else {
        r + blanks((w - r.len()) as nat)
    }
}

/// The width of a builder of width `w` after a record is pushed: the larger
/// of `w` and the record's length.
pub open spec fn pushed_width(w: nat, r: Seq<Seq<char>>) -> nat {
    if r.len() > w {
        r.len()
    } else {
        w
    }
}

/// The records of a builder of width `w` after `r` is pushed: the earlier
/// records get as many empty cells as the width grows by, and `r` is filled
/// out to `w`.
pub open spec fn pushed_records(recs: Seq<Seq<Seq<char>>>, w: nat, r: Seq<Seq<char>>) -> Seq<
    Seq<Seq<char>>,
> {
    recs.map_values(|x: Seq<Seq<char>>| x + blanks((pushed_width(w, r) - w) as nat)).push(fill_to(r, w))
}

/// The records a table was built from.
pub uninterp spec fn table_records(t: Table) -> Seq<Seq<Seq<char>>>;

/// The settings applied to a table since it was built, in order.
pub uninterp spec fn table_settings(t: Table) -> Seq<TableSetting>;

/// The text that `tabled` renders for the given records and settings.
pub uninterp spec fn tabled_text(records: Seq<Seq<Seq<char>>>, settings: Seq<TableSetting>) -> Seq<char>;

/// `Builder::new`: a builder without records, of width 0.
#[verifier::external_body]
pub(crate) fn new_builder() -> (b: Builder)
    ensures
        builder_records(b) == Seq::<Seq<Seq<char>>>::empty(),
        builder_width(b) == 0,
{
    Builder::new()
}

/// `Builder::push_record`: appends one record, filled out with empty cells
/// to the builder's width; a longer record widens the builder, and every
/// earlier record gets empty cells for the new columns.
#[verifier::external_body]
pub(crate) fn push_record(b: &mut Builder, record: &Vec<String>)
    ensures
        builder_width(*final(b)) == pushed_width(builder_width(*old(b)), record.deep_view()),
        builder_records(*final(b)) == pushed_records(
            builder_records(*old(b)),
            builder_width(*old(b)),
            record.deep_view(),
        ),
{
    b.push_record(record.iter())
}

/// `Builder::build`: a table of the builder's records, no settings applied.
#[verifier::external_body]
pub(crate) fn build(b: Builder) -> (t: Table)
    ensures
        table_records(t) == builder_records(b),
        table_settings(t) == Seq::<TableSetting>::empty(),
{
    b.build()
}

/// `Table::with` a style preset: records one more setting.
#[verifier::external_body]
pub(crate) fn with_style(t: &mut Table, style: TabledStyle)
    ensures
        table_records(*final(t)) == table_records(*old(t)),
        table_settings(*final(t)) == table_settings(*old(t)).push(TableSetting::Style(style)),
{
    match style {
        TabledStyle::Markdown => t.with(Style::markdown()),
        TabledStyle::Psql => t.with(Style::psql()),
        TabledStyle::ReStructuredText => t.with(Style::re_structured_text()),
        TabledStyle::Dots => t.with(Style::dots()),
        TabledStyle::Ascii => t.with(Style::ascii()),
        TabledStyle::Modern => t.with(Style::modern()),
        TabledStyle::Sharp => t.with(Style::sharp()),
        TabledStyle::Extended => t.with(Style::extended()),
    };
}

/// `Table::modify` of column `col` with `Alignment::right()`.
#[verifier::external_body]
pub(crate) fn align_right(t: &mut Table, col: usize)
    ensures
        table_records(*final(t)) == table_records(*old(t)),
        table_settings(*final(t)) == table_settings(*old(t)).push(TableSetting::AlignRight(col)),
{
    t.modify(Columns::one(col), Alignment::right());
}

/// `Table::modify` of column `col` with a foreground colour.
#[verifier::external_body]
pub(crate) fn color_column(t: &mut Table, col: usize, color: TermColor)
    ensures
        table_records(*final(t)) == table_records(*old(t)),
        table_settings(*final(t)) == table_settings(*old(t)).push(
            TableSetting::ColorColumn(col, color),
        ),
{
    let c = match color {
        TermColor::Cyan => Color::FG_CYAN,
        TermColor::Yellow => Color::FG_YELLOW,
        TermColor::Green => Color::FG_GREEN,
        TermColor::Magenta => Color::FG_MAGENTA,
        TermColor::Red => Color::FG_RED,
        TermColor::Blue => Color::FG_BLUE,
        TermColor::White => Color::FG_WHITE,
    };
    t.modify(Columns::one(col), c);
}

/// `Table::modify` of row `row` with a foreground colour.
#[verifier::external_body]
pub(crate) fn color_row(t: &mut Table, row: usize, color: TermColor)
    ensures
        table_records(*final(t)) == table_records(*old(t)),
        table_settings(*final(t)) == table_settings(*old(t)).push(TableSetting::ColorRow(row, color)),
{
    let c = match color {
        TermColor::Cyan => Color::FG_CYAN,
        TermColor::Yellow => Color::FG_YELLOW,
        TermColor::Green => Color::FG_GREEN,
        TermColor::Magenta => Color::FG_MAGENTA,
        TermColor::Red => Color::FG_RED,
        TermColor::Blue => Color::FG_BLUE,
        TermColor::White => Color::FG_WHITE,
    };
    t.modify(Rows::one(row), c);
}

/// `Table`'s `Display`: the rendered text, a function of the records and the
/// settings.
#[verifier::external_body]
pub(crate) fn table_to_string(t: &Table) -> (s: String)
    ensures
        s@ == tabled_text(table_records(*t), table_settings(*t)),
{
    t.to_string()
}

} // verus!
