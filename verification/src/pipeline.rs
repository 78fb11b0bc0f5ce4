//! The steps of re-formatting a table found in a file, and of splicing the
//! result back, as the `format` and `edit` commands chain them.

use vstd::prelude::*;
use crate::text;
use crate::prettify;
use crate::prettify::PrettifyMeta;
use crate::table_parse;
use crate::numeric;
use crate::output;
use crate::model::TableData;
use crate::cli::{ColorMode, OutputFormat};
use crate::error::TableError;
use crate::cli::{SourceFormat, MaxRows};
use crate::locate;
use crate::edit;
use crate::parse;
use crate::documents;
use vstd::string::StringSliceAdditionalSpecFns;

verus! {

/// A table read from its text, with the prefix it had and its style.
#[derive(Debug)]
pub struct Prepared {
    pub data: TableData,
    pub style: OutputFormat,
    pub meta: PrettifyMeta,
}

/// The lines from `start` to `end` (inclusive) joined with newlines.
pub fn table_text(file_lines: &[&str], start: usize, end: usize) -> (s: String)
    requires
        start <= end < file_lines@.len(),
    ensures
        s@ == text::join_lines(file_lines.deep_view().subrange(start as int, end + 1)),
{
    let ghost ls = file_lines.deep_view().subrange(start as int, end + 1);
    let mut s = String::new();
    let mut i = start;
    while i <= end
        invariant
            start <= i <= end + 1,
            end < file_lines@.len(),
            ls == file_lines.deep_view().subrange(start as int, end + 1),
            s@ == text::join_lines(ls.take(i - start)),
        decreases end + 1 - i,
    {
        assert(ls.take(i - start + 1).drop_last() =~= ls.take(i - start));
        assert(ls.take(i - start + 1).last() == file_lines@[i as int]@);
        if i > start {
            s.push('\n');
        }
        s.append(file_lines[i]);
        i = i + 1;
        assert(s@ =~= text::join_lines(ls.take(i - start)));
    }
    assert(ls.take(end + 1 - start) =~= ls);
    s
}

/// The style to use: the one given, else the one the bare lines show.
pub open spec fn chosen_style(bare: Seq<Seq<char>>, style: Option<OutputFormat>) -> OutputFormat {
    match style {
        Some(s) => s,
        None => table_parse::style_of(bare),
    }
}

/// The bare lines of a table's text.
pub open spec fn bare_lines_of(t: Seq<char>) -> Seq<Seq<char>> {
    text::lines_of(t).map_values(|l: Seq<char>| prettify::bare_of(l))
}

/// `p` holds the table that text `t` denotes in the chosen style, analysed,
/// with the prefix found on `t`.
pub open spec fn prepared_from(p: Prepared, t: Seq<char>, style: Option<OutputFormat>) -> bool {
    let bare = bare_lines_of(t);
    let st = chosen_style(bare, style);
    let ls = text::lines_of(t);
    &&& table_in_style_ok(table_parse::table_in_style(bare, st), p.data)
    &&& p.style == st
    &&& numeric::analysed(p.data)
    &&& output::renderable(p.data)
    &&& p.meta.pre_comment_spaces == prettify::capped(prettify::max_pre(ls))
    &&& p.meta.post_comment_spaces == prettify::capped(prettify::max_post(ls))
    &&& (p.meta.comment matches Some(c) ==> prettify::first_comment(ls) == Some(c@))
    &&& (p.meta.comment is None ==> prettify::first_comment(ls) is None)
}

/// `data` holds the headers and rows of a successful parse.
pub open spec fn table_in_style_ok(
    spec: Result<table_parse::TableView, TableError>,
    data: TableData,
) -> bool {
    spec matches Ok(v) && data.header_view() == v.0 && data.row_view() == v.1
}

/// Reads the table in `table_text`: strips indentation and comment prefixes,
/// takes the given style or detects it, parses, and analyses the columns.
pub fn prepare_table(table_text: &str, style: Option<OutputFormat>) -> (res: Result<Prepared, TableError>)
    ensures
        match table_parse::table_in_style(
            bare_lines_of(table_text@),
            chosen_style(bare_lines_of(table_text@), style),
        ) {
            Ok(_) => res matches Ok(p) && prepared_from(p, table_text@, style),
            Err(e) => res == Err::<Prepared, TableError>(e),
        },
{
    let (bare, meta) = prettify::preprocess(table_text);
    let mut refs: Vec<&str> = Vec::new();
    let mut i: usize = 0;
    while i < bare.len()
        invariant
            i <= bare@.len(),
            refs@.len() == i,
            forall|j: int| 0 <= j < i ==> #[trigger] refs@[j]@ == bare@[j]@,
        decreases bare.len() - i,
    {
        refs.push(bare[i].as_str());
        i = i + 1;
    }
    assert(refs.deep_view() =~= bare.deep_view());
    let st = match style {
        Some(s) => s,
        None => table_parse::detect_style(refs.as_slice()),
    };
    let parsed = table_parse::parse_table(refs.as_slice(), &st);
    proof {
        table_parse::law_parsed_rows_fit_headers(refs.deep_view(), st);
    }
    match parsed {
        Ok(data) => {
            let mut data = data;
            numeric::populate_column_meta(&mut data);
            Ok(Prepared { data, style: st, meta })
        },
        Err(e) => Err(e),
    }
}

/// `s`, ending in a newline.
pub open spec fn newline_terminated(s: Seq<char>) -> Seq<char> {
    if s.len() > 0 && s.last() == '\n' {
        s
    } else {
        s.push('\n')
    }
}

/// `s` with a newline appended unless it ends in one.
pub fn ensure_newline(s: String) -> (r: String)
    ensures
        r@ == newline_terminated(s@),
{
    let v = text::chars_of(s.as_str());
    let mut s = s;
    if v.len() > 0 && v[v.len() - 1] == '\n' {
        s
    } else {
        s.push('\n');
        s
    }
}

/// Renders a prepared table in its style, without colour, and puts the
/// indentation and comment prefix found on the table back on every line.
pub fn finish_table_text(data: &TableData, style: OutputFormat, meta: &PrettifyMeta) -> (out: String)
    requires
        output::preset_of(style) is None ==> output::renderable(*data),
    ensures
        out@ == prettify::with_prefix(
            newline_terminated(output::rendered(*data, style, ColorMode::Off, false)),
            meta.line_prefix(),
        ),
{
    let rendered = output::render(data, &style, &ColorMode::Off, false);
    let rendered = ensure_newline(rendered);
    prettify::postprocess(rendered.as_str(), meta)
}

/// `s` without its trailing newlines.
pub open spec fn trim_newlines_end(s: Seq<char>) -> Seq<char>
    decreases s.len(),
{
    if s.len() > 0 && s.last() == '\n' {
        trim_newlines_end(s.drop_last())
    } else {
        s
    }
}

/// `s` without its trailing newlines.
pub fn trim_trailing_newlines(s: &str) -> (r: String)
    ensures
        r@ == trim_newlines_end(s@),
{
    let v = text::chars_of(s);
    let mut n = v.len();
    assert(v@.take(n as int) =~= v@);
    while n > 0 && v[n - 1] == '\n'
        invariant
            n <= v@.len(),
            trim_newlines_end(v@) == trim_newlines_end(v@.take(n as int)),
        decreases n,
    {
        assert(v@.take(n as int).drop_last() =~= v@.take(n - 1));
        n = n - 1;
    }
    assert(v@.take(n as int) =~= v@.subrange(0, n as int));
    text::string_of(&v.as_slice()[0..n])
}

/// The file's lines with lines `start..=end` replaced by the lines of
/// `reformatted` (its trailing newlines dropped), joined with newlines, and a
/// final newline when the file had one.
pub open spec fn spliced(
    file: Seq<Seq<char>>,
    start: int,
    end: int,
    reformatted: Seq<char>,
    trailing_newline: bool,
) -> Seq<char> {
    text::join_lines(
        file.take(start) + text::lines_of(trim_newlines_end(reformatted)) + file.skip(end + 1),
    ) + if trailing_newline {
        seq!['\n']
    } else {
        Seq::empty()
    }
}

/// Splices a re-formatted table back into the lines of its file.
pub fn splice_table(
    file_lines: &[&str],
    start: usize,
    end: usize,
    reformatted: &str,
    trailing_newline: bool,
) -> (out: String)
    requires
        start <= end < file_lines@.len(),
    ensures
        out@ == spliced(file_lines.deep_view(), start as int, end as int, reformatted@, trailing_newline),
{
    let trimmed = trim_trailing_newlines(reformatted);
    let tv = text::chars_of(trimmed.as_str());
    let new_lines = text::split_lines(tv.as_slice());
    let ghost all = file_lines.deep_view().take(start as int) + text::char_rows(new_lines@)
        + file_lines.deep_view().skip(end + 1);
    let mut parts: Vec<Vec<char>> = Vec::new();
    let mut i: usize = 0;
    while i < start
        invariant
            i <= start <= end < file_lines@.len(),
            parts@.len() == i,
            forall|j: int| 0 <= j < i ==> #[trigger] parts@[j]@ == file_lines@[j]@,
        decreases start - i,
    {
        parts.push(text::chars_of(file_lines[i]));
        i = i + 1;
    }
    let mut k: usize = 0;
    while k < new_lines.len()
        invariant
            k <= new_lines@.len(),
            start <= end < file_lines@.len(),
            parts@.len() == start + k,
            forall|j: int| 0 <= j < start ==> #[trigger] parts@[j]@ == file_lines@[j]@,
            forall|j: int| 0 <= j < k ==> #[trigger] parts@[start + j]@ == new_lines@[j]@,
        decreases new_lines.len() - k,
    {
        parts.push(new_lines[k].clone());
        k = k + 1;
    }
    let n = file_lines.len();
    let mut m = end + 1;
    while m < n
        invariant
            end + 1 <= m <= n,
            n == file_lines@.len(),
            start <= end,
            parts@.len() == start + new_lines@.len() + (m - end - 1),
            forall|j: int| 0 <= j < start ==> #[trigger] parts@[j]@ == file_lines@[j]@,
            forall|j: int|
                0 <= j < new_lines@.len() ==> #[trigger] parts@[start + j]@ == new_lines@[j]@,
            forall|j: int|
                0 <= j < m - end - 1 ==> #[trigger] parts@[start + new_lines@.len() + j]@
                    == file_lines@[end + 1 + j]@,
        decreases n - m,
    {
        parts.push(text::chars_of(file_lines[m]));
        m = m + 1;
    }
    let ghost nl = new_lines@.len() as int;
    assert forall|j: int| 0 <= j < parts@.len() implies #[trigger] parts@[j]@ == all[j] by {
        if j < start {
        } else if j < start + nl {
            let k = j - start;
            assert(parts@[start + k]@ == new_lines@[k]@);
        } else {
            let k = j - start - nl;
            assert(parts@[start + nl + k]@ == file_lines@[end + 1 + k]@);
        }
    }
    assert(text::char_rows(parts@) =~= all);
    let mut out = String::new();
    let mut p: usize = 0;
    while p < parts.len()
        invariant
            p <= parts@.len(),
            text::char_rows(parts@) == all,
            out@ == text::join_lines(all.take(p as int)),
        decreases parts.len() - p,
    {
        assert(all.take(p + 1).drop_last() =~= all.take(p as int));
        assert(all.take(p + 1).last() == parts@[p as int]@);
        if p > 0 {
            out.push('\n');
        }
        text::push_chars(&mut out, parts[p].as_slice());
        p = p + 1;
        assert(out@ =~= text::join_lines(all.take(p as int)));
    }
    assert(all.take(parts@.len() as int) =~= all);
    if trailing_newline {
        out.push('\n');
    }
    out
}


/// `std::str::from_utf8`: the text the bytes encode, when they are valid UTF-8.
#[verifier::external_body]
fn utf8_text(bytes: &[u8]) -> (r: Option<&str>)
    ensures
        r is Some <==> vstd::utf8::valid_utf8(bytes@),
        r matches Some(s) ==> s.spec_bytes() == bytes@,
{
    std::str::from_utf8(bytes).ok()
}

/// The table that input bytes in a given format denote. CSV, TSV and PSV
/// default to `,`, tab and `|` as delimiter; JSON, YAML and TOML must be
/// UTF-8.
pub open spec fn source_table(source: SourceFormat, input: Seq<u8>, delimiter: Option<u8>) -> Result<
    table_parse::TableView,
    TableError,
> {
    let d = |dflt: u8| match delimiter {
        Some(c) => c,
        None => dflt,
    };
    let text = vstd::utf8::decode_utf8(input);
    match source {
        SourceFormat::Csv => parse::csv_table(input, d(0x2c)),
        SourceFormat::Tsv => parse::csv_table(input, d(0x09)),
        SourceFormat::Psv => parse::csv_table(input, d(0x7c)),
        _ => if !vstd::utf8::valid_utf8(input) {
            Err(TableError::NotUtf8)
        } else {
            match source {
                SourceFormat::Json => documents::json_table_spec(documents::json_document(text)),
                SourceFormat::Yaml => documents::yaml_table_spec(documents::yaml_documents(text)),
                _ => documents::toml_table_spec(documents::toml_document(text)),
            }
        },
    }
}

/// Reads input bytes in the given format into a table.
pub fn parse_source(source: SourceFormat, input: &[u8], delimiter: Option<u8>) -> (res: Result<
    TableData,
    TableError,
>)
    ensures
        table_parse::parsed_as(res, source_table(source, input@, delimiter)),
        res matches Ok(t) ==> crate::model::rows_cover(t.row_view(), t.headers@.len() as int),
{
    match source {
        SourceFormat::Csv => parse::parse_csv(input, match delimiter {
            Some(c) => c,
            None => 0x2c,
        }),
        SourceFormat::Tsv => parse::parse_csv(input, match delimiter {
            Some(c) => c,
            None => 0x09,
        }),
        SourceFormat::Psv => parse::parse_csv(input, match delimiter {
            Some(c) => c,
            None => 0x7c,
        }),
        _ => {
            let text = match utf8_text(input) {
                Some(t) => t,
                None => {
                    return Err(TableError::NotUtf8);
                },
            };
            proof {
                vstd::utf8::encode_utf8_decode_utf8(text@);
            }
            match source {
                SourceFormat::Json => documents::parse_json(text),
                SourceFormat::Yaml => documents::parse_yaml(text),
                _ => documents::parse_toml(text),
            }
        },
    }
}


/// `rows` cut to at most `max` of them.
pub open spec fn limited(rows: Seq<Seq<Seq<char>>>, max: MaxRows) -> Seq<Seq<Seq<char>>> {
    match max {
        MaxRows::Limit(n) => if n <= rows.len() {
            rows.take(n as int)
        } else {
            rows
        },
        MaxRows::All => rows,
    }
}

/// Reads the table of the `format` command: parses the input in its format,
/// keeps at most `max_rows` data rows and analyses the columns.
pub fn load_table(source: SourceFormat, input: &[u8], delimiter: Option<u8>, max_rows: MaxRows) -> (res:
    Result<TableData, TableError>)
    ensures
        match source_table(source, input@, delimiter) {
            Ok(v) => res matches Ok(t) && t.header_view() == v.0 && t.row_view() == limited(
                v.1,
                max_rows,
            ) && numeric::analysed(t) && output::renderable(t),
            Err(e) => res == Err::<TableData, TableError>(e),
        },
{
    let mut data = match parse_source(source, input, delimiter) {
        Ok(d) => d,
        Err(e) => {
            return Err(e);
        },
    };
    let ghost rows0 = data.row_view();
    match max_rows {
        MaxRows::Limit(n) => {
            data.truncate_rows(n);
            proof {
                if n <= rows0.len() {
                    assert(data.row_view() =~= rows0.take(n as int));
                }
            }
        },
        MaxRows::All => {},
    }
    assert(data.row_view() == limited(rows0, max_rows));
    numeric::populate_column_meta(&mut data);
    Ok(data)
}

/// A table found in a file: its first and last line and the table read from
/// them.
#[derive(Debug)]
pub struct Located {
    pub start: usize,
    pub end: usize,
    pub prepared: Prepared,
}

/// The text of the lines `s..=e` of `file`.
pub open spec fn lines_text(file: Seq<Seq<char>>, s: int, e: int) -> Seq<char> {
    text::join_lines(file.subrange(s, e + 1))
}

/// Finds the table around line `line` of a file and reads it, in the given
/// style or the detected one.
pub fn locate_table(file_lines: &[&str], line: usize, style: Option<OutputFormat>) -> (res: Result<
    Located,
    TableError,
>)
    ensures
        match locate::bounds_of(file_lines.deep_view(), line as int) {
            Err(e) => res == Err::<Located, TableError>(e),
            Ok(b) => {
                let t = lines_text(file_lines.deep_view(), b.0, b.1);
                match table_parse::table_in_style(bare_lines_of(t), chosen_style(bare_lines_of(t), style)) {
                    Ok(_) => res matches Ok(l) && l.start == b.0 && l.end == b.1 && prepared_from(
                        l.prepared,
                        t,
                        style,
                    ),
                    Err(x) => res == Err::<Located, TableError>(x),
                }
            },
        },
{
    proof {
        locate::law_table_bounds_contain_line(file_lines.deep_view(), line as int);
    }
    let n_lines = file_lines.len();
    assert(file_lines.deep_view().len() == n_lines);
    let bounds = locate::find_table_bounds(file_lines, line);
    let ghost gb = locate::bounds_of(file_lines.deep_view(), line as int);
    match bounds {
        Err(e) => Err(e),
        Ok((start, end)) => {
            assert(start == gb->Ok_0.0 && end == gb->Ok_0.1);
            let t = table_text(file_lines, start, end);
            match prepare_table(t.as_str(), style) {
                Ok(prepared) => Ok(Located { start, end, prepared }),
                Err(e) => Err(e),
            }
        },
    }
}

/// A change to the columns of a table, at the column under the cursor.
#[derive(Clone, Copy, Debug, PartialEq, Eq, Structural)]
pub enum ColumnEdit {
    /// An empty column before it.
    InsertBefore,
    /// An empty column after it.
    InsertAfter,
    /// Without it.
    Remove,
}

/// The headers and rows after the change `op` at column `col`.
pub open spec fn edited_view(v: table_parse::TableView, col: usize, op: ColumnEdit) -> Result<
    table_parse::TableView,
    TableError,
> {
    match op {
        ColumnEdit::InsertBefore => Ok(edit::with_empty_column(v, col as int)),
        ColumnEdit::InsertAfter => Ok(edit::with_empty_column(v, col + 1)),
        ColumnEdit::Remove => if col < v.0.len() {
            Ok(edit::without_column(v, col as int))
        } else {
            Err(TableError::ColumnOutOfRange { index: col, n_columns: v.0.len() as usize })
        },
    }
}

/// Applies `op` at column `col` and analyses the columns of the result.
pub fn edit_columns(data: TableData, col: usize, op: ColumnEdit) -> (res: Result<TableData, TableError>)
    requires
        output::renderable(data),
    ensures
        match edited_view(edit::view_of(data), col, op) {
            Ok(v) => res matches Ok(t) && t.header_view() == v.0 && t.row_view() == v.1
                && numeric::analysed(t) && output::renderable(t),
            Err(e) => res == Err::<TableData, TableError>(e),
        },
{
    let ghost v = edit::view_of(data);
    let n_headers = data.headers.len();
    assert(v.0.len() == n_headers);
    proof {
        edit::law_column_edits_keep_rows_covered(v, col as int);
        edit::law_column_edits_keep_rows_covered(v, col + 1);
    }
    let edited = match op {
        ColumnEdit::InsertBefore => edit::add_column(data, col),
        ColumnEdit::InsertAfter => {
            let next = if col < usize::MAX {
                col + 1
            } else {
                col
            };
            assert(edit::insert_index(next as int, v.0.len() as int) == edit::insert_index(
                col + 1,
                v.0.len() as int,
            ));
            assert(edit::with_empty_column(v, next as int) == edit::with_empty_column(v, col + 1));
            edit::add_column(data, next)
        },
        ColumnEdit::Remove => match edit::remove_column(data, col) {
            Ok(t) => t,
            Err(e) => {
                return Err(e);
            },
        },
    };
    let mut edited = edited;
    let ghost ev = edit::view_of(edited);
    assert(edited_view(v, col, op) == Ok::<table_parse::TableView, TableError>(ev));
    numeric::populate_column_meta(&mut edited);
    assert(edit::view_of(edited) == ev);
    Ok(edited)
}

/// The text that replaces a table's lines: the table rendered in its style,
/// prefixed as it was, without trailing newlines.
pub open spec fn replacement(data: TableData, style: OutputFormat, meta: PrettifyMeta) -> Seq<char> {
    trim_newlines_end(
        prettify::with_prefix(
            newline_terminated(output::rendered(data, style, ColorMode::Off, false)),
            meta.line_prefix(),
        ),
    )
}

/// Renders a table for putting back in place of its lines.
pub fn replacement_text(data: &TableData, style: OutputFormat, meta: &PrettifyMeta) -> (s: String)
    requires
        output::preset_of(style) is None ==> output::renderable(*data),
    ensures
        s@ == replacement(*data, style, *meta),
{
    let out = finish_table_text(data, style, meta);
    trim_trailing_newlines(out.as_str())
}

/// Where the column edits put the new empty column: inserting before column
/// `col` puts it at `col`, inserting after puts it at `col + 1`, right of
/// column `col` (each clamped to the number of columns); the other headers
/// and cells keep their order. So inserting after `col` is inserting before
/// `col + 1`. Removing column `col` takes out the header and the cells at
/// `col` and keeps the others in order; a column past the last is an error.
pub proof fn law_column_edit_positions(v: table_parse::TableView, col: usize)
    ensures
        col < v.0.len() ==> (edited_view(v, col, ColumnEdit::Remove) matches Ok(w) && w.0 == v.0.take(
            col as int,
        ) + v.0.skip(col + 1) && w.1.len() == v.1.len() && forall|r: int|
            0 <= r < v.1.len() && col < v.1[r].len() ==> #[trigger] w.1[r] == v.1[r].take(col as int)
                + v.1[r].skip(col + 1)),
        col >= v.0.len() ==> edited_view(v, col, ColumnEdit::Remove) is Err,
        col < usize::MAX ==> edited_view(v, col, ColumnEdit::InsertAfter) == edited_view(
            v,
            (col + 1) as usize,
            ColumnEdit::InsertBefore,
        ),
        col < v.0.len() ==> (edited_view(v, col, ColumnEdit::InsertAfter) matches Ok(w) && w.0 == v.0.take(
            col + 1,
        ) + seq![Seq::<char>::empty()] + v.0.skip(col + 1) && w.1.len() == v.1.len() && forall|r: int|
            0 <= r < v.1.len() && col < v.1[r].len() ==> #[trigger] w.1[r] == v.1[r].take(col + 1) + seq![
                Seq::<char>::empty(),
            ] + v.1[r].skip(col + 1)),
        col <= v.0.len() ==> (edited_view(v, col, ColumnEdit::InsertBefore) matches Ok(w) && w.0 == v.0.take(
            col as int,
        ) + seq![Seq::<char>::empty()] + v.0.skip(col as int) && w.1.len() == v.1.len() && forall|r: int|
            0 <= r < v.1.len() && col <= v.1[r].len() ==> #[trigger] w.1[r] == v.1[r].take(col as int) + seq![
                Seq::<char>::empty(),
            ] + v.1[r].skip(col as int)),
{
    let e = Seq::<char>::empty();
    if col < v.0.len() {
        let w = edit::without_column(v, col as int);
        assert(w.0 =~= v.0.take(col as int) + v.0.skip(col + 1));
        assert forall|r: int| 0 <= r < v.1.len() && col < v.1[r].len() implies #[trigger] w.1[r]
            == v.1[r].take(col as int) + v.1[r].skip(col + 1) by {
            assert(w.1[r] =~= v.1[r].take(col as int) + v.1[r].skip(col + 1));
        }
    }
    if col < v.0.len() {
        let w = edit::with_empty_column(v, col + 1);
        assert(w.0 =~= v.0.take(col + 1) + seq![e] + v.0.skip(col + 1));
        assert forall|r: int| 0 <= r < v.1.len() && col < v.1[r].len() implies #[trigger] w.1[r]
            == v.1[r].take(col + 1) + seq![e] + v.1[r].skip(col + 1) by {
            assert(w.1[r] =~= v.1[r].take(col + 1) + seq![e] + v.1[r].skip(col + 1));
        }
    }
    if col <= v.0.len() {
        let w = edit::with_empty_column(v, col as int);
        assert(w.0 =~= v.0.take(col as int) + seq![e] + v.0.skip(col as int));
        assert forall|r: int| 0 <= r < v.1.len() && col <= v.1[r].len() implies #[trigger] w.1[r]
            == v.1[r].take(col as int) + seq![e] + v.1[r].skip(col as int) by {
            assert(w.1[r] =~= v.1[r].take(col as int) + seq![e] + v.1[r].skip(col as int));
        }
    }
}

/// Whether `data` can be rendered in every style: an analysis for every
/// header and a cell for every header in every row.
pub fn is_renderable(data: &TableData) -> (r: bool)
    ensures
        r == output::renderable(*data),
{
    if data.column_meta.len() < data.headers.len() {
        return false;
    }
    let n = data.headers.len();
    let mut i: usize = 0;
    while i < data.rows.len()
        invariant
            i <= data.rows@.len(),
            n == data.headers@.len(),
            forall|r: int| 0 <= r < i ==> #[trigger] data.row_view()[r].len() >= n,
        decreases data.rows.len() - i,
    {
        if data.rows[i].len() < n {
            assert(data.row_view()[i as int].len() < n);
            return false;
        }
        i = i + 1;
    }
    true
}

} // verus!
