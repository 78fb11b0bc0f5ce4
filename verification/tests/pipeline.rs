use tablefmt::changelog::{changelog_bullets, update_unreleased};
use tablefmt::cli::{
    check_delimiter, parse_max_rows, resolve_source, source_from_extension, ColorMode, FormatArgs,
    MaxRows, OutputFormat, SourceFormat,
};
use tablefmt::error::{DocumentError, TableError};
use tablefmt::model::TableData;
use tablefmt::pipeline::{
    edit_columns, ensure_newline, is_renderable, load_table, locate_table, parse_source,
    prepare_table, replacement_text, splice_table, table_text, trim_trailing_newlines, ColumnEdit,
};

// ── command-line values ──────────────────────────────────────────────────

#[test]
fn max_rows_values() {
    assert_eq!(parse_max_rows("0"), Ok(MaxRows::All));
    assert_eq!(parse_max_rows("null"), Ok(MaxRows::All));
    assert_eq!(parse_max_rows("20"), Ok(MaxRows::Limit(20)));
    assert_eq!(parse_max_rows("+7"), Ok(MaxRows::Limit(7)));
    assert_eq!(parse_max_rows("00"), Ok(MaxRows::All));
    assert_eq!(parse_max_rows("+0"), Ok(MaxRows::All));
    assert_eq!(
        parse_max_rows("many"),
        Err("invalid value 'many': expected a positive integer, 0, or null".to_string())
    );
    assert!(parse_max_rows("-1").is_err());
    assert!(parse_max_rows("").is_err());
    assert!(parse_max_rows("99999999999999999999999").is_err());
}

fn args(input: Option<&str>, format: Option<SourceFormat>, delimiter: Option<char>) -> FormatArgs {
    FormatArgs {
        input: input.map(str::to_string),
        output: None,
        format,
        delimiter,
        style: OutputFormat::Github,
        color: ColorMode::Off,
        max_rows: MaxRows::Limit(20),
        decimal_places: None,
    }
}

#[test]
fn source_format_resolution() {
    assert_eq!(resolve_source(&args(Some("x.csv"), Some(SourceFormat::Json), None)), Ok(SourceFormat::Json));
    assert_eq!(resolve_source(&args(Some("data/x.YML"), None, None)), Ok(SourceFormat::Yaml));
    assert_eq!(resolve_source(&args(Some("x.tsv"), None, None)), Ok(SourceFormat::Tsv));
    assert_eq!(
        resolve_source(&args(Some("x.xlsx"), None, None)),
        Err(TableError::UnknownExtension { extension: "xlsx".to_string() })
    );
    assert_eq!(resolve_source(&args(Some("README"), None, None)), Err(TableError::NoExtension));
    assert_eq!(resolve_source(&args(None, None, None)), Err(TableError::StdinNeedsFormat));
    assert_eq!(resolve_source(&args(None, None, Some(';'))), Ok(SourceFormat::Csv));
}

#[test]
fn plain_file_names_resolve_by_last_extension() {
    assert_eq!(resolve_source(&args(Some("data.csv"), None, None)), Ok(SourceFormat::Csv));
    assert_eq!(resolve_source(&args(Some("report.2024.json"), None, None)), Ok(SourceFormat::Json));
    assert_eq!(resolve_source(&args(Some(".csv"), None, None)), Err(TableError::NoExtension));
    assert_eq!(
        resolve_source(&args(Some("table."), None, None)),
        Err(TableError::UnknownExtension { extension: String::new() })
    );
}

#[test]
fn paths_with_directories_resolve_by_file_extension() {
    assert_eq!(resolve_source(&args(Some("data/sales.csv"), None, None)), Ok(SourceFormat::Csv));
    assert_eq!(resolve_source(&args(Some("/srv/in.v2/rows.TOML"), None, None)), Ok(SourceFormat::Toml));
    assert_eq!(resolve_source(&args(Some("dir.v2/data"), None, None)), Err(TableError::NoExtension));
    assert_eq!(resolve_source(&args(Some("docs/.env"), None, None)), Err(TableError::NoExtension));
}

#[test]
fn error_messages() {
    assert_eq!(
        TableError::LineOutOfRange { line: 12, n_lines: 7 }.message(),
        "line 12 is out of range (file has 7 lines)"
    );
    assert_eq!(TableError::NotATable { line: 0 }.message(), "line 0 is not part of a table");
    assert_eq!(
        TableError::RstTooFewSeparators { found: 1 }.message(),
        "RST table requires at least 2 separator lines, found 1"
    );
    assert_eq!(
        TableError::ColumnOutOfRange { index: 3, n_columns: 2 }.message(),
        "column index 3 is out of range (table has 2 columns)"
    );
    assert_eq!(
        TableError::UnknownExtension { extension: "xlsx".to_string() }.message(),
        "cannot infer format from extension '.xlsx'; use --format to specify it"
    );
    assert_eq!(
        TableError::Document { kind: DocumentError::YamlEmpty }.message(),
        "empty YAML document"
    );
}

#[test]
fn extensions_ignore_case() {
    assert_eq!(source_from_extension(Some("Toml")), Ok(SourceFormat::Toml));
    assert_eq!(source_from_extension(Some("PSV")), Ok(SourceFormat::Psv));
    assert_eq!(source_from_extension(Some("jsonl")), Err(TableError::UnknownExtension { extension: "jsonl".to_string() }));
    assert_eq!(source_from_extension(None), Err(TableError::NoExtension));
}

#[test]
fn delimiter_must_be_ascii() {
    assert_eq!(check_delimiter(None), Ok(None));
    assert_eq!(check_delimiter(Some(';')), Ok(Some(b';')));
    assert_eq!(check_delimiter(Some('§')), Err(TableError::DelimiterNotAscii));
}

// ── reading input ────────────────────────────────────────────────────────

#[test]
fn parse_source_uses_default_delimiters() {
    let t = parse_source(SourceFormat::Tsv, b"a\tb\n1\t2", None).unwrap();
    assert_eq!(t.headers, ["a", "b"]);
    let p = parse_source(SourceFormat::Psv, b"| a | b |", None).unwrap();
    assert_eq!(p.headers, [" a ", " b "]);
    let c = parse_source(SourceFormat::Csv, b"a;b\n1;2", Some(b';')).unwrap();
    assert_eq!(c.rows[0], ["1", "2"]);
}

#[test]
fn parse_source_requires_utf8_for_documents() {
    assert_eq!(parse_source(SourceFormat::Json, &[0xff, 0xfe], None).unwrap_err(), TableError::NotUtf8);
    let y = parse_source(SourceFormat::Yaml, "- a: é\n".as_bytes(), None).unwrap();
    assert_eq!(y.rows[0], ["é"]);
}

#[test]
fn load_table_limits_and_analyses() {
    let t = load_table(SourceFormat::Csv, b"n,s\n1.5,a\n2,b\n3,c", None, MaxRows::Limit(2)).unwrap();
    assert_eq!(t.rows.len(), 2);
    assert!(t.column_meta[0].is_numeric);
    assert_eq!(t.column_meta[0].max_decimal_places, 1);
    assert!(!t.column_meta[1].is_numeric);
    let all = load_table(SourceFormat::Csv, b"n\n1\n2\n3", None, MaxRows::All).unwrap();
    assert_eq!(all.rows.len(), 3);
    assert!(is_renderable(&all));
}

// ── locating, editing and splicing ───────────────────────────────────────

const DOC: &str = "# Notes\n\n  // | item | qty |\n  // |---|---|\n  // | spam | 42 |\n\nEnd\n";

#[test]
fn locate_and_replace_commented_table() {
    let lines: Vec<&str> = DOC.lines().collect();
    let loc = locate_table(&lines, 3, None).unwrap();
    assert_eq!((loc.start, loc.end), (2, 4));
    assert_eq!(loc.prepared.style, OutputFormat::Github);
    assert_eq!(loc.prepared.meta.pre_comment_spaces, 2);
    assert_eq!(loc.prepared.meta.comment.as_deref(), Some("//"));
    assert!(loc.prepared.data.column_meta[1].is_numeric);
    let text = replacement_text(&loc.prepared.data, loc.prepared.style, &loc.prepared.meta);
    assert_eq!(
        text,
        "  // | item | qty |\n  // |------|-----|\n  // | spam |  42 |"
    );
    let out = splice_table(&lines, loc.start, loc.end, &text, DOC.ends_with('\n'));
    assert_eq!(
        out,
        "# Notes\n\n  // | item | qty |\n  // |------|-----|\n  // | spam |  42 |\n\nEnd\n"
    );
}

#[test]
fn locate_reports_bounds_errors() {
    let lines: Vec<&str> = DOC.lines().collect();
    assert_eq!(locate_table(&lines, 0, None).unwrap_err(), TableError::NotATable { line: 0 });
    assert_eq!(
        locate_table(&lines, 40, None).unwrap_err(),
        TableError::LineOutOfRange { line: 40, n_lines: 7 }
    );
}

#[test]
fn edit_columns_before_after_remove() {
    let base = || {
        let lines = ["| a | b |", "|---|---|", "| 1 | 2 |"];
        prepare_table(&lines.join("\n"), None).unwrap().data
    };
    let before = edit_columns(base(), 1, ColumnEdit::InsertBefore).unwrap();
    assert_eq!(before.headers, ["a", "", "b"]);
    let after = edit_columns(base(), 1, ColumnEdit::InsertAfter).unwrap();
    assert_eq!(after.headers, ["a", "b", ""]);
    let after_max = edit_columns(base(), usize::MAX, ColumnEdit::InsertAfter).unwrap();
    assert_eq!(after_max.headers, ["a", "b", ""]);
    let removed = edit_columns(base(), 0, ColumnEdit::Remove).unwrap();
    assert_eq!(removed.headers, ["b"]);
    assert_eq!(removed.rows[0], ["2"]);
    assert!(removed.column_meta[0].is_numeric);
    assert_eq!(
        edit_columns(base(), 2, ColumnEdit::Remove).unwrap_err(),
        TableError::ColumnOutOfRange { index: 2, n_columns: 2 }
    );
}

#[test]
fn table_text_joins_lines() {
    let lines = ["a", "b", "c", "d"];
    assert_eq!(table_text(&lines, 1, 2), "b\nc");
    assert_eq!(table_text(&lines, 3, 3), "d");
}

#[test]
fn newline_helpers() {
    assert_eq!(ensure_newline("x".to_string()), "x\n");
    assert_eq!(ensure_newline("x\n".to_string()), "x\n");
    assert_eq!(ensure_newline(String::new()), "\n");
    assert_eq!(trim_trailing_newlines("x\n\n\n"), "x");
    assert_eq!(trim_trailing_newlines("\n"), "");
}

#[test]
fn splice_without_trailing_newline() {
    let lines = ["a", "old", "z"];
    assert_eq!(splice_table(&lines, 1, 1, "n1\nn2\n\n", false), "a\nn1\nn2\nz");
}

#[test]
fn renderable_needs_cells_for_every_header() {
    let short = TableData::new(vec!["a".into(), "b".into()], vec![vec!["1".into()]]);
    assert!(!is_renderable(&short));
    let mut bad_meta = TableData::new(vec!["a".into()], vec![]);
    bad_meta.column_meta.clear();
    assert!(!is_renderable(&bad_meta));
}

// ── changelog ────────────────────────────────────────────────────────────

#[test]
fn changelog_bullets_skip_noise() {
    let log = "feat: add edit\nbuild: bump\n\nci: lint\nfix: cursor\ndocs: readme\nchore: x\nrefactor parser\nrefact: y\ntests added\nFix: upper";
    assert_eq!(
        changelog_bullets(log),
        vec!["- feat: add edit", "- fix: cursor", "- Fix: upper"]
    );
}

#[test]
fn changelog_section_is_replaced() {
    let log = "# Changelog\n\n## unreleased\n\n- old entry\n\n## v0.1.0 (2024-01-01)\n\n- first\n";
    let bullets = vec!["- new one".to_string(), "- new two".to_string()];
    let out = update_unreleased(log, &bullets).unwrap();
    assert_eq!(
        out,
        "# Changelog\n\n## unreleased\n\n- new one\n- new two\n\n## v0.1.0 (2024-01-01)\n\n- first\n"
    );
    assert_eq!(update_unreleased(&out, &bullets).unwrap(), out);
}

#[test]
fn changelog_section_at_end() {
    let out = update_unreleased("## unreleased\n- stale", &vec![]).unwrap();
    assert_eq!(out, "## unreleased\n\n\n");
}

#[test]
fn changelog_needs_heading() {
    assert_eq!(
        update_unreleased("# Changelog\n## Unreleased\n", &vec![]).unwrap_err(),
        TableError::NoUnreleasedHeading
    );
}
