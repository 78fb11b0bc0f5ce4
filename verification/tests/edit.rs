use tablefmt::cli::ColorMode;
use tablefmt::edit::{add_column, find_column_at_cursor, remove_column};
use tablefmt::error::TableError;
use tablefmt::locate::find_table_bounds;
use tablefmt::model::TableData;
use tablefmt::numeric::populate_column_meta;
use tablefmt::output::render;
use tablefmt::prettify::{postprocess, preprocess};
use tablefmt::table_parse::{detect_style, parse_table};

// ── find_column_at_cursor ────────────────────────────────────────────────

#[test]
fn cursor_in_first_cell() {
    assert_eq!(find_column_at_cursor("| col1 | col2 |", 3), 0);
}

#[test]
fn cursor_in_second_cell() {
    assert_eq!(find_column_at_cursor("| col1 | col2 |", 10), 1);
}

#[test]
fn cursor_on_separator() {
    assert_eq!(find_column_at_cursor("| col1 | col2 |", 7), 0);
}

#[test]
fn cursor_before_table_clamps_to_zero() {
    assert_eq!(find_column_at_cursor("| a | b |", 0), 0);
}

#[test]
fn cursor_past_trailing_pipe_returns_out_of_range() {
    assert_eq!(find_column_at_cursor("| a | b |", 999), 2);
}

#[test]
fn cursor_with_comment_prefix() {
    assert_eq!(find_column_at_cursor("// | col1 | col2 |", 6), 0);
}

#[test]
fn cursor_with_comment_prefix_second_col() {
    assert_eq!(find_column_at_cursor("// | col1 | col2 |", 14), 1);
}

#[test]
fn cursor_with_box_drawing_separator() {
    assert_eq!(find_column_at_cursor("│ col1 │ col2 │", 3), 0);
}

// ── add_column ──────────────────────────────────────────────────────────

fn make_table() -> TableData {
    TableData::new(
        vec!["a".into(), "b".into(), "c".into()],
        vec![
            vec!["1".into(), "2".into(), "3".into()],
            vec!["4".into(), "5".into(), "6".into()],
        ],
    )
}

#[test]
fn add_column_at_start() {
    let t = add_column(make_table(), 0);
    assert_eq!(t.headers, vec!["", "a", "b", "c"]);
    assert_eq!(t.rows[0], vec!["", "1", "2", "3"]);
    assert_eq!(t.rows[1], vec!["", "4", "5", "6"]);
}

#[test]
fn add_column_in_middle() {
    let t = add_column(make_table(), 1);
    assert_eq!(t.headers, vec!["a", "", "b", "c"]);
    assert_eq!(t.rows[0], vec!["1", "", "2", "3"]);
}

#[test]
fn add_column_at_end() {
    let t = add_column(make_table(), 3);
    assert_eq!(t.headers, vec!["a", "b", "c", ""]);
    assert_eq!(t.rows[0], vec!["1", "2", "3", ""]);
}

#[test]
fn add_column_beyond_end_clamps() {
    let t = add_column(make_table(), 999);
    assert_eq!(t.headers.len(), 4);
    assert_eq!(t.headers.last().unwrap(), "");
}

// ── remove_column ────────────────────────────────────────────────────────

#[test]
fn remove_column_first() {
    let t = remove_column(make_table(), 0).unwrap();
    assert_eq!(t.headers, vec!["b", "c"]);
    assert_eq!(t.rows[0], vec!["2", "3"]);
}

#[test]
fn remove_column_last() {
    let t = remove_column(make_table(), 2).unwrap();
    assert_eq!(t.headers, vec!["a", "b"]);
    assert_eq!(t.rows[0], vec!["1", "2"]);
}

#[test]
fn remove_column_out_of_range_errors() {
    assert!(remove_column(make_table(), 3).is_err());
    assert!(remove_column(make_table(), 99).is_err());
}

// ── integration: full prettify pipeline ──────────────────────────────────

fn run_prettify_pipeline(file_content: &str, line: usize) -> (usize, usize, String, String) {
    let file_lines: Vec<&str> = file_content.lines().collect();
    let (start, end) = find_table_bounds(&file_lines, line).unwrap();
    let table_str = file_lines[start..=end].join("\n");
    let (bare_lines, meta) = preprocess(&table_str);
    let line_refs: Vec<&str> = bare_lines.iter().map(String::as_str).collect();
    let style = detect_style(&line_refs);
    let mut data = parse_table(&line_refs, &style).unwrap();
    populate_column_meta(&mut data);
    let rendered = render(&data, &style, &ColorMode::Off, false);
    let rendered = if rendered.ends_with('\n') {
        rendered
    } else {
        rendered + "\n"
    };
    let reformatted = postprocess(&rendered, &meta);
    let text = reformatted.trim_end_matches('\n').to_string();
    (start, end, text, style.to_string())
}

#[test]
fn pipeline_github_table_in_prose() {
    let file = "# Heading\n\n| a | b |\n|---|---|\n| 1 | 2 |\n\nSome prose";
    let (start, end, text, style) = run_prettify_pipeline(file, 2);
    assert_eq!(start, 2);
    assert_eq!(end, 4);
    assert_eq!(style, "github");
    assert!(text.contains("| a | b |"));
    assert!(text.contains("|---|---|") || text.contains("| - | - |") || text.contains("|--"));
}

#[test]
fn pipeline_commented_github_table() {
    let file = "code:\n// | x  | y |\n// |----|----|";
    let (start, end, text, style) = run_prettify_pipeline(file, 1);
    assert_eq!(start, 1);
    assert_eq!(end, 2);
    assert_eq!(style, "github");
    assert!(text.starts_with("// "), "expected comment prefix, got: {text:?}");
}

#[test]
fn pipeline_rst_table() {
    let file = "=====  ===\nitem   qty\n=====  ===\nspam    42\n=====  ===";
    let (start, end, _text, style) = run_prettify_pipeline(file, 3);
    assert_eq!(start, 0);
    assert_eq!(end, 4);
    assert_eq!(style, "rst");
}

// ── further cases ────────────────────────────────────────────────────────

#[test]
fn remove_column_reports_index_and_width() {
    match remove_column(make_table(), 5) {
        Err(TableError::ColumnOutOfRange { index, n_columns }) => {
            assert_eq!(index, 5);
            assert_eq!(n_columns, 3);
        }
        other => panic!("unexpected: {other:?}"),
    }
}

#[test]
fn remove_column_undoes_add_column() {
    for i in 0..=3 {
        let t = remove_column(add_column(make_table(), i), i).unwrap();
        let orig = make_table();
        assert_eq!(t.headers, orig.headers);
        assert_eq!(t.rows, orig.rows);
    }
}

#[test]
fn add_column_short_row_gets_cell_at_its_end() {
    let t = TableData::new(
        vec!["a".into(), "b".into(), "c".into()],
        vec![vec!["1".into()]],
    );
    let t = add_column(t, 2);
    assert_eq!(t.headers, vec!["a", "b", "", "c"]);
    assert_eq!(t.rows[0], vec!["1", ""]);
    assert_eq!(t.column_meta.len(), 4);
}

#[test]
fn remove_column_keeps_short_row() {
    let t = TableData::new(
        vec!["a".into(), "b".into(), "c".into()],
        vec![vec!["1".into()]],
    );
    let t = remove_column(t, 2).unwrap();
    assert_eq!(t.headers, vec!["a", "b"]);
    assert_eq!(t.rows[0], vec!["1"]);
}

#[test]
fn cursor_in_third_cell_of_heavy_table() {
    assert_eq!(find_column_at_cursor("┃ a ┃ bb ┃ c ┃", 10), 2);
}

#[test]
fn cursor_on_rst_line_is_zero() {
    assert_eq!(find_column_at_cursor("item   qty", 8), 0);
}

#[test]
fn cursor_moving_right_never_moves_left_a_column() {
    for line in ["| spam | 42 | x |", "  // │ a │ bb │ c │", "no separators here"] {
        let n = line.chars().count() + 3;
        let cols: Vec<usize> = (0..n).map(|c| find_column_at_cursor(line, c)).collect();
        assert!(cols.windows(2).all(|w| w[0] <= w[1]));
    }
}
