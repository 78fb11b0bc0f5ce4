use tablefmt::cli::OutputFormat;
use tablefmt::error::TableError;
use tablefmt::table_parse::{
    detect_separator, detect_style, is_border_line, parse_pipe_table, parse_rst_table, parse_table,
    split_cells,
};

// ── border-line detection ────────────────────────────────────────────────

#[test]
fn is_border_github_sep() {
    assert!(is_border_line("|---|---|"));
}

#[test]
fn is_border_ascii_sep() {
    assert!(is_border_line("+-----+-----+"));
}

#[test]
fn is_border_box_drawing() {
    assert!(is_border_line("├───┼───┤"));
}

#[test]
fn is_border_rst_sep() {
    assert!(is_border_line("=====  ====="));
}

#[test]
fn is_border_psql_sep() {
    assert!(is_border_line("------+------"));
}

#[test]
fn is_border_heavy_outline_sep() {
    assert!(is_border_line("┣━━━━━━━╋━━━━━━━┫"));
}

#[test]
fn not_border_has_content() {
    assert!(!is_border_line("| spam | 42 |"));
}

#[test]
fn not_border_box_drawing_with_content() {
    assert!(!is_border_line("│ spam │ 42 │"));
}

// ── generic pipe-table parser ────────────────────────────────────────────

fn lines(s: &str) -> Vec<&str> {
    s.lines().collect()
}

#[test]
fn parse_github_two_cols() {
    let input = lines("| item | qty |\n|------|-----|\n| spam | 42 |\n| eggs | 451 |");
    let data = parse_pipe_table(&input).unwrap();
    assert_eq!(data.headers, ["item", "qty"]);
    assert_eq!(data.rows[0], ["spam", "42"]);
    assert_eq!(data.rows[1], ["eggs", "451"]);
}

#[test]
fn parse_psql_no_leading_pipe() {
    let input = lines(" item | qty \n------+-----\n spam |  42 \n eggs | 451 ");
    let data = parse_pipe_table(&input).unwrap();
    assert_eq!(data.headers, ["item", "qty"]);
    assert_eq!(data.rows[0], ["spam", "42"]);
}

#[test]
fn parse_jira_double_pipe_header_collapses_to_cells() {
    let input = lines("|| item || qty ||\n| spam |  42 |");
    let data = parse_pipe_table(&input).unwrap();
    assert_eq!(data.headers, ["item", "qty"]);
    assert_eq!(data.rows[0], ["spam", "42"]);
}

#[test]
fn parse_orgtbl_cross_in_separator_is_skipped() {
    let input = lines("| item | qty |\n|------+------|\n| spam | 42 |");
    let data = parse_pipe_table(&input).unwrap();
    assert_eq!(data.headers, ["item", "qty"]);
    assert_eq!(data.rows.len(), 1);
}

#[test]
fn parse_extra_whitespace_trimmed() {
    let input = lines("|  item   |   qty  |\n|---------|--------|\n|spam   |42|");
    let data = parse_pipe_table(&input).unwrap();
    assert_eq!(data.headers, ["item", "qty"]);
    assert_eq!(data.rows[0], ["spam", "42"]);
}

#[test]
fn parse_box_drawing_modern() {
    let input = lines("│ item │ qty │\n├──────┼─────┤\n│ spam │  42 │");
    let data = parse_pipe_table(&input).unwrap();
    assert_eq!(data.headers, ["item", "qty"]);
    assert_eq!(data.rows[0], ["spam", "42"]);
}

// ── RST simple-table parser ──────────────────────────────────────────────

#[test]
fn parse_rst_two_cols() {
    let input = lines("=====  ===\nitem   qty\n=====  ===\nspam    42\neggs   451\n=====  ===");
    let data = parse_rst_table(&input).unwrap();
    assert_eq!(data.headers, ["item", "qty"]);
    assert_eq!(data.rows[0], ["spam", "42"]);
    assert_eq!(data.rows[1], ["eggs", "451"]);
}

#[test]
fn parse_rst_right_aligned_content_trimmed() {
    let input = lines("======  ===\n  item  qty\n======  ===\n  spam   42\n======  ===");
    let data = parse_rst_table(&input).unwrap();
    assert_eq!(data.headers, ["item", "qty"]);
    assert_eq!(data.rows[0], ["spam", "42"]);
}

#[test]
fn parse_rst_leading_space_stripped_by_preprocess() {
    let input = lines(
        "====== =====\nitem   qty \n====== =====\nspam    42 \neggs   451 \n====== =====",
    );
    let data = parse_rst_table(&input).unwrap();
    assert_eq!(data.headers, ["item", "qty"]);
    assert_eq!(data.rows[0], ["spam", "42"]);
}

#[test]
fn parse_rst_insufficient_separators_returns_error() {
    let input = lines("=====\nitem\n");
    assert!(parse_rst_table(&input).is_err());
}

// ── detect_style ────────────────────────────────────────────────────────

fn detect(s: &str) -> OutputFormat {
    let v: Vec<&str> = s.lines().collect();
    detect_style(&v)
}

#[test]
fn detect_github_fallback() {
    assert!(matches!(detect("| a | b |\n|---|---|\n| 1 | 2 |"), OutputFormat::Github));
}

#[test]
fn detect_psql_by_plus_separator_no_leading_pipe() {
    assert!(matches!(detect(" a | b \n---+---\n 1 | 2 "), OutputFormat::Psql));
}

#[test]
fn detect_orgtbl_by_plus_inside_pipe_bordered_separator() {
    assert!(matches!(detect("| a | b |\n|---+---|\n| 1 | 2 |"), OutputFormat::Orgtbl));
}

#[test]
fn detect_jira_by_double_pipe_header() {
    assert!(matches!(detect("|| a || b ||\n| 1 | 2 |"), OutputFormat::Jira));
}

#[test]
fn detect_rst_by_equals_only_separator() {
    assert!(matches!(detect("===  ===\na    b\n===  ===\n1    2\n===  ==="), OutputFormat::Rst));
}

#[test]
fn detect_asciidoc_by_pipe_equals_delimiter() {
    assert!(matches!(detect("|====\n| a | b\n| 1 | 2\n|===="), OutputFormat::Asciidoc));
}

#[test]
fn detect_asciidoc_by_cols_attribute() {
    assert!(matches!(
        detect("[cols=\"<4,>3\"]\n|====\n| a | b\n|===="),
        OutputFormat::Asciidoc
    ));
}

#[test]
fn detect_extended_by_double_vertical() {
    assert!(matches!(detect("║ a ║ b ║\n║ 1 ║ 2 ║"), OutputFormat::Extended));
}

#[test]
fn detect_heavy_outline_by_heavy_horizontal() {
    assert!(matches!(detect("┃ a ┃ b ┃\n━━━━━━━━━\n┃ 1 ┃ 2 ┃"), OutputFormat::HeavyOutline));
}

#[test]
fn detect_dots_by_middle_dot() {
    assert!(matches!(detect("· a · b ·\n· 1 · 2 ·"), OutputFormat::Dots));
}

#[test]
fn detect_modern_by_double_single_corners() {
    assert!(matches!(
        detect("╒═══╤═══╕\n│ a │ b │\n╞═══╪═══╡\n│ 1 │ 2 │\n╘═══╧═══╛"),
        OutputFormat::Modern
    ));
}

#[test]
fn detect_sharp_by_box_drawing_without_modern_corners() {
    assert!(matches!(
        detect("┌───┬───┐\n│ a │ b │\n├───┼───┤\n│ 1 │ 2 │\n└───┴───┘"),
        OutputFormat::Sharp
    ));
}

#[test]
fn detect_ascii_by_plus_border() {
    assert!(matches!(
        detect("+---+---+\n| a | b |\n+===+===+\n| 1 | 2 |\n+---+---+"),
        OutputFormat::Ascii
    ));
}

// ── AsciiDoc parser ──────────────────────────────────────────────────────

#[test]
fn parse_asciidoc_cols_line_is_not_phantom_header() {
    let input = lines("[cols=\"<4,>3\",options=\"header\"]\n|====\n| item | qty\n| spam |  42\n|====");
    let data = parse_table(&input, &OutputFormat::Asciidoc).unwrap();
    assert_eq!(data.headers, ["item", "qty"]);
}

#[test]
fn parse_asciidoc_data_rows_correct() {
    let input = lines(
        "[cols=\"<4,>3\",options=\"header\"]\n|====\n| item | qty\n| spam |  42\n| eggs | 451\n|====",
    );
    let data = parse_table(&input, &OutputFormat::Asciidoc).unwrap();
    assert_eq!(data.headers, ["item", "qty"]);
    assert_eq!(data.rows[0], ["spam", "42"]);
    assert_eq!(data.rows[1], ["eggs", "451"]);
}

// ── further cases ────────────────────────────────────────────────────────

#[test]
fn pipe_table_errors() {
    assert_eq!(parse_pipe_table(&lines("|---|\n\n+===+")).unwrap_err(), TableError::NoDataRows);
    assert_eq!(parse_pipe_table(&lines("|\u{a0}|")).unwrap_err(), TableError::EmptyHeader);
}

#[test]
fn rst_errors() {
    assert_eq!(
        parse_rst_table(&lines("=====\nitem\n")).unwrap_err(),
        TableError::RstTooFewSeparators { found: 1 }
    );
    assert_eq!(parse_rst_table(&lines("===\n===\n1\n===")).unwrap_err(), TableError::RstNoHeader);
}

#[test]
fn pipe_rows_are_fitted_to_header() {
    let data = parse_pipe_table(&lines("| a | b | c |\n| 1 |\n| 1 | 2 | 3 | 4 |")).unwrap();
    assert_eq!(data.rows[0], ["1", "", ""]);
    assert_eq!(data.rows[1], ["1", "2", "3"]);
}

#[test]
fn separator_is_most_frequent_candidate() {
    let chars: Vec<char> = "│ a | b │ c │".chars().collect();
    assert_eq!(detect_separator(&chars), '│');
    let none: Vec<char> = "abc".chars().collect();
    assert_eq!(detect_separator(&none), '|');
}

#[test]
fn split_cells_drops_empty_pieces() {
    let chars: Vec<char> = "|| a ||  || b |".chars().collect();
    assert_eq!(split_cells(&chars, '|'), vec!["a", "b"]);
}

#[test]
fn rst_rows_are_fitted_and_separators_skipped() {
    let input = lines("===  ===\nx    y\n===  ===\n1\n===  ===\n3    4\n===  ===");
    let data = parse_rst_table(&input).unwrap();
    assert_eq!(data.headers, ["x", "y"]);
    assert_eq!(data.rows, vec![vec!["1".to_string(), "".to_string()], vec!["3".to_string(), "4".to_string()]]);
}

#[test]
fn detect_modern_preset_by_row_rules() {
    let modern = "┌───────┬──────────┬───────┐\n│ Month │  Revenue │ Units │\n├───────┼──────────┼───────┤\n│ Jan   │ 12500.50 │   342 │\n├───────┼──────────┼───────┤\n│ Feb   │ 13200.75 │   389 │\n├───────┼──────────┼───────┤\n│ Mar   │ 15800.25 │   421 │\n└───────┴──────────┴───────┘";
    assert!(matches!(detect(modern), OutputFormat::Modern));
}

#[test]
fn detect_dots_preset_by_colon_frame() {
    let dots = "............................\n: Month :  Revenue : Units :\n:.......:..........:.......:\n: Jan   : 12500.50 :   342 :\n:.......:..........:.......:\n: Feb   : 13200.75 :   389 :\n:.......:..........:.......:\n: Mar   : 15800.25 :   421 :\n:.......:..........:.......:";
    assert!(matches!(detect(dots), OutputFormat::Dots));
}
