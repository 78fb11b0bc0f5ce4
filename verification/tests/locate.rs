use tablefmt::error::TableError;
use tablefmt::locate::{find_table_bounds, is_table_line};

// ── is_table_line ────────────────────────────────────────────────────────

#[test]
fn table_line_github_data_row() {
    assert!(is_table_line("| spam | 42 |"));
}

#[test]
fn table_line_github_separator() {
    assert!(is_table_line("|---|---|"));
}

#[test]
fn table_line_box_drawing_data() {
    assert!(is_table_line("│ spam │ 42 │"));
}

#[test]
fn table_line_box_drawing_border() {
    assert!(is_table_line("├───┼───┤"));
}

#[test]
fn table_line_asciidoc_delimiter() {
    assert!(is_table_line("|===="));
}

#[test]
fn table_line_rst_separator() {
    assert!(is_table_line("=====  ==="));
}

#[test]
fn not_table_line_empty() {
    assert!(!is_table_line(""));
}

#[test]
fn not_table_line_prose() {
    assert!(!is_table_line("Some ordinary prose text here."));
}

#[test]
fn not_table_line_heading() {
    assert!(!is_table_line("# My Heading"));
}

// ── find_table_bounds ────────────────────────────────────────────────────

fn bounds(file: &str, target: usize) -> (usize, usize) {
    let lines: Vec<&str> = file.lines().collect();
    find_table_bounds(&lines, target).unwrap()
}

#[test]
fn bounds_github_table_in_prose_file() {
    let file = "# Heading\n\n| a | b |\n|---|---|\n| 1 | 2 |\n\nSome prose";
    assert_eq!(bounds(file, 2), (2, 4));
}

#[test]
fn bounds_target_on_separator_row() {
    let file = "# Heading\n\n| a | b |\n|---|---|\n| 1 | 2 |\n\nSome prose";
    assert_eq!(bounds(file, 3), (2, 4));
}

#[test]
fn bounds_target_on_last_data_row() {
    let file = "# Heading\n\n| a | b |\n|---|---|\n| 1 | 2 |\n\nSome prose";
    assert_eq!(bounds(file, 4), (2, 4));
}

#[test]
fn bounds_table_at_start_of_file() {
    let file = "| a | b |\n|---|---|\n| 1 | 2 |\n\nSome prose";
    assert_eq!(bounds(file, 0), (0, 2));
}

#[test]
fn bounds_table_at_end_of_file() {
    let file = "Prose\n\n| a | b |\n|---|---|\n| 1 | 2 |";
    assert_eq!(bounds(file, 4), (2, 4));
}

#[test]
fn bounds_error_on_prose_line() {
    let file = "# Heading\n\n| a | b |\n\nSome prose";
    let lines: Vec<&str> = file.lines().collect();
    assert!(find_table_bounds(&lines, 0).is_err());
    assert!(find_table_bounds(&lines, 4).is_err());
}

#[test]
fn bounds_error_out_of_range() {
    let lines = vec!["| a |"];
    assert!(find_table_bounds(&lines, 99).is_err());
}

#[test]
fn bounds_rst_content_line_expands_to_full_table() {
    let file = "Prose\n\n=====  ===\nitem   qty\n=====  ===\nspam    42\n=====  ===\n\nMore";
    assert_eq!(bounds(file, 3), (2, 6));
}

#[test]
fn bounds_rst_data_line_expands_to_full_table() {
    let file = "=====  ===\nitem   qty\n=====  ===\nspam    42\n=====  ===";
    assert_eq!(bounds(file, 3), (0, 4));
}

#[test]
fn bounds_asciidoc_cols_line_included() {
    let file = "Text\n\n[cols=\"<4,>3\",options=\"header\"]\n|====\n| item | qty\n| spam |  42\n|====\n\nMore";
    assert_eq!(bounds(file, 4), (2, 6));
}

#[test]
fn bounds_commented_table() {
    let file = "// | a | b |\n// |---|---|\n// | 1 | 2 |";
    assert_eq!(bounds(file, 1), (0, 2));
}

// ── error values ─────────────────────────────────────────────────────────

#[test]
fn bounds_out_of_range_reports_line_and_count() {
    let lines = vec!["| a |", "| b |"];
    assert_eq!(
        find_table_bounds(&lines, 7),
        Err(TableError::LineOutOfRange { line: 7, n_lines: 2 })
    );
}

#[test]
fn bounds_prose_reports_not_a_table() {
    let lines = vec!["just words", "| a |"];
    assert_eq!(find_table_bounds(&lines, 0), Err(TableError::NotATable { line: 0 }));
}

#[test]
fn bounds_always_contain_target() {
    let file = "x\n| a | b |\n|---|---|\n| 1 | 2 |\n| 3 | 4 |\ny";
    let lines: Vec<&str> = file.lines().collect();
    for t in 0..lines.len() {
        if let Ok((s, e)) = find_table_bounds(&lines, t) {
            assert!(s <= t && t <= e && e < lines.len());
        }
    }
}

#[test]
fn bounds_rst_rule_lines_expand_to_full_table() {
    let file = "=====  ===\nitem   qty\n=====  ===\nspam    42\n=====  ===";
    for t in [0, 2, 4] {
        assert_eq!(bounds(file, t), (0, 4));
    }
    let framed = "Intro\n\n=====  ===\nitem   qty\n=====  ===\nspam    42\n=====  ===\n\nOutro";
    for t in 2..7 {
        assert_eq!(bounds(framed, t), (2, 6));
    }
}
