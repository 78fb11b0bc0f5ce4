use tablefmt::cli::{ColorMode, OutputFormat};
use tablefmt::model::{ColumnMeta, TableData};
use tablefmt::output::{col_widths, render, render_asciidoc, render_jira, render_reddit};

fn make_data(headers: &[&str], rows: &[&[&str]], numeric: &[bool]) -> TableData {
    let mut data = TableData::new(
        headers.iter().map(|s| s.to_string()).collect(),
        rows.iter()
            .map(|r| r.iter().map(|s| s.to_string()).collect())
            .collect(),
    );
    for (i, &is_num) in numeric.iter().enumerate() {
        data.column_meta[i] = ColumnMeta {
            is_numeric: is_num,
            max_decimal_places: 0,
        };
    }
    data
}

#[test]
fn render_reddit_separator_uses_content_width_dashes() {
    let data = make_data(&["item", "qty"], &[&["spam", "42"]], &[false, true]);
    let widths = col_widths(&data);
    let out = render_reddit(&data, &widths);
    let lines: Vec<&str> = out.lines().collect();
    assert_eq!(lines[1], "| ---- | --- |");
}

#[test]
fn render_jira_header_uses_double_pipe_delimiter() {
    let data = make_data(&["item", "qty"], &[&["spam", "42"]], &[false, true]);
    let widths = col_widths(&data);
    let out = render_jira(&data, &widths);
    let first_line = out.lines().next().unwrap();
    assert!(first_line.starts_with("||"));
    assert!(first_line.ends_with("||"));
}

#[test]
fn render_jira_data_row_uses_single_pipe() {
    let data = make_data(&["item", "qty"], &[&["spam", "42"]], &[false, true]);
    let widths = col_widths(&data);
    let out = render_jira(&data, &widths);
    let second_line = out.lines().nth(1).unwrap();
    assert!(second_line.starts_with('|'));
    assert!(!second_line.starts_with("||"));
}

#[test]
fn render_asciidoc_uses_four_equals_delimiter() {
    let data = make_data(&["item", "qty"], &[&["spam", "42"]], &[false, true]);
    let widths = col_widths(&data);
    let out = render_asciidoc(&data, &widths);
    assert!(out.contains("|====\n"));
}

#[test]
fn render_asciidoc_cols_line_present() {
    let data = make_data(&["item", "qty"], &[&["spam", "42"]], &[false, true]);
    let widths = col_widths(&data);
    let out = render_asciidoc(&data, &widths);
    let first_line = out.lines().next().unwrap();
    assert!(first_line.starts_with("[cols="));
    assert!(first_line.contains("options=\"header\""));
}

#[test]
fn render_asciidoc_no_blank_lines_between_rows() {
    let data = make_data(&["a", "b"], &[&["1", "2"], &["3", "4"]], &[true, true]);
    let widths = col_widths(&data);
    let out = render_asciidoc(&data, &widths);
    assert!(!out.contains("\n\n"));
}

// ── exact renderings ────────────────────────────────────────────────────

fn month_data() -> TableData {
    make_data(
        &["Month", "Revenue", "Units"],
        &[&["Jan", "12500.50", "342"], &["Feb", "13200.75", "389"]],
        &[false, true, true],
    )
}

#[test]
fn col_widths_take_widest_header_or_cell() {
    let data = month_data();
    assert_eq!(col_widths(&data), vec![5, 8, 5]);
}

#[test]
fn col_widths_count_characters_not_bytes() {
    let data = make_data(&["é"], &[&["ab"]], &[false]);
    assert_eq!(col_widths(&data), vec![2]);
}

#[test]
fn render_jira_exact_text() {
    let out = render(&month_data(), &OutputFormat::Jira, &ColorMode::Off, false);
    assert_eq!(
        out,
        "|| Month || Revenue  || Units ||\n| Jan   | 12500.50 |   342 |\n| Feb   | 13200.75 |   389 |\n"
    );
}

#[test]
fn render_asciidoc_exact_text() {
    let out = render(&month_data(), &OutputFormat::Asciidoc, &ColorMode::Off, false);
    assert_eq!(
        out,
        "[cols=\"<5,>8,>5\",options=\"header\"]\n|====\n| Month | Revenue  | Units\n| Jan   | 12500.50 |   342\n| Feb   | 13200.75 |   389\n|====\n"
    );
}

#[test]
fn render_orgtbl_exact_text() {
    let out = render(&month_data(), &OutputFormat::Orgtbl, &ColorMode::Off, false);
    assert_eq!(
        out,
        "| Month |  Revenue | Units |\n|-------+----------+-------|\n| Jan   | 12500.50 |   342 |\n| Feb   | 13200.75 |   389 |\n"
    );
}

#[test]
fn render_rst_grid_exact_text() {
    let out = render(&month_data(), &OutputFormat::RstGrid, &ColorMode::Off, false);
    assert_eq!(
        out,
        "+-------+----------+-------+\n| Month | Revenue  | Units |\n+=======+==========+=======+\n| Jan   | 12500.50 |   342 |\n+-------+----------+-------+\n| Feb   | 13200.75 |   389 |\n+-------+----------+-------+\n"
    );
}

#[test]
fn render_heavy_outline_exact_text() {
    let out = render(&month_data(), &OutputFormat::HeavyOutline, &ColorMode::Off, false);
    assert_eq!(
        out,
        "┏━━━━━━━┳━━━━━━━━━━┳━━━━━━━┓\n┃ Month ┃ Revenue  ┃ Units ┃\n┣━━━━━━━╋━━━━━━━━━━╋━━━━━━━┫\n┃ Jan   ┃ 12500.50 ┃   342 ┃\n┃ Feb   ┃ 13200.75 ┃   389 ┃\n┗━━━━━━━┻━━━━━━━━━━┻━━━━━━━┛\n"
    );
}

#[test]
fn render_github_through_tabled() {
    let out = render(&month_data(), &OutputFormat::Github, &ColorMode::Off, false);
    let lines: Vec<&str> = out.lines().collect();
    assert_eq!(lines[0], "| Month |  Revenue | Units |");
    assert_eq!(lines[1], "|-------|----------|-------|");
    assert_eq!(lines[2], "| Jan   | 12500.50 |   342 |");
}

#[test]
fn render_psql_through_tabled() {
    let out = render(&month_data(), &OutputFormat::Psql, &ColorMode::Off, false);
    let lines: Vec<&str> = out.lines().collect();
    assert_eq!(lines[1], "-------+----------+-------");
    assert!(lines[2].contains("12500.50"));
}

#[test]
fn render_colors_only_on_terminal() {
    let plain = render(&month_data(), &OutputFormat::Github, &ColorMode::Columns, false);
    assert!(!plain.contains('\u{1b}'));
    let colored = render(&month_data(), &OutputFormat::Github, &ColorMode::Columns, true);
    assert!(colored.contains('\u{1b}'));
    let rows = render(&month_data(), &OutputFormat::Github, &ColorMode::Rows, true);
    assert!(rows.contains('\u{1b}'));
    let off = render(&month_data(), &OutputFormat::Github, &ColorMode::Off, true);
    assert!(!off.contains('\u{1b}'));
}

#[test]
fn box_rows_are_as_long_as_rules() {
    let out = render(&month_data(), &OutputFormat::RstGrid, &ColorMode::Off, false);
    let widths: Vec<usize> = out.lines().map(|l| l.chars().count()).collect();
    assert!(widths.iter().all(|&w| w == widths[0]));
}

#[test]
fn output_format_names() {
    assert_eq!(OutputFormat::Github.to_string(), "github");
    assert_eq!(OutputFormat::RstGrid.to_string(), "rst-grid");
    assert_eq!(OutputFormat::HeavyOutline.to_string(), "heavy-outline");
}

#[test]
fn preset_fills_short_rows_with_empty_cells() {
    let short = make_data(&["a", "b"], &[&["1"]], &[false, false]);
    let full = make_data(&["a", "b"], &[&["1", ""]], &[false, false]);
    for style in [OutputFormat::Github, OutputFormat::Psql, OutputFormat::Ascii, OutputFormat::Sharp] {
        assert_eq!(
            render(&short, &style, &ColorMode::Off, false),
            render(&full, &style, &ColorMode::Off, false)
        );
    }
}

#[test]
fn preset_widens_for_long_rows() {
    let long = make_data(&["a"], &[&["1", "2"]], &[false]);
    let filled = make_data(&["a", ""], &[&["1", "2"]], &[false, false]);
    assert_eq!(
        render(&long, &OutputFormat::Ascii, &ColorMode::Off, false),
        render(&filled, &OutputFormat::Ascii, &ColorMode::Off, false)
    );
}
