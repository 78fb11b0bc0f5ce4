use tablefmt::cli::{ColorMode, OutputFormat};
use tablefmt::model::TableData;
use tablefmt::numeric::populate_column_meta;
use tablefmt::output::render;
use tablefmt::pipeline::{ensure_newline, finish_table_text, prepare_table};
use tablefmt::prettify::{postprocess, preprocess, PrettifyMeta};
use tablefmt::table_parse::{detect_style, parse_table};

fn sample() -> TableData {
    let mut t = TableData::new(
        vec!["Month".into(), "Revenue".into(), "Units".into()],
        vec![
            vec!["Jan".into(), "12500.50".into(), "342".into()],
            vec!["Feb".into(), "13200.75".into(), "389".into()],
        ],
    );
    populate_column_meta(&mut t);
    t
}

#[test]
fn box_styles_read_back() {
    for style in [OutputFormat::Orgtbl, OutputFormat::RstGrid, OutputFormat::HeavyOutline] {
        let t = sample();
        let out = render(&t, &style, &ColorMode::Off, false);
        let lines: Vec<&str> = out.lines().collect();
        let back = parse_table(&lines, &style).unwrap();
        assert_eq!(back.headers, t.headers);
        assert_eq!(back.rows, t.rows);
    }
}

#[test]
fn prettified_text_reads_back() {
    let meta = PrettifyMeta {
        pre_comment_spaces: 4,
        comment: Some("//".to_string()),
        post_comment_spaces: 2,
    };
    for style in [OutputFormat::Orgtbl, OutputFormat::RstGrid, OutputFormat::HeavyOutline] {
        let t = sample();
        let out = postprocess(&ensure_newline(render(&t, &style, &ColorMode::Off, false)), &meta);
        let (bare, again) = preprocess(&out);
        assert_eq!(again.comment.as_deref(), Some("//"));
        assert_eq!(again.pre_comment_spaces, 4);
        let refs: Vec<&str> = bare.iter().map(String::as_str).collect();
        let back = parse_table(&refs, &style).unwrap();
        assert_eq!(back.headers, t.headers);
        assert_eq!(back.rows, t.rows);
        let prepared = prepare_table(&out, Some(style)).unwrap();
        assert_eq!(prepared.data.rows, t.rows);
    }
}

#[test]
fn empty_cells_do_not_read_back() {
    let t = TableData::new(
        vec!["a".into(), "b".into()],
        vec![vec!["".into(), "x".into()]],
    );
    let out = render(&t, &OutputFormat::Orgtbl, &ColorMode::Off, false);
    let lines: Vec<&str> = out.lines().collect();
    let back = parse_table(&lines, &OutputFormat::Orgtbl).unwrap();
    assert_eq!(back.rows[0], vec!["x".to_string(), "".to_string()]);
}

#[test]
fn heavy_outline_is_detected_after_prettify() {
    let t = sample();
    let out = render(&t, &OutputFormat::HeavyOutline, &ColorMode::Off, false);
    let lines: Vec<&str> = out.lines().collect();
    assert_eq!(detect_style(&lines), OutputFormat::HeavyOutline);
    let meta = PrettifyMeta {
        pre_comment_spaces: 0,
        comment: Some("#".to_string()),
        post_comment_spaces: 1,
    };
    let text = postprocess(&ensure_newline(out), &meta);
    let prepared = prepare_table(&text, None).unwrap();
    assert_eq!(prepared.style, OutputFormat::HeavyOutline);
    assert_eq!(prepared.data.headers, t.headers);
    assert_eq!(prepared.data.rows, t.rows);
}

#[test]
fn prettify_twice_is_prettify_once() {
    for style in [OutputFormat::Orgtbl, OutputFormat::RstGrid, OutputFormat::HeavyOutline] {
        for comment in [None, Some("//"), Some("#")] {
            let meta = PrettifyMeta {
                pre_comment_spaces: 2,
                comment: comment.map(str::to_string),
                post_comment_spaces: 0,
            };
            let t = sample();
            let once = finish_table_text(&t, style, &meta);
            let again = prepare_table(&once, Some(style)).unwrap();
            let twice = finish_table_text(&again.data, again.style, &again.meta);
            assert_eq!(twice, once);
        }
    }
}

#[test]
fn jira_and_asciidoc_read_back() {
    for style in [OutputFormat::Jira, OutputFormat::Asciidoc] {
        let t = sample();
        let out = render(&t, &style, &ColorMode::Off, false);
        let lines: Vec<&str> = out.lines().collect();
        assert_eq!(detect_style(&lines), style);
        let back = parse_table(&lines, &style).unwrap();
        assert_eq!(back.headers, t.headers);
        assert_eq!(back.rows, t.rows);
    }
}

#[test]
fn orgtbl_is_detected_with_two_columns() {
    let t = sample();
    let out = render(&t, &OutputFormat::Orgtbl, &ColorMode::Off, false);
    let lines: Vec<&str> = out.lines().collect();
    assert_eq!(detect_style(&lines), OutputFormat::Orgtbl);
}

#[test]
fn single_column_orgtbl_has_no_cross() {
    let t = TableData::new(vec!["Name".into()], vec![vec!["x".into()]]);
    let out = render(&t, &OutputFormat::Orgtbl, &ColorMode::Off, false);
    let lines: Vec<&str> = out.lines().collect();
    assert!(!lines[1].contains('+'));
    assert_eq!(detect_style(&lines), OutputFormat::Github);
}

#[test]
fn rst_grid_is_detected_as_ascii() {
    let t = sample();
    let out = render(&t, &OutputFormat::RstGrid, &ColorMode::Off, false);
    let lines: Vec<&str> = out.lines().collect();
    assert!(lines[0].starts_with("+-"));
    assert_eq!(detect_style(&lines), OutputFormat::Ascii);
}

#[test]
fn box_tables_have_one_line_per_part() {
    let t = sample();
    for (style, count) in [
        (OutputFormat::Orgtbl, 2 + 2),
        (OutputFormat::RstGrid, 1 + 2 + 2 + 1 + 1),
        (OutputFormat::HeavyOutline, 1 + 2 + 2 + 1),
    ] {
        let out = render(&t, &style, &ColorMode::Off, false);
        assert!(out.ends_with('\n'));
        assert_eq!(out.lines().count(), count);
    }
}

#[test]
fn box_table_lines_have_the_rule_width() {
    let t = sample();
    // widths 5, 8, 5: three columns, each with a space either side, four borders
    let width = 3 + 1 + (5 + 2) + (8 + 2) + (5 + 2);
    for style in [OutputFormat::Orgtbl, OutputFormat::RstGrid, OutputFormat::HeavyOutline] {
        let out = render(&t, &style, &ColorMode::Off, false);
        assert!(out.lines().all(|l| l.chars().count() == width));
    }
}
