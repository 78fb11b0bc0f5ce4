use tablefmt::model::{ColumnMeta, TableData};
use tablefmt::numeric::{decimal_places, is_float_literal, populate_column_meta};

fn make_data(headers: &[&str], rows: &[&[&str]]) -> TableData {
    TableData::new(
        headers.iter().map(|s| s.to_string()).collect(),
        rows.iter()
            .map(|r| r.iter().map(|s| s.to_string()).collect())
            .collect(),
    )
}

#[test]
fn detect_numeric_column_marks_is_numeric_true() {
    let mut data = make_data(&["n"], &[&["42"], &["3.14"], &["0"]]);
    populate_column_meta(&mut data);
    assert!(data.column_meta[0].is_numeric);
}

#[test]
fn detect_mixed_column_marks_is_numeric_false() {
    let mut data = make_data(&["n"], &[&["42"], &["hello"], &["0"]]);
    populate_column_meta(&mut data);
    assert!(!data.column_meta[0].is_numeric);
}

#[test]
fn detect_empty_cells_do_not_disqualify_numeric() {
    let mut data = make_data(&["n"], &[&["42"], &[""], &["7"]]);
    populate_column_meta(&mut data);
    assert!(data.column_meta[0].is_numeric);
}

#[test]
fn max_decimal_places_computes_correctly() {
    let mut data = make_data(&["n"], &[&["1"], &["3.14"], &["2.5"]]);
    populate_column_meta(&mut data);
    assert_eq!(data.column_meta[0].max_decimal_places, 2);
}

#[test]
fn all_empty_column_is_not_numeric() {
    let mut data = make_data(&["n"], &[&[""], &[""]]);
    populate_column_meta(&mut data);
    assert!(!data.column_meta[0].is_numeric);
}

// ── the number grammar ───────────────────────────────────────────────────

fn chars(s: &str) -> Vec<char> {
    s.chars().collect()
}

#[test]
fn float_literals_follow_std_grammar() {
    for s in ["0", "42", "-3.14", "+2.", ".5", "1e10", "1E-3", "2.5e+7", "inf", "-Infinity", "NaN", "nan"] {
        assert!(is_float_literal(&chars(s)), "{s} should parse");
        assert_eq!(s.parse::<f64>().is_ok(), true);
    }
    for s in ["", ".", "e5", "1e", "--1", "1.2.3", "abc", "1,5", " 1", "0x10", "infinity1"] {
        assert!(!is_float_literal(&chars(s)), "{s} should not parse");
        assert_eq!(s.parse::<f64>().is_ok(), false);
    }
}

#[test]
fn decimal_places_stop_at_exponent() {
    assert_eq!(decimal_places(&chars("3.14")), 2);
    assert_eq!(decimal_places(&chars("42")), 0);
    assert_eq!(decimal_places(&chars("1.250e3")), 3);
    assert_eq!(decimal_places(&chars("7.")), 0);
}

#[test]
fn cells_are_trimmed_before_analysis() {
    let mut data = make_data(&["n", "s"], &[&[" 1.5 ", "x"], &["2", " "]]);
    populate_column_meta(&mut data);
    assert!(data.column_meta[0].is_numeric);
    assert_eq!(data.column_meta[0].max_decimal_places, 1);
    assert!(!data.column_meta[1].is_numeric);
}

#[test]
fn extra_column_analyses_are_left_alone() {
    let mut data = make_data(&["n"], &[&["1.25"]]);
    data.column_meta.push(ColumnMeta { is_numeric: true, max_decimal_places: 7 });
    populate_column_meta(&mut data);
    assert_eq!(data.column_meta.len(), 2);
    assert!(data.column_meta[0].is_numeric);
    assert_eq!(data.column_meta[0].max_decimal_places, 2);
    assert_eq!(data.column_meta[1], ColumnMeta { is_numeric: true, max_decimal_places: 7 });
}
