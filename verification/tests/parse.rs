use tablefmt::documents::{parse_json, parse_toml, parse_yaml};
use tablefmt::error::{DocumentError, TableError};
use tablefmt::model::TableData;
use tablefmt::parse::{parse_csv, strip_framing_delimiters};

fn csv(src: &str) -> TableData {
    parse_csv(src.as_bytes(), b',').unwrap()
}

#[test]
fn parse_csv_basic_two_columns() {
    let data = csv("item,qty\nspam,42\neggs,451");
    assert_eq!(data.headers, ["item", "qty"]);
    assert_eq!(data.rows[0], ["spam", "42"]);
    assert_eq!(data.rows[1], ["eggs", "451"]);
}

#[test]
fn parse_tsv_tab_delimiter() {
    let data = parse_csv("item\tqty\nspam\t42".as_bytes(), b'\t').unwrap();
    assert_eq!(data.headers, ["item", "qty"]);
    assert_eq!(data.rows[0], ["spam", "42"]);
}

#[test]
fn parse_psv_pipe_delimiter() {
    let data = parse_csv("item|qty\nspam|42".as_bytes(), b'|').unwrap();
    assert_eq!(data.headers, ["item", "qty"]);
}

#[test]
fn parse_psv_framed_rows_strips_outer_pipes() {
    let data = parse_csv("| item | qty |\n| spam | 42 |".as_bytes(), b'|').unwrap();
    assert_eq!(data.headers, [" item ", " qty "]);
    assert_eq!(data.rows[0], [" spam ", " 42 "]);
}

#[test]
fn parse_psv_framed_rows_no_extra_empty_columns() {
    let data = parse_csv("| a | b |\n| 1 | 2 |".as_bytes(), b'|').unwrap();
    assert_eq!(data.headers.len(), 2);
    assert_eq!(data.rows[0].len(), 2);
}

#[test]
fn parse_csv_delimiter_override_semicolon() {
    let data = parse_csv("item;qty\nspam;42".as_bytes(), b';').unwrap();
    assert_eq!(data.headers, ["item", "qty"]);
}

#[test]
fn parse_csv_header_only_produces_no_data_rows() {
    let data = csv("col1,col2");
    assert_eq!(data.headers, ["col1", "col2"]);
    assert!(data.rows.is_empty());
}

#[test]
fn parse_json_array_of_objects() {
    let data = parse_json(r#"[{"item":"spam","qty":42}]"#).unwrap();
    assert_eq!(data.headers, ["item", "qty"]);
    assert_eq!(data.rows[0], ["spam", "42"]);
}

#[test]
fn parse_json_non_array_returns_error() {
    assert!(parse_json(r#"{"key":"val"}"#).is_err());
}

#[test]
fn parse_json_array_with_non_object_element_returns_error() {
    assert!(parse_json(r#"["string","element"]"#).is_err());
}

#[test]
fn parse_json_heterogeneous_keys_fills_missing_with_empty() {
    let data = parse_json(r#"[{"a":"1"},{"b":"2"}]"#).unwrap();
    assert_eq!(data.headers, ["a", "b"]);
    assert_eq!(data.rows[0], ["1", ""]);
    assert_eq!(data.rows[1], ["", "2"]);
}

#[test]
fn parse_json_null_value_becomes_empty_string() {
    let data = parse_json(r#"[{"a":null}]"#).unwrap();
    assert_eq!(data.rows[0][0], "");
}

#[test]
fn parse_yaml_array_of_mappings() {
    let input = "- item: spam\n  qty: 42\n- item: eggs\n  qty: 451\n";
    let data = parse_yaml(input).unwrap();
    assert_eq!(data.headers, ["item", "qty"]);
    assert_eq!(data.rows[0], ["spam", "42"]);
}

#[test]
fn parse_yaml_non_sequence_returns_error() {
    assert!(parse_yaml("key: value\n").is_err());
}

#[test]
fn parse_toml_array_of_tables() {
    let input = "[[items]]\nname = \"spam\"\nqty = 42\n\n[[items]]\nname = \"eggs\"\nqty = 451\n";
    let data = parse_toml(input).unwrap();
    assert_eq!(data.headers, ["name", "qty"]);
    assert_eq!(data.rows[0], ["spam", "42"]);
}

#[test]
fn parse_toml_flat_becomes_single_row() {
    let input = "name = \"spam\"\nqty = 42\n";
    let data = parse_toml(input).unwrap();
    assert_eq!(data.headers, ["name", "qty"]);
    assert_eq!(data.rows.len(), 1);
}

#[test]
fn parse_toml_invalid_shape_returns_error() {
    let input = "nested = { a = { b = 1 } }\n";
    assert!(parse_toml(input).is_err());
}

// ── error kinds and edge cases ───────────────────────────────────────────

fn kind(r: Result<TableData, TableError>) -> DocumentError {
    match r {
        Err(TableError::Document { kind }) => kind,
        other => panic!("expected a document error, got {other:?}"),
    }
}

#[test]
fn json_error_kinds() {
    assert_eq!(kind(parse_json("[{")), DocumentError::JsonSyntax);
    assert_eq!(kind(parse_json(r#"{"key":"val"}"#)), DocumentError::JsonNotArray);
    assert_eq!(kind(parse_json(r#"["s"]"#)), DocumentError::JsonElementNotObject);
}

#[test]
fn json_value_texts() {
    let data = parse_json(r#"[{"b":true,"n":1.5,"s":"x","a":[1,2],"o":{"k":1}}]"#).unwrap();
    assert_eq!(data.headers, ["a", "b", "n", "o", "s"]);
    assert_eq!(data.rows[0], ["[1,2]", "true", "1.5", "{\"k\":1}", "x"]);
}

#[test]
fn json_empty_array_is_empty_table() {
    let data = parse_json("[]").unwrap();
    assert!(data.headers.is_empty());
    assert!(data.rows.is_empty());
}

#[test]
fn yaml_error_kinds() {
    assert_eq!(kind(parse_yaml("key: value\n")), DocumentError::YamlNotSequence);
    assert_eq!(kind(parse_yaml("")), DocumentError::YamlEmpty);
    assert_eq!(kind(parse_yaml("- 1\n- 2\n")), DocumentError::YamlElementNotMapping);
    assert_eq!(kind(parse_yaml("- true: 1\n")), DocumentError::YamlKeyNotString);
    assert_eq!(kind(parse_yaml("- a: [\n")), DocumentError::YamlSyntax);
}

#[test]
fn toml_error_kinds() {
    assert_eq!(kind(parse_toml("x = ")), DocumentError::TomlSyntax);
    assert_eq!(kind(parse_toml("nested = { a = 1 }\n")), DocumentError::TomlShape);
}

#[test]
fn csv_unequal_record_is_refused() {
    assert_eq!(parse_csv(b"a,b\n1\n", b',').unwrap_err(), TableError::Csv);
}

#[test]
fn strip_framing_only_removes_outer_delimiters() {
    assert_eq!(strip_framing_delimiters(b"  |a|b|  \r\n|c|", b'|'), b"a|b\nc\n".to_vec());
    assert_eq!(strip_framing_delimiters(b"", b','), b"\n".to_vec());
}

#[test]
fn parse_yaml_reads_the_first_document() {
    let data = parse_yaml("- a: 1\n---\n- b: 2\n- b: 3\n").unwrap();
    assert_eq!(data.headers, ["a"]);
    assert_eq!(data.rows, vec![vec!["1".to_string()]]);
    assert!(matches!(
        parse_yaml(""),
        Err(TableError::Document { kind: DocumentError::YamlEmpty })
    ));
}

#[test]
fn framed_rows_read_as_plain_for_any_delimiter() {
    for d in [b',', b'|', b'\t', b';'] {
        let ds = (d as char).to_string();
        let plain = format!("a{ds}b\n1{ds}2\n3{ds}4");
        let framed = format!("{ds}a{ds}b{ds}\n{ds}1{ds}2{ds}\n{ds}3{ds}4{ds}");
        let p = parse_csv(plain.as_bytes(), d).unwrap();
        let f = parse_csv(framed.as_bytes(), d).unwrap();
        assert_eq!(p.headers, f.headers);
        assert_eq!(p.rows, f.rows);
    }
}
