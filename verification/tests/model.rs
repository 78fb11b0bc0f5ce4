use tablefmt::model::{ColumnMeta, TableData};

#[test]
fn table_data_truncate_limits_rows() {
    let mut data = TableData::new(
        vec!["a".to_string()],
        vec![
            vec!["1".to_string()],
            vec!["2".to_string()],
            vec!["3".to_string()],
        ],
    );
    data.truncate_rows(2);
    assert_eq!(data.rows.len(), 2);
}

#[test]
fn table_data_truncate_no_op_when_fewer_rows() {
    let mut data = TableData::new(vec!["a".to_string()], vec![vec!["1".to_string()]]);
    data.truncate_rows(10);
    assert_eq!(data.rows.len(), 1);
}

#[test]
fn trim_values_removes_surrounding_whitespace() {
    let mut data = TableData::new(
        vec![" col1 ".to_string(), "\tcol2\t".to_string()],
        vec![vec![" val1 ".to_string(), "  val2  ".to_string()]],
    );
    data.trim_values();
    assert_eq!(data.headers, ["col1", "col2"]);
    assert_eq!(data.rows[0], ["val1", "val2"]);
}

#[test]
fn new_table_has_default_meta_per_header() {
    let data = TableData::new(vec!["a".to_string(), "b".to_string()], vec![]);
    assert_eq!(data.column_meta.len(), 2);
    assert_eq!(data.column_meta[0], ColumnMeta::default());
    assert!(!data.column_meta[1].is_numeric);
    assert_eq!(data.column_meta[1].max_decimal_places, 0);
}

#[test]
fn truncate_keeps_first_rows_in_order() {
    let mut data = TableData::new(
        vec!["a".to_string()],
        vec![vec!["1".to_string()], vec!["2".to_string()], vec!["3".to_string()]],
    );
    data.truncate_rows(2);
    assert_eq!(data.rows, vec![vec!["1".to_string()], vec!["2".to_string()]]);
    data.truncate_rows(0);
    assert!(data.rows.is_empty());
}

#[test]
fn trim_values_twice_is_trim_once() {
    let mut data = TableData::new(
        vec!["  h\u{a0}".to_string()],
        vec![vec!["\u{3000} x y \n".to_string()]],
    );
    data.trim_values();
    let once = (data.headers.clone(), data.rows.clone());
    data.trim_values();
    assert_eq!((data.headers.clone(), data.rows.clone()), once);
    assert_eq!(data.headers, ["h"]);
    assert_eq!(data.rows[0], ["x y"]);
}
