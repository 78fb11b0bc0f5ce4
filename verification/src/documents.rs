//! Reading JSON, YAML and TOML documents into tables. The readers of the
//! `serde_json`, `saphyr` and `toml` crates parse the text; what the library
//! reads of their values is kept in the plain types below.

use vstd::prelude::*;
use vstd::string::*;
use crate::model::TableData;
use crate::error::{DocumentError, TableError};
use crate::records;
use saphyr::{LoadableYamlNode, Scalar, Yaml};
use serde_json::Value;

verus! {

#[verifier::external_type_specification]
#[verifier::external_body]
pub struct ExJsonError(serde_json::Error);

#[verifier::external_type_specification]
#[verifier::external_body]
pub struct ExScanError(saphyr::ScanError);

#[verifier::external_type_specification]
#[verifier::external_body]
pub struct ExTomlError(toml::de::Error);

#[verifier::external_type_specification]
#[verifier::external_body]
pub struct ExJsonValue(serde_json::Value);

#[verifier::external_type_specification]
#[verifier::external_body]
pub struct ExTomlValue(toml::Value);

#[verifier::external_type_specification]
#[verifier::external_body]
pub struct ExYaml<'a>(saphyr::Yaml<'a>);

/// A value where a cell is expected.
#[derive(Debug, PartialEq, Eq)]
pub enum Cell {
    /// A string, taken verbatim.
    Text(String),
    /// An integer, as the reader displays it.
    Int(String),
    /// Another number or a date-time (JSON: also an array or object), as the
    /// reader displays it.
    Rendered(String),
    /// A boolean.
    Bool(bool),
    /// A null.
    Null,
    /// A sequence or mapping (YAML, TOML).
    Nested,
}

/// The text of a cell: strings and rendered values as they are, `true` or
/// `false`, empty for nulls and nested values.
pub open spec fn cell_text(c: Cell) -> Seq<char> {
    match c {
        Cell::Text(s) => s@,
        Cell::Int(s) => s@,
        Cell::Rendered(s) => s@,
        Cell::Bool(b) => if b {
            "true"@
        } else {
            "false"@
        },
        Cell::Null => Seq::empty(),
        Cell::Nested => Seq::empty(),
    }
}

/// The text of a cell.
pub fn cell_to_string(c: &Cell) -> (s: String)
    ensures
        s@ == cell_text(*c),
{
    match c {
        Cell::Text(s) => s.clone(),
        Cell::Int(s) => s.clone(),
        Cell::Rendered(s) => s.clone(),
        Cell::Bool(b) => if *b {
            String::from_str("true")
        } else {
            String::from_str("false")
        },
        Cell::Null => String::new(),
        Cell::Nested => String::new(),
    }
}

/// A JSON document: an array whose elements are objects (their entries in
/// the reader's order) or something else (`None`), or not an array.
#[derive(Debug, PartialEq, Eq)]
pub enum JsonDoc {
    Array(Vec<Option<Vec<(String, Cell)>>>),
    NotArray,
}

/// What `serde_json::from_str::<serde_json::Value>` reads from the text, or
/// `None` when it reports an error.
pub uninterp spec fn json_document(input: Seq<char>) -> Option<JsonDoc>;

/// Parses JSON text with `serde_json::from_str::<serde_json::Value>` and
/// keeps what the library reads of the value (`json_doc`).
#[verifier::external_body]
fn read_json(input: &str) -> (r: Result<JsonDoc, serde_json::Error>)
    ensures
        r matches Ok(d) ==> json_document(input@) == Some(d),
        r is Err ==> json_document(input@) is None,
{
    Ok(json_doc(serde_json::from_str::<Value>(input)?))
}

/// A JSON value, as the library reads it: an array's elements (`json_object`
/// of each), or that it is not an array.
#[verifier::external_body]
fn json_doc(v: Value) -> JsonDoc {
    match v {
        Value::Array(a) => JsonDoc::Array(a.into_iter().map(json_object).collect()),
        _ => JsonDoc::NotArray,
    }
}

/// A JSON array element: an object's entries in `serde_json`'s map order,
/// their values as cells, or `None` for anything else.
#[verifier::external_body]
fn json_object(v: Value) -> Option<Vec<(String, Cell)>> {
    match v {
        Value::Object(m) => Some(m.into_iter().map(|(k, x)| (k, json_cell(x))).collect()),
        _ => None,
    }
}

/// A JSON value as a cell: strings, booleans and null as they are; numbers,
/// arrays and objects as `serde_json` displays them.
#[verifier::external_body]
fn json_cell(v: Value) -> Cell {
    match v {
        Value::String(s) => Cell::Text(s),
        Value::Bool(b) => Cell::Bool(b),
        Value::Null => Cell::Null,
        Value::Number(n) => Cell::Rendered(n.to_string()),
        other => Cell::Rendered(other.to_string()),
    }
}

/// The key–value records of a list of entries, their values as cell texts.
pub open spec fn record_of(entries: Seq<(String, Cell)>) -> records::RecordView {
    entries.map_values(|e: (String, Cell)| (e.0@, cell_text(e.1)))
}

/// The records of the JSON array's elements, or the error for the first
/// element that is not an object.
pub open spec fn json_records(items: Seq<Option<Vec<(String, Cell)>>>) -> Result<Seq<records::RecordView>, TableError>
    decreases items.len(),
{
    if items.len() == 0 {
        Ok(Seq::empty())
    } else {
        match json_records(items.drop_last()) {
            Err(e) => Err(e),
            Ok(rs) => match items.last() {
                None => Err(TableError::Document { kind: DocumentError::JsonElementNotObject }),
                Some(es) => Ok(rs.push(record_of(es@))),
            },
        }
    }
}

/// The table a JSON document denotes: an array of objects, one row per
/// object, one column per key in order of first appearance.
pub open spec fn json_table_spec(doc: Option<JsonDoc>) -> Result<crate::table_parse::TableView, TableError> {
    match doc {
        None => Err(TableError::Document { kind: DocumentError::JsonSyntax }),
        Some(JsonDoc::NotArray) => Err(TableError::Document { kind: DocumentError::JsonNotArray }),
        Some(JsonDoc::Array(items)) => match json_records(items@) {
            Err(e) => Err(e),
            Ok(rs) => Ok(records::records_table(rs)),
        },
    }
}

/// The record of a list of entries.
fn to_record(entries: &Vec<(String, Cell)>) -> (r: Vec<(String, String)>)
    ensures
        r.deep_view() == record_of(entries@),
{
    let mut r: Vec<(String, String)> = Vec::new();
    let mut i: usize = 0;
    while i < entries.len()
        invariant
            i <= entries@.len(),
            r@.len() == i,
            forall|j: int|
                0 <= j < i ==> (#[trigger] r@[j]).0@ == entries@[j].0@ && r@[j].1@ == cell_text(
                    entries@[j].1,
                ),
        decreases entries.len() - i,
    {
        let k = entries[i].0.clone();
        let v = cell_to_string(&entries[i].1);
        r.push((k, v));
        assert(r@[i as int].0@ == entries@[i as int].0@);
        i = i + 1;
    }
    assert(r.deep_view() =~= record_of(entries@));
    r
}

/// The table of an already parsed JSON document.
pub fn json_table(doc: &JsonDoc) -> (res: Result<TableData, TableError>)
    ensures
        crate::table_parse::parsed_as(res, json_table_spec(Some(*doc))),
{
    match doc {
        JsonDoc::NotArray => Err(TableError::Document { kind: DocumentError::JsonNotArray }),
        JsonDoc::Array(items) => {
            let ghost iv = items@;
            let mut recs: Vec<Vec<(String, String)>> = Vec::new();
            let mut i: usize = 0;
            while i < items.len()
                invariant
                    i <= items@.len(),
                    iv == items@,
                    *doc matches JsonDoc::Array(v) && v@ == iv,
                    json_records(iv.take(i as int)) matches Ok(rs) && recs.deep_view() == rs,
                decreases items.len() - i,
            {
                assert(iv.take(i + 1).drop_last() =~= iv.take(i as int));
                match &items[i] {
                    None => {
                        proof {
                            lemma_json_records_err(iv, i as int);
                            assert(json_table_spec(Some(*doc)) == Err::<crate::table_parse::TableView, TableError>(
                                TableError::Document { kind: DocumentError::JsonElementNotObject },
                            ));
                        }
                        return Err(TableError::Document { kind: DocumentError::JsonElementNotObject });
                    },
                    Some(es) => {
                        let ghost before = recs.deep_view();
                        recs.push(to_record(es));
                        assert(recs.deep_view() =~= before.push(record_of(es@)));
                    },
                }
                i = i + 1;
            }
            assert(iv.take(items@.len() as int) =~= iv);
            Ok(records::records_to_table(&recs))
        },
    }
}

/// An element that is not an object makes the whole array fail.
proof fn lemma_json_records_err(items: Seq<Option<Vec<(String, Cell)>>>, i: int)
    requires
        0 <= i < items.len(),
        items[i] is None,
        json_records(items.take(i)) is Ok,
    ensures
        json_records(items) == Err::<Seq<records::RecordView>, TableError>(
            TableError::Document { kind: DocumentError::JsonElementNotObject },
        ),
{
    assert(items.take(i + 1).drop_last() =~= items.take(i));
    lemma_json_records_err_grows(items, i + 1);
}

/// Once the records of a prefix fail, the records of every longer prefix fail
/// the same way.
proof fn lemma_json_records_err_grows(items: Seq<Option<Vec<(String, Cell)>>>, k: int)
    requires
        0 <= k <= items.len(),
        json_records(items.take(k)) is Err,
    ensures
        json_records(items) == json_records(items.take(k)),
    decreases items.len() - k,
{
    if k < items.len() {
        assert(items.take(k + 1).drop_last() =~= items.take(k));
        lemma_json_records_err_grows(items, k + 1);
    } else {
        assert(items.take(k) =~= items);
    }
}

/// Reads a JSON array of objects into a table: one row per object, one column
/// per key in order of first appearance, missing keys and nulls empty.
pub fn parse_json(input: &str) -> (res: Result<TableData, TableError>)
    ensures
        crate::table_parse::parsed_as(res, json_table_spec(json_document(input@))),
        res matches Ok(t) ==> crate::model::rows_cover(t.row_view(), t.headers@.len() as int),
{
    match read_json(input) {
        Ok(doc) => json_table(&doc),
        Err(_) => Err(TableError::Document { kind: DocumentError::JsonSyntax }),
    }
}


/// A YAML document: not a sequence, or a sequence whose elements are
/// mappings (their key and value cells in document order) or something else
/// (`None`).
#[derive(Debug, PartialEq, Eq)]
pub enum YamlDoc {
    NotSequence,
    Sequence(Vec<Option<Vec<(Cell, Cell)>>>),
}

/// The documents that `saphyr::Yaml::load_from_str` reads from the text, in
/// order, or `None` when it reports an error.
pub uninterp spec fn yaml_documents(input: Seq<char>) -> Option<Seq<YamlDoc>>;

/// Parses YAML text with `saphyr::Yaml::load_from_str` and keeps what the
/// library reads of each document (`yaml_doc`).
#[verifier::external_body]
fn read_yaml(input: &str) -> (r: Result<Vec<YamlDoc>, saphyr::ScanError>)
    ensures
        r matches Ok(d) ==> yaml_documents(input@) == Some(d@),
        r is Err ==> yaml_documents(input@) is None,
{
    Ok(Yaml::load_from_str(input)?.into_iter().map(yaml_doc).collect())
}

/// A YAML document, as the library reads it: a sequence (`yaml_item` of each
/// element), or not a sequence.
#[verifier::external_body]
fn yaml_doc<'a>(doc: Yaml<'a>) -> YamlDoc {
    match doc {
        Yaml::Sequence(items) => YamlDoc::Sequence(items.into_iter().map(yaml_item).collect()),
        _ => YamlDoc::NotSequence,
    }
}

/// A YAML sequence element: a mapping's key and value cells in document
/// order, or `None` for anything else.
#[verifier::external_body]
fn yaml_item<'a>(item: Yaml<'a>) -> Option<Vec<(Cell, Cell)>> {
    match item {
        Yaml::Mapping(m) => Some(m.into_iter().map(|(k, v)| (yaml_cell(k), yaml_cell(v))).collect()),
        _ => None,
    }
}

/// A YAML node as a cell: scalars as `saphyr` resolved them (integers and
/// floats as it displays them), anything else nested.
#[verifier::external_body]
fn yaml_cell<'a>(x: Yaml<'a>) -> Cell {
    match x {
        Yaml::Value(Scalar::String(s)) => Cell::Text(s.to_string()),
        Yaml::Value(Scalar::Integer(n)) => Cell::Int(n.to_string()),
        Yaml::Value(Scalar::FloatingPoint(f)) => Cell::Rendered(f.to_string()),
        Yaml::Value(Scalar::Boolean(b)) => Cell::Bool(b),
        Yaml::Value(Scalar::Null) => Cell::Null,
        _ => Cell::Nested,
    }
}

/// The text of a mapping key: strings and integers only.
pub open spec fn key_text(c: Cell) -> Option<Seq<char>> {
    match c {
        Cell::Text(s) => Some(s@),
        Cell::Int(s) => Some(s@),
        _ => None,
    }
}

/// The record of a YAML mapping, or the error for its first key that is
/// neither a string nor an integer.
pub open spec fn yaml_record(pairs: Seq<(Cell, Cell)>) -> Result<records::RecordView, TableError>
    decreases pairs.len(),
{
    if pairs.len() == 0 {
        Ok(Seq::empty())
    } else {
        match yaml_record(pairs.drop_last()) {
            Err(e) => Err(e),
            Ok(r) => match key_text(pairs.last().0) {
                None => Err(TableError::Document { kind: DocumentError::YamlKeyNotString }),
                Some(k) => Ok(r.push((k, cell_text(pairs.last().1)))),
            },
        }
    }
}

/// The records of the YAML sequence's elements, or the first error in
/// document order.
pub open spec fn yaml_records(items: Seq<Option<Vec<(Cell, Cell)>>>) -> Result<Seq<records::RecordView>, TableError>
    decreases items.len(),
{
    if items.len() == 0 {
        Ok(Seq::empty())
    } else {
        match yaml_records(items.drop_last()) {
            Err(e) => Err(e),
            Ok(rs) => match items.last() {
                None => Err(TableError::Document { kind: DocumentError::YamlElementNotMapping }),
                Some(ps) => match yaml_record(ps@) {
                    Err(e) => Err(e),
                    Ok(r) => Ok(rs.push(r)),
                },
            },
        }
    }
}

/// The table a YAML text denotes: its first document, a sequence of
/// mappings, gives one row per mapping, one column per key in order of first
/// appearance; the later documents are not read.
pub open spec fn yaml_table_spec(docs: Option<Seq<YamlDoc>>) -> Result<crate::table_parse::TableView, TableError> {
    match docs {
        None => Err(TableError::Document { kind: DocumentError::YamlSyntax }),
        Some(ds) => if ds.len() == 0 {
            Err(TableError::Document { kind: DocumentError::YamlEmpty })
        } else {
            match ds[0] {
                YamlDoc::NotSequence => Err(TableError::Document { kind: DocumentError::YamlNotSequence }),
                YamlDoc::Sequence(items) => match yaml_records(items@) {
                    Err(e) => Err(e),
                    Ok(rs) => Ok(records::records_table(rs)),
                },
            }
        },
    }
}

/// The text of a mapping key.
fn key_to_string(c: &Cell) -> (r: Option<String>)
    ensures
        match key_text(*c) {
            Some(k) => r matches Some(s) && s@ == k,
            None => r is None,
        },
{
    match c {
        Cell::Text(s) => Some(s.clone()),
        Cell::Int(s) => Some(s.clone()),
        _ => None,
    }
}

/// The record of a YAML mapping.
fn yaml_mapping_record(pairs: &Vec<(Cell, Cell)>) -> (r: Result<Vec<(String, String)>, TableError>)
    ensures
        match yaml_record(pairs@) {
            Ok(rv) => r matches Ok(v) && v.deep_view() == rv,
            Err(e) => r == Err::<Vec<(String, String)>, TableError>(e),
        },
{
    let ghost pv = pairs@;
    let mut out: Vec<(String, String)> = Vec::new();
    let mut i: usize = 0;
    while i < pairs.len()
        invariant
            i <= pairs@.len(),
            pv == pairs@,
            yaml_record(pv.take(i as int)) matches Ok(rv) && out.deep_view() == rv,
        decreases pairs.len() - i,
    {
        assert(pv.take(i + 1).drop_last() =~= pv.take(i as int));
        match key_to_string(&pairs[i].0) {
            None => {
                proof {
                    lemma_yaml_record_err_grows(pv, i + 1);
                }
                return Err(TableError::Document { kind: DocumentError::YamlKeyNotString });
            },
            Some(k) => {
                let v = cell_to_string(&pairs[i].1);
                let ghost before = out.deep_view();
                out.push((k, v));
                assert(out.deep_view() =~= before.push((k@, v@)));
            },
        }
        i = i + 1;
    }
    assert(pv.take(pairs@.len() as int) =~= pv);
    Ok(out)
}

proof fn lemma_yaml_record_err_grows(pairs: Seq<(Cell, Cell)>, k: int)
    requires
        0 <= k <= pairs.len(),
        yaml_record(pairs.take(k)) is Err,
    ensures
        yaml_record(pairs) == yaml_record(pairs.take(k)),
    decreases pairs.len() - k,
{
    if k < pairs.len() {
        assert(pairs.take(k + 1).drop_last() =~= pairs.take(k));
        lemma_yaml_record_err_grows(pairs, k + 1);
    } else {
        assert(pairs.take(k) =~= pairs);
    }
}

proof fn lemma_yaml_records_err_grows(items: Seq<Option<Vec<(Cell, Cell)>>>, k: int)
    requires
        0 <= k <= items.len(),
        yaml_records(items.take(k)) is Err,
    ensures
        yaml_records(items) == yaml_records(items.take(k)),
    decreases items.len() - k,
{
    if k < items.len() {
        assert(items.take(k + 1).drop_last() =~= items.take(k));
        lemma_yaml_records_err_grows(items, k + 1);
    } else {
        assert(items.take(k) =~= items);
    }
}

/// The table of already parsed YAML documents: that of the first.
pub fn yaml_table(docs: &Vec<YamlDoc>) -> (res: Result<TableData, TableError>)
    ensures
        crate::table_parse::parsed_as(res, yaml_table_spec(Some(docs@))),
{
    if docs.len() == 0 {
        return Err(TableError::Document { kind: DocumentError::YamlEmpty });
    }
    let doc = &docs[0];
    assert(*doc == docs@[0]);
    match doc {
        YamlDoc::NotSequence => Err(TableError::Document { kind: DocumentError::YamlNotSequence }),
        YamlDoc::Sequence(items) => {
            let ghost iv = items@;
            let mut recs: Vec<Vec<(String, String)>> = Vec::new();
            let mut i: usize = 0;
            while i < items.len()
                invariant
                    i <= items@.len(),
                    iv == items@,
                    *doc matches YamlDoc::Sequence(v) && v@ == iv,
                    docs@.len() > 0,
                    *doc == docs@[0],
                    yaml_records(iv.take(i as int)) matches Ok(rs) && recs.deep_view() == rs,
                decreases items.len() - i,
            {
                assert(iv.take(i + 1).drop_last() =~= iv.take(i as int));
                match &items[i] {
                    None => {
                        proof {
                            lemma_yaml_records_err_grows(iv, i + 1);
                        }
                        return Err(TableError::Document { kind: DocumentError::YamlElementNotMapping });
                    },
                    Some(ps) => {
                        match yaml_mapping_record(ps) {
                            Err(e) => {
                                proof {
                                    lemma_yaml_records_err_grows(iv, i + 1);
                                }
                                return Err(e);
                            },
                            Ok(r) => {
                                let ghost before = recs.deep_view();
                                recs.push(r);
                                assert(recs.deep_view() =~= before.push(r.deep_view()));
                            },
                        }
                    },
                }
                i = i + 1;
            }
            assert(iv.take(items@.len() as int) =~= iv);
            Ok(records::records_to_table(&recs))
        },
    }
}

/// Reads a YAML sequence of mappings into a table: one row per mapping, one
/// column per key in order of first appearance.
pub fn parse_yaml(input: &str) -> (res: Result<TableData, TableError>)
    ensures
        crate::table_parse::parsed_as(res, yaml_table_spec(yaml_documents(input@))),
        res matches Ok(t) ==> crate::model::rows_cover(t.row_view(), t.headers@.len() as int),
{
    match read_yaml(input) {
        Ok(docs) => yaml_table(&docs),
        Err(_) => Err(TableError::Document { kind: DocumentError::YamlSyntax }),
    }
}


/// A top-level TOML value: a scalar, an array (its elements tables, their
/// entries in the reader's order, or something else: `None`), or a table.
#[derive(Debug, PartialEq, Eq)]
pub enum TomlEntry {
    Scalar(Cell),
    Array(Vec<Option<Vec<(String, Cell)>>>),
    Table,
}

/// A TOML document: the entries of its root table, or not a table.
#[derive(Debug, PartialEq, Eq)]
pub enum TomlDoc {
    Table(Vec<(String, TomlEntry)>),
    NotTable,
}

/// What `toml::from_str::<toml::Value>` reads from the text, or `None` when it
/// reports an error.
pub uninterp spec fn toml_document(input: Seq<char>) -> Option<TomlDoc>;

/// Parses TOML text with `toml::from_str::<toml::Value>` and keeps what the
/// library reads of the value (`toml_doc`).
#[verifier::external_body]
fn read_toml(input: &str) -> (r: Result<TomlDoc, toml::de::Error>)
    ensures
        r matches Ok(d) ==> toml_document(input@) == Some(d),
        r is Err ==> toml_document(input@) is None,
{
    Ok(toml_doc(toml::from_str::<toml::Value>(input)?))
}

/// A TOML value, as the library reads it: a table's entries in the reader's
/// order (`toml_entry` of each), or that it is not a table.
#[verifier::external_body]
fn toml_doc(v: toml::Value) -> TomlDoc {
    match v {
        toml::Value::Table(t) => TomlDoc::Table(t.into_iter().map(toml_entry).collect()),
        _ => TomlDoc::NotTable,
    }
}

/// An entry of the root table: an array (`toml_row` of each element), a
/// nested table, or a scalar cell.
#[verifier::external_body]
fn toml_entry(e: (String, toml::Value)) -> (String, TomlEntry) {
    match e.1 {
        toml::Value::Array(a) => (e.0, TomlEntry::Array(a.into_iter().map(toml_row).collect())),
        toml::Value::Table(_) => (e.0, TomlEntry::Table),
        v => (e.0, TomlEntry::Scalar(toml_cell(v))),
    }
}

/// An array element: a table's entries in the reader's order, their values
/// as cells, or `None` for anything else.
#[verifier::external_body]
fn toml_row(v: toml::Value) -> Option<Vec<(String, Cell)>> {
    match v {
        toml::Value::Table(t) => Some(t.into_iter().map(|(k, x)| (k, toml_cell(x))).collect()),
        _ => None,
    }
}

/// A TOML value as a cell: strings and booleans as they are, integers, floats
/// and date-times as `toml` displays them, arrays and tables nested.
#[verifier::external_body]
fn toml_cell(v: toml::Value) -> Cell {
    match v {
        toml::Value::String(s) => Cell::Text(s),
        toml::Value::Integer(n) => Cell::Int(n.to_string()),
        toml::Value::Float(f) => Cell::Rendered(f.to_string()),
        toml::Value::Boolean(b) => Cell::Bool(b),
        toml::Value::Datetime(d) => Cell::Rendered(d.to_string()),
        _ => Cell::Nested,
    }
}

/// An array of tables: not empty, every element a table.
pub open spec fn is_table_array(items: Seq<Option<Vec<(String, Cell)>>>) -> bool {
    items.len() > 0 && forall|i: int| 0 <= i < items.len() ==> #[trigger] items[i] is Some
}

/// The index of the first root entry that is an array of tables.
pub open spec fn first_table_array(entries: Seq<(String, TomlEntry)>) -> Option<int>
    decreases entries.len(),
{
    if entries.len() == 0 {
        None
    } else if entries[0].1 matches TomlEntry::Array(items) && is_table_array(items@) {
        Some(0)
    } else {
        match first_table_array(entries.drop_first()) {
            Some(k) => Some(k + 1),
            None => None,
        }
    }
}

/// The records of an array of tables.
pub open spec fn table_records(items: Seq<Option<Vec<(String, Cell)>>>) -> Seq<records::RecordView> {
    items.map_values(|it: Option<Vec<(String, Cell)>>| record_of(it.unwrap()@))
}

/// Every root entry is a scalar.
pub open spec fn all_scalar(entries: Seq<(String, TomlEntry)>) -> bool {
    forall|i: int| 0 <= i < entries.len() ==> #[trigger] entries[i].1 is Scalar
}

/// The table a TOML document denotes: the first array of tables at the root,
/// one row per table; else, when the root holds only scalars (at least one),
/// one row of them; else an error.
pub open spec fn toml_table_spec(doc: Option<TomlDoc>) -> Result<crate::table_parse::TableView, TableError> {
    match doc {
        None => Err(TableError::Document { kind: DocumentError::TomlSyntax }),
        Some(TomlDoc::NotTable) => Err(TableError::Document { kind: DocumentError::TomlNotTable }),
        Some(TomlDoc::Table(entries)) => {
            let es = entries@;
            match first_table_array(es) {
                Some(k) => match es[k].1 {
                    TomlEntry::Array(items) => Ok(records::records_table(table_records(items@))),
                    _ => Err(TableError::Document { kind: DocumentError::TomlShape }),
                },
                None => if all_scalar(es) && es.len() > 0 {
                    Ok(
                        (
                            es.map_values(|e: (String, TomlEntry)| e.0@),
                            seq![
                                es.map_values(
                                    |e: (String, TomlEntry)|
                                        cell_text(
                                            match e.1 {
                                                TomlEntry::Scalar(c) => c,
                                                _ => Cell::Nested,
                                            },
                                        ),
                                ),
                            ],
                        ),
                    )
                } else {
                    Err(TableError::Document { kind: DocumentError::TomlShape })
                },
            }
        },
    }
}

/// Whether `items` is an array of tables.
fn is_table_array_exec(items: &Vec<Option<Vec<(String, Cell)>>>) -> (r: bool)
    ensures
        r == is_table_array(items@),
{
    if items.len() == 0 {
        return false;
    }
    let mut i: usize = 0;
    while i < items.len()
        invariant
            i <= items@.len(),
            forall|j: int| 0 <= j < i ==> #[trigger] items@[j] is Some,
        decreases items.len() - i,
    {
        if items[i].is_none() {
            assert(!(items@[i as int] is Some));
            return false;
        }
        i = i + 1;
    }
    true
}

/// The table of an already parsed TOML document.
pub fn toml_table(doc: &TomlDoc) -> (res: Result<TableData, TableError>)
    ensures
        crate::table_parse::parsed_as(res, toml_table_spec(Some(*doc))),
{
    match doc {
        TomlDoc::NotTable => Err(TableError::Document { kind: DocumentError::TomlNotTable }),
        TomlDoc::Table(entries) => {
            let ghost es = entries@;
            assert(es.skip(0) =~= es);
            let mut k: usize = 0;
            while k < entries.len()
                invariant
                    k <= entries@.len(),
                    es == entries@,
                    *doc matches TomlDoc::Table(v) && v@ == es,
                    first_table_array(es) == match first_table_array(es.skip(k as int)) {
                        Some(j) => Some(j + k),
                        None => None,
                    },
                decreases entries.len() - k,
            {
                assert(es.skip(k as int)[0] == entries@[k as int]);
                assert(es.skip(k as int).drop_first() =~= es.skip(k + 1));
                if let TomlEntry::Array(items) = &entries[k].1 {
                    if is_table_array_exec(items) {
                        assert(first_table_array(es) == Some(k as int));
                        let mut recs: Vec<Vec<(String, String)>> = Vec::new();
                        let mut i: usize = 0;
                        while i < items.len()
                            invariant
                                i <= items@.len(),
                                is_table_array(items@),
                                k < es.len(),
                                *doc matches TomlDoc::Table(v) && v@ == es,
                                first_table_array(es) == Some(k as int),
                                es[k as int].1 matches TomlEntry::Array(v) && v@ == items@,
                                recs@.len() == i,
                                forall|j: int|
                                    0 <= j < i ==> #[trigger] recs@[j].deep_view() == record_of(
                                        items@[j].unwrap()@,
                                    ),
                            decreases items.len() - i,
                        {
                            assert(items@[i as int] is Some);
                            match &items[i] {
                                Some(ps) => {
                                    recs.push(to_record(ps));
                                },
                                None => {},
                            }
                            i = i + 1;
                        }
                        assert(recs.deep_view() =~= table_records(items@));
                        return Ok(records::records_to_table(&recs));
                    }
                }
                k = k + 1;
            }
            assert(es.skip(entries@.len() as int).len() == 0);
            // no array of tables: a single row of scalars
            if entries.len() == 0 {
                return Err(TableError::Document { kind: DocumentError::TomlShape });
            }
            let mut headers: Vec<String> = Vec::new();
            let mut row: Vec<String> = Vec::new();
            let mut i: usize = 0;
            while i < entries.len()
                invariant
                    i <= entries@.len(),
                    es == entries@,
                    *doc matches TomlDoc::Table(v) && v@ == es,
                    first_table_array(es) is None,
                    forall|j: int| 0 <= j < i ==> #[trigger] es[j].1 is Scalar,
                    headers@.len() == i,
                    row@.len() == i,
                    forall|j: int| 0 <= j < i ==> #[trigger] headers@[j]@ == es[j].0@,
                    forall|j: int|
                        0 <= j < i ==> #[trigger] row@[j]@ == cell_text(
                            match es[j].1 {
                                TomlEntry::Scalar(c) => c,
                                _ => Cell::Nested,
                            },
                        ),
                decreases entries.len() - i,
            {
                match &entries[i].1 {
                    TomlEntry::Scalar(c) => {
                        headers.push(entries[i].0.clone());
                        row.push(cell_to_string(c));
                    },
                    _ => {
                        assert(!(es[i as int].1 is Scalar));
                        return Err(TableError::Document { kind: DocumentError::TomlShape });
                    },
                }
                i = i + 1;
            }
            let ghost hv = headers.deep_view();
            let ghost rv = row.deep_view();
            let mut rows: Vec<Vec<String>> = Vec::new();
            rows.push(row);
            assert(hv =~= es.map_values(|e: (String, TomlEntry)| e.0@));
            assert(rows.deep_view() =~= seq![rv]);
            assert(rv =~= es.map_values(
                |e: (String, TomlEntry)|
                    cell_text(
                        match e.1 {
                            TomlEntry::Scalar(c) => c,
                            _ => Cell::Nested,
                        },
                    ),
            ));
            Ok(TableData::new(headers, rows))
        },
    }
}

/// Reads a TOML document into a table: its first array of tables, one row per
/// table; or, when it holds only scalars, one row of them.
pub fn parse_toml(input: &str) -> (res: Result<TableData, TableError>)
    ensures
        crate::table_parse::parsed_as(res, toml_table_spec(toml_document(input@))),
        res matches Ok(t) ==> crate::model::rows_cover(t.row_view(), t.headers@.len() as int),
{
    match read_toml(input) {
        Ok(doc) => toml_table(&doc),
        Err(_) => Err(TableError::Document { kind: DocumentError::TomlSyntax }),
    }
}

} // verus!
