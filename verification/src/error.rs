//! The ways the library's operations can fail.

use vstd::prelude::*;
use crate::output::{decimal, push_decimal};

verus! {

/// Why an operation refused its input.
#[derive(Debug, PartialEq, Eq)]
pub enum TableError {
    /// A line number past the end of the file.
    LineOutOfRange { line: usize, n_lines: usize },
    /// The line is neither a table line nor inside an RST simple table.
    NotATable { line: usize },
    /// A pipe-style table without any data line.
    NoDataRows,
    /// A pipe-style table whose first data line has no cells.
    EmptyHeader,
    /// An RST simple table with fewer than two `=` separator lines.
    RstTooFewSeparators { found: usize },
    /// An RST separator line without any `=` run.
    RstNoColumns,
    /// No non-blank line between the first two RST separator lines.
    RstNoHeader,
    /// A column index at or past the number of columns.
    ColumnOutOfRange { index: usize, n_columns: usize },
    /// The CSV reader rejected the input.
    Csv,
    /// The input is not valid UTF-8.
    NotUtf8,
    /// A JSON, YAML or TOML document the reader rejected, or of the wrong shape.
    Document { kind: DocumentError },
    /// A file extension that names no known input format.
    UnknownExtension { extension: String },
    /// An input path without an extension and without `--format`.
    NoExtension,
    /// Standard input without `--format` or `--delimiter`.
    StdinNeedsFormat,
    /// A `--delimiter` that is not a single ASCII character.
    DelimiterNotAscii,
    /// A changelog without the `## unreleased` heading.
    NoUnreleasedHeading,
}

/// What was wrong with a structured document.
#[derive(Debug, Clone, Copy, PartialEq, Eq)]
pub enum DocumentError {
    /// The JSON reader rejected the text.
    JsonSyntax,
    /// The JSON document is not an array.
    JsonNotArray,
    /// An element of the JSON array is not an object.
    JsonElementNotObject,
    /// The YAML reader rejected the text.
    YamlSyntax,
    /// The YAML text holds no document.
    YamlEmpty,
    /// The first YAML document is not a sequence.
    YamlNotSequence,
    /// An element of the YAML sequence is not a mapping.
    YamlElementNotMapping,
    /// A YAML mapping key that is neither a string nor an integer.
    YamlKeyNotString,
    /// The TOML reader rejected the text.
    TomlSyntax,
    /// The TOML document is not a table.
    TomlNotTable,
    /// The TOML document has neither an array of tables nor only scalar values.
    TomlShape,
}

impl DocumentError {
    /// The message that reports this problem.
    pub open spec fn message_spec(self) -> Seq<char> {
        match self {
            DocumentError::JsonSyntax => "failed to parse JSON"@,
            DocumentError::JsonNotArray => "JSON input must be an array of objects"@,
            DocumentError::JsonElementNotObject => "JSON array elements must be objects"@,
            DocumentError::YamlSyntax => "YAML parse error"@,
            DocumentError::YamlEmpty => "empty YAML document"@,
            DocumentError::YamlNotSequence => "YAML input must be a sequence (array) of mappings"@,
            DocumentError::YamlElementNotMapping => "each YAML sequence element must be a mapping"@,
            DocumentError::YamlKeyNotString => "YAML mapping key must be a string"@,
            DocumentError::TomlSyntax => "failed to parse TOML"@,
            DocumentError::TomlNotTable => "TOML input must be a table"@,
            DocumentError::TomlShape => "TOML input must contain an array of tables (e.g. [[items]]) or be a flat key-value table"@,
        }
    }

    /// The message that reports this problem.
    pub fn message(&self) -> (s: String)
        ensures
            s@ == self.message_spec(),
    {
        match self {
            DocumentError::JsonSyntax => String::from_str("failed to parse JSON"),
            DocumentError::JsonNotArray => String::from_str("JSON input must be an array of objects"),
            DocumentError::JsonElementNotObject => String::from_str("JSON array elements must be objects"),
            DocumentError::YamlSyntax => String::from_str("YAML parse error"),
            DocumentError::YamlEmpty => String::from_str("empty YAML document"),
            DocumentError::YamlNotSequence => String::from_str("YAML input must be a sequence (array) of mappings"),
            DocumentError::YamlElementNotMapping => String::from_str("each YAML sequence element must be a mapping"),
            DocumentError::YamlKeyNotString => String::from_str("YAML mapping key must be a string"),
            DocumentError::TomlSyntax => String::from_str("failed to parse TOML"),
            DocumentError::TomlNotTable => String::from_str("TOML input must be a table"),
            DocumentError::TomlShape => String::from_str(
                "TOML input must contain an array of tables (e.g. [[items]]) or be a flat key-value table",
            ),
        }
    }
}

impl TableError {
    /// The message that reports this error.
    pub open spec fn message_spec(self) -> Seq<char> {
        match self {
            TableError::LineOutOfRange { line, n_lines } => "line "@ + decimal(line as nat)
                + " is out of range (file has "@ + decimal(n_lines as nat) + " lines)"@,
            TableError::NotATable { line } => "line "@ + decimal(line as nat) + " is not part of a table"@,
            TableError::NoDataRows => "no data rows found in table"@,
            TableError::EmptyHeader => "table header row is empty"@,
            TableError::RstTooFewSeparators { found } => "RST table requires at least 2 separator lines, found "@
                + decimal(found as nat),
            TableError::RstNoColumns => "no columns found in RST separator line"@,
            TableError::RstNoHeader => "no header row found in RST table"@,
            TableError::ColumnOutOfRange { index, n_columns } => "column index "@ + decimal(index as nat)
                + " is out of range (table has "@ + decimal(n_columns as nat) + " columns)"@,
            TableError::Csv => "failed to read CSV input"@,
            TableError::NotUtf8 => "input is not valid UTF-8"@,
            TableError::Document { kind } => kind.message_spec(),
            TableError::UnknownExtension { extension } => "cannot infer format from extension '."@ + extension@
                + "'; use --format to specify it"@,
            TableError::NoExtension => "input file has no extension; use --format to specify the format"@,
            TableError::StdinNeedsFormat => "reading from stdin requires --format or --delimiter to identify the format"@,
            TableError::DelimiterNotAscii => "--delimiter must be a single ASCII character"@,
            TableError::NoUnreleasedHeading => "'## unreleased' heading not found in CHANGELOG.md"@,
        }
    }

    /// The message that reports this error.
    pub fn message(&self) -> (s: String)
        ensures
            s@ == self.message_spec(),
    {
        match self {
            TableError::LineOutOfRange { line, n_lines } => {
                let mut s = String::from_str("line ");
                push_decimal(&mut s, *line);
                s.append(" is out of range (file has ");
                push_decimal(&mut s, *n_lines);
                s.append(" lines)");
                s
            },
            TableError::NotATable { line } => {
                let mut s = String::from_str("line ");
                push_decimal(&mut s, *line);
                s.append(" is not part of a table");
                s
            },
            TableError::NoDataRows => String::from_str("no data rows found in table"),
            TableError::EmptyHeader => String::from_str("table header row is empty"),
            TableError::RstTooFewSeparators { found } => {
                let mut s = String::from_str("RST table requires at least 2 separator lines, found ");
                push_decimal(&mut s, *found);
                s
            },
            TableError::RstNoColumns => String::from_str("no columns found in RST separator line"),
            TableError::RstNoHeader => String::from_str("no header row found in RST table"),
            TableError::ColumnOutOfRange { index, n_columns } => {
                let mut s = String::from_str("column index ");
                push_decimal(&mut s, *index);
                s.append(" is out of range (table has ");
                push_decimal(&mut s, *n_columns);
                s.append(" columns)");
                s
            },
            TableError::Csv => String::from_str("failed to read CSV input"),
            TableError::NotUtf8 => String::from_str("input is not valid UTF-8"),
            TableError::Document { kind } => kind.message(),
            TableError::UnknownExtension { extension } => {
                let mut s = String::from_str("cannot infer format from extension '.");
                s.append(extension.as_str());
                s.append("'; use --format to specify it");
                s
            },
            TableError::NoExtension => String::from_str("input file has no extension; use --format to specify the format"),
            TableError::StdinNeedsFormat => String::from_str(
                "reading from stdin requires --format or --delimiter to identify the format",
            ),
            TableError::DelimiterNotAscii => String::from_str("--delimiter must be a single ASCII character"),
            TableError::NoUnreleasedHeading => String::from_str("'## unreleased' heading not found in CHANGELOG.md"),
        }
    }
}

} // verus!
