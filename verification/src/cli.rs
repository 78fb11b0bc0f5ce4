//! The options the command line hands the library.

use vstd::prelude::*;
use vstd::string::*;
use crate::text;
use crate::numeric;
use crate::error::TableError;

verus! {

/// Input formats.
#[derive(Clone, Copy, Debug, PartialEq, Eq, Structural)]
pub enum SourceFormat {
    Csv,
    Tsv,
    Psv,
    Json,
    Yaml,
    Toml,
}

/// Output table styles.
#[derive(Clone, Copy, Debug, PartialEq, Eq, Structural)]
pub enum OutputFormat {
    Github,
    Psql,
    Asciidoc,
    Jira,
    Rst,
    RstGrid,
    Orgtbl,
    Dots,
    Ascii,
    Modern,
    Sharp,
    Extended,
    HeavyOutline,
}

/// Terminal colouring of columns or rows.
#[derive(Clone, Copy, Debug, PartialEq, Eq, Structural)]
pub enum ColorMode {
    Columns,
    Rows,
    /// No colouring (`none` on the command line).
    Off,
}

/// How many data rows to keep.
#[derive(Clone, Copy, Debug, PartialEq, Eq, Structural)]
pub enum MaxRows {
    All,
    Limit(usize),
}

/// The name a style goes by on the command line.
pub open spec fn style_name(f: OutputFormat) -> Seq<char> {
    match f {
        OutputFormat::Github => "github"@,
        OutputFormat::Psql => "psql"@,
        OutputFormat::Asciidoc => "asciidoc"@,
        OutputFormat::Jira => "jira"@,
        OutputFormat::Rst => "rst"@,
        OutputFormat::RstGrid => "rst-grid"@,
        OutputFormat::Orgtbl => "orgtbl"@,
        OutputFormat::Dots => "dots"@,
        OutputFormat::Ascii => "ascii"@,
        OutputFormat::Modern => "modern"@,
        OutputFormat::Sharp => "sharp"@,
        OutputFormat::Extended => "extended"@,
        OutputFormat::HeavyOutline => "heavy-outline"@,
    }
}

impl OutputFormat {
    /// The style's command-line name, such as `github` or `rst-grid`.
    pub fn to_string(&self) -> (r: String)
        ensures
            r@ == style_name(*self),
    {
        let s = match self {
            OutputFormat::Github => "github",
            OutputFormat::Psql => "psql",
            OutputFormat::Asciidoc => "asciidoc",
            OutputFormat::Jira => "jira",
            OutputFormat::Rst => "rst",
            OutputFormat::RstGrid => "rst-grid",
            OutputFormat::Orgtbl => "orgtbl",
            OutputFormat::Dots => "dots",
            OutputFormat::Ascii => "ascii",
            OutputFormat::Modern => "modern",
            OutputFormat::Sharp => "sharp",
            OutputFormat::Extended => "extended",
            OutputFormat::HeavyOutline => "heavy-outline",
        };
        String::from_str(s)
    }
}


/// Options of the `format` command.
#[derive(Debug)]
pub struct FormatArgs {
    /// Input file (default: stdin).
    pub input: Option<String>,
    /// Output file (default: stdout).
    pub output: Option<String>,
    /// Input format.
    pub format: Option<SourceFormat>,
    /// Delimiter override for CSV/TSV/PSV (must be ASCII).
    pub delimiter: Option<char>,
    /// Output table style.
    pub style: OutputFormat,
    /// Column or row colouring.
    pub color: ColorMode,
    /// Most data rows to output.
    pub max_rows: MaxRows,
    /// Normalize numeric columns to this many decimal places.
    pub decimal_places: Option<usize>,
}

/// Options of the `edit` command.
#[derive(Debug)]
pub struct EditArgs {
    pub operation: EditOperation,
}

/// The edit operations.
#[derive(Debug)]
pub enum EditOperation {
    /// Re-format the table at the given line (style detected).
    Prettify(EditPrettifyArgs),
    /// Insert an empty column before the column under the cursor.
    AddColumnBefore(EditColumnArgs),
    /// Insert an empty column after the column under the cursor.
    AddColumnAfter(EditColumnArgs),
    /// Remove the column under the cursor.
    RemoveColumn(EditColumnArgs),
}

/// Options of `edit prettify`.
#[derive(Debug)]
pub struct EditPrettifyArgs {
    /// File to edit.
    pub file: String,
    /// 0-based number of any line inside the table.
    pub line: usize,
    /// Normalize numeric columns to this many decimal places.
    pub decimal_places: Option<usize>,
}

/// Options of the column edits.
#[derive(Debug)]
pub struct EditColumnArgs {
    /// File to edit.
    pub file: String,
    /// 0-based number of any line inside the table.
    pub line: usize,
    /// 0-based character offset of the cursor within that line.
    pub col: usize,
}

/// The value of a non-empty string of decimal digits.
pub open spec fn digits_value(s: Seq<char>) -> nat
    decreases s.len(),
{
    if s.len() == 0 {
        0
    } else {
        digits_value(s.drop_last()) * 10 + ((s.last() as u32) - ('0' as u32)) as nat
    }
}

/// What `str::parse::<usize>` gives: an optional `+`, then at least one
/// digit, the value fitting in `usize`.
pub open spec fn parse_usize(s: Seq<char>) -> Option<usize> {
    let d = if s.len() > 0 && s[0] == '+' {
        s.drop_first()
    } else {
        s
    };
    if numeric::digits(d) && digits_value(d) <= usize::MAX {
        Some(digits_value(d) as usize)
    } else {
        None
    }
}

proof fn lemma_digits_value_grows(s: Seq<char>, i: int)
    requires
        0 <= i <= s.len(),
        numeric::digits(s),
    ensures
        digits_value(s.take(i)) <= digits_value(s),
    decreases s.len() - i,
{
    if i < s.len() {
        assert(s.take(i + 1).drop_last() =~= s.take(i));
        lemma_digits_value_grows(s, i + 1);
    } else {
        assert(s.take(i) =~= s);
    }
}

/// Parses a decimal `usize` as `str::parse` does.
pub fn parse_usize_exec(s: &[char]) -> (r: Option<usize>)
    ensures
        r == parse_usize(s@),
{
    let d: &[char] = if s.len() > 0 && s[0] == '+' {
        &s[1..s.len()]
    } else {
        s
    };
    let ghost dv = if s@.len() > 0 && s@[0] == '+' {
        s@.drop_first()
    } else {
        s@
    };
    assert(d@ == dv);
    if d.len() == 0 {
        return None;
    }
    let mut v: usize = 0;
    let mut i: usize = 0;
    while i < d.len()
        invariant
            i <= d@.len(),
            d@ == dv,
            dv == (if s@.len() > 0 && s@[0] == '+' {
                s@.drop_first()
            } else {
                s@
            }),
            forall|j: int| 0 <= j < i ==> numeric::is_digit(#[trigger] d@[j]),
            v == digits_value(d@.take(i as int)),
        decreases d.len() - i,
    {
        let c = d[i];
        assert(d@.take(i + 1).drop_last() =~= d@.take(i as int));
        assert(d@.take(i + 1).last() == c);
        if !('0' <= c && c <= '9') {
            assert(!numeric::is_digit(d@[i as int]));
            return None;
        }
        let digit = (c as u32 - '0' as u32) as usize;
        let next = match v.checked_mul(10) {
            Some(m) => m.checked_add(digit),
            None => None,
        };
        match next {
            Some(n) => {
                v = n;
            },
            None => {
                proof {
                    assert forall|j: int| 0 <= j < d@.len() implies numeric::is_digit(
                        #[trigger] d@[j],
                    ) || !numeric::digits(d@) by {}
                    if numeric::digits(d@) {
                        lemma_digits_value_grows(d@, i + 1);
                    }
                }
                return None;
            },
        }
        i = i + 1;
    }
    assert(d@.take(d.len() as int) =~= d@);
    Some(v)
}

/// The message for a `--max-rows` value that is not a count.
pub open spec fn max_rows_error(s: Seq<char>) -> Seq<char> {
    "invalid value '"@ + s + "': expected a positive integer, 0, or null"@
}

/// What a `--max-rows` value means: `null` and any count of 0 (`0`, `00`,
/// `+0`) mean all rows, another count limits the rows, anything else is
/// refused with a message.
pub open spec fn max_rows_of(s: Seq<char>) -> Result<MaxRows, Seq<char>> {
    if s == seq!['n', 'u', 'l', 'l'] {
        Ok(MaxRows::All)
    } else {
        match parse_usize(s) {
            Some(n) => if n == 0 {
                Ok(MaxRows::All)
            } else {
                Ok(MaxRows::Limit(n))
            },
            None => Err(max_rows_error(s)),
        }
    }
}

/// Parses a `--max-rows` value.
pub fn parse_max_rows(s: &str) -> (r: Result<MaxRows, String>)
    ensures
        match max_rows_of(s@) {
            Ok(m) => r == Ok::<MaxRows, String>(m),
            Err(e) => r matches Err(msg) && msg@ == e,
        },
{
    let v = text::chars_of(s);
    let null: [char; 4] = ['n', 'u', 'l', 'l'];
    assert(null@ == seq!['n', 'u', 'l', 'l']);
    let is_null = v.len() == 4 && text::has_prefix(v.as_slice(), &null);
    assert(is_null == (v@ == seq!['n', 'u', 'l', 'l'])) by {
        if is_null {
            assert(v@ =~= v@.take(4));
        }
        if v@ == seq!['n', 'u', 'l', 'l'] {
            assert(v@.take(4) =~= v@);
        }
    }
    if is_null {
        return Ok(MaxRows::All);
    }
    match parse_usize_exec(v.as_slice()) {
        Some(0) => Ok(MaxRows::All),
        Some(n) => Ok(MaxRows::Limit(n)),
        None => {
            let mut msg = String::from_str("invalid value '");
            msg.append(s);
            msg.append("': expected a positive integer, 0, or null");
            Err(msg)
        },
    }
}


/// The input format a file extension names, ignoring ASCII case.
pub open spec fn format_of_extension(e: Seq<char>) -> Option<SourceFormat> {
    if numeric::ci_word(e, seq!['c', 's', 'v']) {
        Some(SourceFormat::Csv)
    } else if numeric::ci_word(e, seq!['t', 's', 'v']) {
        Some(SourceFormat::Tsv)
    } else if numeric::ci_word(e, seq!['p', 's', 'v']) {
        Some(SourceFormat::Psv)
    } else if numeric::ci_word(e, seq!['j', 's', 'o', 'n']) {
        Some(SourceFormat::Json)
    } else if numeric::ci_word(e, seq!['y', 'a', 'm', 'l']) || numeric::ci_word(
        e,
        seq!['y', 'm', 'l'],
    ) {
        Some(SourceFormat::Yaml)
    } else if numeric::ci_word(e, seq!['t', 'o', 'm', 'l']) {
        Some(SourceFormat::Toml)
    } else {
        None
    }
}

/// `c` is the lower-case ASCII letter `l` in either case.
pub open spec fn either_case(c: char, l: char) -> bool {
    c == l || ('a' <= l && l <= 'z' && (c as u32) + 32 == (l as u32))
}

/// `e` spells the lower-case word `w`, each letter in either case.
pub open spec fn spells(e: Seq<char>, w: Seq<char>) -> bool {
    e.len() == w.len() && forall|i: int| 0 <= i < e.len() ==> either_case(#[trigger] e[i], w[i])
}

/// Every input format is chosen by its extension, in any ASCII case: `csv`,
/// `tsv`, `psv`, `json`, `yaml` or `yml`, and `toml`; and choosing by such an
/// extension succeeds with that format.
pub proof fn law_extensions_choose_formats(e: Seq<char>)
    ensures
        spells(e, seq!['c', 's', 'v']) ==> format_of_extension(e) == Some(SourceFormat::Csv),
        spells(e, seq!['t', 's', 'v']) ==> format_of_extension(e) == Some(SourceFormat::Tsv),
        spells(e, seq!['p', 's', 'v']) ==> format_of_extension(e) == Some(SourceFormat::Psv),
        spells(e, seq!['j', 's', 'o', 'n']) ==> format_of_extension(e) == Some(SourceFormat::Json),
        spells(e, seq!['y', 'a', 'm', 'l']) ==> format_of_extension(e) == Some(SourceFormat::Yaml),
        spells(e, seq!['y', 'm', 'l']) ==> format_of_extension(e) == Some(SourceFormat::Yaml),
        spells(e, seq!['t', 'o', 'm', 'l']) ==> format_of_extension(e) == Some(SourceFormat::Toml),
        forall|res: Result<SourceFormat, TableError>|
            format_of_extension(e) is Some && #[trigger] extension_outcome(res, Some(e)) ==> res
                == Ok::<SourceFormat, TableError>(format_of_extension(e)->0),
{
    let words: Seq<Seq<char>> = seq![
        seq!['c', 's', 'v'],
        seq!['t', 's', 'v'],
        seq!['p', 's', 'v'],
        seq!['j', 's', 'o', 'n'],
        seq!['y', 'a', 'm', 'l'],
        seq!['y', 'm', 'l'],
        seq!['t', 'o', 'm', 'l'],
    ];
    assert forall|k: int| 0 <= k < 7 && spells(e, #[trigger] words[k]) implies numeric::ci_word(e, words[k]) by {
        assert forall|i: int| 0 <= i < e.len() implies numeric::ci(#[trigger] e[i], words[k][i]) by {
            assert(either_case(e[i], words[k][i]));
        }
    }
    assert forall|k: int, j: int|
        0 <= k < 7 && 0 <= j < 7 && k != j && spells(e, #[trigger] words[k]) implies !numeric::ci_word(
        e,
        #[trigger] words[j],
    ) by {
        if numeric::ci_word(e, words[j]) {
            assert(either_case(e[0], words[k][0]));
            assert(numeric::ci(e[0], words[j][0]));
            if e.len() >= 2 {
                assert(either_case(e[1], words[k][1]));
                assert(numeric::ci(e[1], words[j][1]));
            }
        }
    }
    assert(words[0] == seq!['c', 's', 'v']);
    assert(words[1] == seq!['t', 's', 'v']);
    assert(words[2] == seq!['p', 's', 'v']);
    assert(words[3] == seq!['j', 's', 'o', 'n']);
    assert(words[4] == seq!['y', 'a', 'm', 'l']);
    assert(words[5] == seq!['y', 'm', 'l']);
    assert(words[6] == seq!['t', 'o', 'm', 'l']);
}

/// The outcome of choosing the input format by an extension (`None`: the
/// path has none).
pub open spec fn extension_outcome(res: Result<SourceFormat, TableError>, ext: Option<Seq<char>>) -> bool {
    match ext {
        None => res == Err::<SourceFormat, TableError>(TableError::NoExtension),
        Some(e) => match format_of_extension(e) {
            Some(f) => res == Ok::<SourceFormat, TableError>(f),
            None => res matches Err(TableError::UnknownExtension { extension }) && extension@ == e,
        },
    }
}

/// The input format named by a file extension.
pub fn source_from_extension(ext: Option<&str>) -> (res: Result<SourceFormat, TableError>)
    ensures
        extension_outcome(
            res,
            match ext {
                Some(e) => Some(e@),
                None => None,
            },
        ),
{
    match ext {
        None => Err(TableError::NoExtension),
        Some(e) => {
            let v = text::chars_of(e);
            let csv: [char; 3] = ['c', 's', 'v'];
            let tsv: [char; 3] = ['t', 's', 'v'];
            let psv: [char; 3] = ['p', 's', 'v'];
            let json: [char; 4] = ['j', 's', 'o', 'n'];
            let yaml: [char; 4] = ['y', 'a', 'm', 'l'];
            let yml: [char; 3] = ['y', 'm', 'l'];
            let toml: [char; 4] = ['t', 'o', 'm', 'l'];
            assert(csv@ == seq!['c', 's', 'v']);
            assert(tsv@ == seq!['t', 's', 'v']);
            assert(psv@ == seq!['p', 's', 'v']);
            assert(json@ == seq!['j', 's', 'o', 'n']);
            assert(yaml@ == seq!['y', 'a', 'm', 'l']);
            assert(yml@ == seq!['y', 'm', 'l']);
            assert(toml@ == seq!['t', 'o', 'm', 'l']);
            let w = v.as_slice();
            if numeric::ci_word_exec(w, &csv) {
                Ok(SourceFormat::Csv)
            } else if numeric::ci_word_exec(w, &tsv) {
                Ok(SourceFormat::Tsv)
            } else if numeric::ci_word_exec(w, &psv) {
                Ok(SourceFormat::Psv)
            } else if numeric::ci_word_exec(w, &json) {
                Ok(SourceFormat::Json)
            } else if numeric::ci_word_exec(w, &yaml) || numeric::ci_word_exec(w, &yml) {
                Ok(SourceFormat::Yaml)
            } else if numeric::ci_word_exec(w, &toml) {
                Ok(SourceFormat::Toml)
            } else {
                Err(TableError::UnknownExtension { extension: String::from_str(e) })
            }
        },
    }
}

/// The index of the last `.` of `p`, or -1 when it has none.
pub open spec fn last_dot(p: Seq<char>) -> int
    decreases p.len(),
{
    if p.len() == 0 {
        -1
    } else if p.last() == '.' {
        p.len() - 1
    } else {
        last_dot(p.drop_last())
    }
}

/// The index of the last `/` of `p`, or -1 when it has none.
pub open spec fn last_slash(p: Seq<char>) -> int
    decreases p.len(),
{
    if p.len() == 0 {
        -1
    } else if p.last() == '/' {
        p.len() - 1
    } else {
        last_slash(p.drop_last())
    }
}

/// The text after the last `/` of `p` (all of `p` when it has none).
pub open spec fn last_part(p: Seq<char>) -> Seq<char> {
    p.skip(last_slash(p) + 1)
}

/// The extension of a path whose form reads the same on every platform: no
/// `\` or `:`, not beginning with `//`, and ending in a file name (the text
/// after its last `/`) that is not `..` and has a `.` after its first
/// character. The extension is the text after the file name's last `.`;
/// `None` for any other path.
pub open spec fn plain_file_ext(p: Seq<char>) -> Option<Seq<char>> {
    let name = last_part(p);
    if !p.contains('\\') && !p.contains(':') && !text::starts_with(p, seq!['/', '/']) && name != seq![
        '.',
        '.',
    ] && last_dot(name) >= 1 {
        Some(name.skip(last_dot(name) + 1))
    } else {
        None
    }
}

/// An optional string as optional text.
pub open spec fn opt_text(r: Option<String>) -> Option<Seq<char>> {
    match r {
        Some(e) => Some(e@),
        None => None,
    }
}

/// `Path::extension` of `path`, as text: the part of the file name after its
/// last `.`, if the file name has a `.` that does not begin it. What the file
/// name of a path is (its separators, a drive prefix) depends on the
/// platform; stated here is what holds on every platform: the extension holds
/// no `.`, a path without any `.` has none, and a path of the form that
/// `plain_file_ext` describes has the text after the last `.` of its file
/// name.
#[verifier::external_body]
fn path_extension(path: &str) -> (r: Option<String>)
    ensures
        r matches Some(e) ==> !e@.contains('.'),
        !path@.contains('.') ==> r is None,
        plain_file_ext(path@) is Some ==> opt_text(r) == plain_file_ext(path@),
{
    std::path::Path::new(path).extension().and_then(|e| e.to_str()).map(|e| e.to_string())
}

/// Chooses the input format: `--format` if given; else by the input file's
/// extension; else (standard input) CSV when a delimiter was given.
pub fn resolve_source(args: &FormatArgs) -> (res: Result<SourceFormat, TableError>)
    ensures
        args.format matches Some(f) ==> res == Ok::<SourceFormat, TableError>(f),
        args.format is None && args.input is None ==> res == if args.delimiter is None {
            Err::<SourceFormat, TableError>(TableError::StdinNeedsFormat)
        } else {
            Ok(SourceFormat::Csv)
        },
        args.format is None && args.input is Some ==> exists|e: Option<Seq<char>>|
            (e matches Some(x) ==> !x.contains('.')) && #[trigger] extension_outcome(res, e),
        args.format is None ==> (args.input matches Some(p) && !p@.contains('.') ==> res
            == Err::<SourceFormat, TableError>(TableError::NoExtension)),
        args.format is None && args.input is Some && plain_file_ext(args.input->0@) is Some
            ==> extension_outcome(res, plain_file_ext(args.input->0@)),
{
    if let Some(f) = &args.format {
        return Ok(*f);
    }
    if let Some(path) = &args.input {
        let ext = path_extension(path.as_str());
        let res = match &ext {
            Some(e) => source_from_extension(Some(e.as_str())),
            None => source_from_extension(None),
        };
        let ghost ge = opt_text(ext);
        assert(extension_outcome(res, ge));
        return res;
    }
    if args.delimiter.is_none() {
        return Err(TableError::StdinNeedsFormat);
    }
    Ok(SourceFormat::Csv)
}

/// The `--delimiter` as a byte: refused unless ASCII.
pub fn check_delimiter(d: Option<char>) -> (r: Result<Option<u8>, TableError>)
    ensures
        match d {
            None => r == Ok::<Option<u8>, TableError>(None),
            Some(c) => if (c as u32) < 128 {
                r == Ok::<Option<u8>, TableError>(Some((c as u32) as u8))
            } else {
                r == Err::<Option<u8>, TableError>(TableError::DelimiterNotAscii)
            },
        },
{
    match d {
        None => Ok(None),
        Some(c) => {
            let n = c as u32;
            if n < 128 {
                Ok(Some(n as u8))
            } else {
                Err(TableError::DelimiterNotAscii)
            }
        },
    }
}

} // verus!
