# tablefmt

`tablefmt` turns tabular data (CSV, TSV, PSV, JSON, YAML, TOML) into a table in
one of many text styles, and re-aligns or edits tables found inside files.

The library under `src/` is written in Verus: every function carries a
contract over a mathematical model of its input and output, and Verus proves
the code against it.

- `text`, `model`, `error`, `cli`: characters and lines, the table value, the
  errors, and the command-line options as plain values.
- `parse`, `csv_api`, `documents`, `records`: reading delimited text and JSON,
  YAML and TOML documents into a table (the `csv`, `serde_json`, `saphyr` and
  `toml` readers are called through small trusted wrappers).
- `numeric`: which columns are numeric and their decimal places.
- `output`, `tabled_api`, `color`: rendering in every style, the `tabled`
  presets through trusted wrappers, the others by the library's own renderers.
- `table_parse`, `prettify`, `locate`, `edit`, `pipeline`: reading a table back
  from its text, stripping and restoring indentation and comment prefixes,
  finding a table around a line, column edits, and the steps of the `format`
  and `edit` commands.
- `readback`: the proofs that tables in the styles the library draws itself
  parse back into their cells; that the orgtbl, Jira, AsciiDoc and heavy
  outline styles are detected again (RST grid is detected as ASCII, whose
  borders it shares); that prettified text reads back whole; and the number
  and width of the lines of box tables. Nothing is proved of the text of the
  eight `tabled` presets, which is named, not stated.
- `changelog`: regenerating the `## unreleased` section of a changelog.

`app/` holds the command-line program: argument parsing with `clap`, file and
terminal I/O, shell completions, the JSON payload of `edit`, and rounding to a
number of decimals (floating point, which the library does not take).
