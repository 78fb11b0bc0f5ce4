//! Table formatting, parsing and editing: the logic behind the `tablefmt` tool.

pub mod text;
pub mod model;
pub mod error;
pub mod cli;
pub mod table_parse;
pub mod prettify;
pub mod locate;
pub mod edit;
pub mod numeric;
pub mod output;
pub mod tabled_api;
pub mod color;
pub mod csv_api;
pub mod parse;
pub mod pipeline;
pub mod records;
pub mod documents;
pub mod changelog;
pub mod readback;
