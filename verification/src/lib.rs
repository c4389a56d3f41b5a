//! A verified parser for unified-diff text.
//!
//! `parse` turns a raw diff into an ordered sequence of render-ready records:
//! one header per recognized file boundary and one row per content line, each
//! row classified as context, addition or removal and carrying the running
//! old/new line numbers.  The parse is total: malformed lines are dropped or
//! classified best-effort, never an error.  Its behaviour is pinned, line by
//! line, to the ghost model in `model`, and the counter and marker laws are
//! proved in `laws`.

pub mod laws;
pub mod model;
pub mod parser;
pub mod records;
pub mod split;

pub use parser::{parse, parse_index_line};
pub use records::{Change, DiffEntry, DiffLine, FileHeaderRecord, LineClass, ParsedDiff};
