//! Routing of newline-delimited JSON records into per-category delimited text.
//!
//! A run takes lines of text, each the text of one JSON object, and writes one
//! delimited text file per category of object:
//!
//! - [`flatten_json`] turns a line into a [`Record`], or says why the line is dropped.
//!   A record maps each top-level field of the object to the text of its value, and
//!   prints itself as a header line and a data line, the fields in the order of their
//!   names.
//! - A [`CategoryWriter`] routes records by their category field. It makes the sink of
//!   a category when the category is first seen, and appends to it the header line of
//!   that first record and then the data line of every record of the category.
//! - The router holds text in memory. [`CategoryWriter::flush`] hands out what is
//!   pending, sink by sink, for the caller to write to the files.
//!
//! The contracts of these functions are proved, down to two calls whose contracts are
//! taken on trust: the JSON parser and the lowering of case, both in [`utils`]. What the
//! sinks hold after any sequence of records is stated in [`dispatch_laws`].

pub mod category_writer;
pub mod cli;
pub mod data_type;
pub mod dispatch_laws;
pub mod error;
pub mod pipeline;
pub mod text;
pub mod utils;

pub use category_writer::{CategoryWriter, OutputTarget, SinkOutput};
pub use cli::{ParsedArguments, Source};
pub use data_type::Record;
pub use error::{CleanResult, ParseError};
pub use pipeline::{
    entry_action, keep_records, write_out_buffered_lines, Entry, EntryAction, LineBatch,
};
pub use utils::flatten_json;
