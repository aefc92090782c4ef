//! Parsing and writing of scfg documents.
//!
//! scfg is a line-oriented configuration format: each line holds at most one
//! directive, a name followed by parameters separated by white space and
//! optionally by a child block delimited by `{` and `}`. Lines starting with
//! `#` are comments. Words follow shell quoting rules.
pub mod document;
pub mod parser;
pub mod round_trip;
pub mod text;
pub mod words;

pub use document::{Directive, Scfg};
pub use parser::{document, line_action, Error, ErrorKind, LineAction};
