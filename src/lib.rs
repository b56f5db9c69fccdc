//! A parser for a relaxed dialect of JSON: comments, optional commas, `=` in
//! place of `:`, brace-less top-level objects and deep merging of repeated keys.
//!
//! - `value`: the parsed tree, its mathematical model and the merge of objects.
//! - `lexer`: whitespace, separators and scalar literals.
//! - `grammar`: the grammar as functions on bytes and positions.
//! - `parser`: the executable parser, proved to compute the grammar.
//! - `laws`, `context`: properties of the grammar and of merging.
pub mod context;
pub mod grammar;
pub mod laws;
pub mod lexer;
pub mod parser;
pub mod value;

pub use parser::{json_value, json_value_root, parse, ParseError, Parsed};
pub use value::JsonValue;
