//! A recursive-descent parser for a JSON-like grammar.
//!
//! A document is parsed into a [`value::JsonValue`] tree: `null`, booleans,
//! numbers (integer or decimal), quoted strings without escape processing,
//! arrays, and objects with at least one key/value pair. Two routes produce
//! the same trees: the cursor-based parser in [`parser`], and the converter in
//! [`tree`] that walks an already-recognized concrete parse tree.

pub mod grammar;
pub mod laws;
pub mod parser;
pub mod tree;
pub mod value;
