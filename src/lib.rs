//! A stack-based parser from pattern text to a regular-expression syntax tree.
//!
//! [`parse`] scans a pattern once, left to right, keeping finished operands
//! and two kinds of sentinel on a stack. Literal characters, concatenation,
//! alternation with `|`, numbered groups with `(` and `)`, and the repetition
//! operators `*`, `+` and `?` are understood; every other character is a
//! literal.

pub mod ast;
pub mod parser;
pub mod laws;

pub use ast::{Error, Regexp};
pub use parser::parse;
