//! A JSON text engine: text to value tree and back, with contracts on both.
//!
//! - `value`: the value tree, numbers, tokens and errors, and their views.
//! - `lexer`: from characters to tokens, with line and column of every error.
//! - `number`: the three kinds of numeric literals, and the text of integers.
//! - `escape`: the escape syntax of strings, in both directions.
//! - `parser`: from tokens to a value tree.
//! - `serializer`: from a value tree to compact or indented text.
//! - `driver`: the two operations for callers.
//! - `float`: decisions about binary floats, taken on their bit patterns.
//! - `roundtrip`, `whitespace`: what holds of parsing and rendering together.
//! - `text`: helpers on characters and places in a text.

pub mod driver;
pub mod escape;
pub mod float;
pub mod lexer;
pub mod number;
pub mod parser;
pub mod roundtrip;
pub mod serializer;
pub mod text;
pub mod value;
pub mod whitespace;
