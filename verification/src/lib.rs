//! Arithmetic-expression engine: a tokenizer that turns text into a flat
//! sequence of tokens, and an evaluator that reduces the token sequence to a
//! single numeric value by operator precedence, resolving parenthesized
//! sub-expressions recursively.

pub mod laws;
pub mod lexer;
pub mod parser;
pub mod render;
pub mod ui;
pub mod value;
