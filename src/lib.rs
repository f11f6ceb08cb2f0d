//! A small front end for a SELECT-only query language: a lexer that turns
//! query text into positioned tokens, and a recursive-descent parser that turns
//! tokens into a syntax tree.

pub mod ast;
pub mod parser;
pub mod tokenizer;
pub mod laws;
