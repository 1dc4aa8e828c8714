//! A front end for a small curly-brace language: a byte-level lexer built as an
//! explicit state machine, and a recursive-descent parser over its tokens.
pub mod token;
pub mod ast;
