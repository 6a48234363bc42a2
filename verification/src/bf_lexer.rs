//! A byte-level lexer for sources that hold nothing but commands.
pub mod lexer;
pub mod token;
