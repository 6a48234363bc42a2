//! Source text to abstract syntax tree.
pub mod ast;
pub mod lexer;
pub mod parse_laws;
pub mod parser;
