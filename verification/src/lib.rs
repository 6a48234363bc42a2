//! A Brainfuck toolchain: lexing, parsing, lowering to a small IR,
//! peephole optimisation and translation of the IR into freestanding C.
pub mod bf_lexer;
pub mod codegen;
pub mod frontend;
pub mod function_spec;
pub mod ir;
