//! A compiler for a small imperative teaching language: a scanner, a
//! recursive-descent parser and a code generator for a register machine.

pub mod ast;
pub mod code;
pub mod compiler;
pub mod environment;
pub mod lexer;
pub mod machine;
pub mod parser;
pub mod text;
pub mod token;
