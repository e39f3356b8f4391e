//! Front end for a small s-expression language: a lexer, an arena-based
//! parse tree and a streaming parser, with machine-checked contracts.

pub mod compiler;
