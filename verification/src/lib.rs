//! An interpreter for a minimal eight-instruction tape language: a
//! tokenizer driven by an ordered rule list, a tree builder that matches
//! bracket-delimited loop regions, and an executor that walks the resulting
//! expression tree against a fixed-size byte tape.

pub mod ast;
pub mod machine;
pub mod cursor;
pub mod lexer;
