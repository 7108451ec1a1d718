//! A lexer, parser and interpreter for a minimal eight-symbol language
//! that operates on a linear byte tape with a movable data pointer.
//!
//! The pipeline is: source text -> [`lexer::lex`] -> token sequence ->
//! [`parser::parse`] -> instruction tree -> [`interp::run`] -> tape and
//! output bytes.

pub mod lexer;
pub mod parser;
pub mod interp;
