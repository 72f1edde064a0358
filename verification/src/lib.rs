//! A small homoiconic expression language: a parser that turns parenthesized
//! s-expressions into a tagged term tree, and an evaluator that reduces that
//! tree with built-in operators, special forms, and a one-pass fact-matching
//! query engine.

pub mod arith;
pub mod engine;
pub mod error;
pub mod evaluator;
pub mod laws;
pub mod parser;
pub mod printer;
pub mod strutil;
pub mod token;

pub use token::Token;
