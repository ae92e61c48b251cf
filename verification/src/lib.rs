//! A small untyped lambda-calculus toolchain: a position-tracking lexer, a
//! stack-based parser, and a normal-order evaluator built on capture-avoiding
//! substitution. Each stage's behaviour is stated in contracts over a
//! mathematical model and proved.

pub mod common;
pub mod interpreter;
pub mod lexer;
pub mod parser;
pub mod text;
