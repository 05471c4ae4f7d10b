//! An interpreter for a small Lisp: a lexer, a parser, a value model with
//! lexical scopes, and an evaluator.

pub mod lexer;
pub mod parser;
pub mod types;
pub mod eval;
pub mod builtins;
