//! An interpreter for a small imperative language: constants, variables,
//! nested procedures, assignment, `IF` and `WHILE`, integer arithmetic, and
//! reading and writing numbers.
//!
//! `lexer` splits a program text into tokens, `parser` reads the tokens as a
//! tree, and `interpreter` runs the tree one step at a time. `scope` holds
//! the call stack and `eval` the values of expressions.

pub mod ast;
pub mod error;
pub mod eval;
pub mod interpreter;
pub mod lexer;
pub mod number;
pub mod parser;
pub mod scope;
pub mod text;
pub mod token;
