//! A small scripting language that is tokenized and executed in one pass: variable
//! declarations, print statements with positional substitution, and function
//! definitions and calls.

pub mod builtin;
pub mod dictionary;
pub mod error;
pub mod format;
pub mod grammar;
pub mod interpreter;
pub mod laws;
pub mod lexer;
pub mod pool;
pub mod semantics;
pub mod text;
pub mod token;
pub mod value;
