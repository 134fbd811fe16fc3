//! A small language of dice rolls: numbers and nested arrays, arithmetic that
//! spreads over arrays, random draws, and a little control flow.
//!
//! A program goes through three steps. The lexer (`lexer`) turns its text
//! into tokens, the parser (`parser`) turns the tokens into statements, and
//! the evaluator (`evaluator`) runs the statements and gives back what they
//! write. `program` does the three in one call.
//!
//! The values of the language are in `value`, their numbers in `number`, the
//! operators in `ops` and `chance`, the variables in `environment`. `laws`
//! holds what is proved of the language as a whole.
pub mod chance;
pub mod environment;
pub mod evaluator;
pub mod laws;
pub mod lexer;
pub mod number;
pub mod ops;
pub mod parser;
pub mod program;
pub mod value;
