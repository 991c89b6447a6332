//! A minimal scripting language: a scanner, a recursive-descent parser
//! and a tree-walking evaluator for arithmetic expressions, variable
//! assignment and print statements.
//!
//! Every value of the language is a 64-bit floating-point number.  The
//! library never computes with such numbers itself: it carries each one
//! as its bit pattern, a plain `u64`, and asks the caller to perform the
//! few primitive numeric operations (parsing a literal's text,
//! arithmetic, formatting) through a closure of requests and replies
//! (see `ops`).  Every contract is stated relative to a mathematical
//! meaning of those operations: whatever meaning the caller's closure
//! agrees with, the scanner, parser and evaluator provably produce the
//! results that the meaning dictates.
//!
//! - `lexer`: source text to tokens, one token per call, no rewinding.
//! - `parser`: tokens to a statement list by operator-precedence
//!   climbing; every failure is a recoverable result.
//! - `interpreter`: statements run in order against a variable
//!   environment; output is returned as data for the caller to render.
//! - `environment`: the run's mapping from variable names to values.

pub mod environment;
pub mod interpreter;
pub mod lexer;
pub mod ops;
pub mod parser;
