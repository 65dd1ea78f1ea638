//! A small quiz language: a lexer that turns source text into located
//! tokens, a recursive-descent parser that builds a validated quiz
//! document, and a session runner that tallies answers against a passing
//! threshold.

pub mod ast;
pub mod run;
pub mod token;
pub mod utils;
