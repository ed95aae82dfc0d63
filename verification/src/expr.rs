//! Arithmetic expressions over integers: tokens, syntax trees, a
//! recursive-descent parser and an evaluator.

pub mod token;
pub mod tree;
pub mod eval;
pub mod parser;
