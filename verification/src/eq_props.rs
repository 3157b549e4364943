//! Queries that find places where an expression can be rewritten.

pub mod negation;
