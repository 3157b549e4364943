//! Arithmetic expressions: from text to tokens, from tokens to an
//! expression tree, and from the tree back to tokens in a chosen order.
//!
//! - `token`: the symbols and their ranks.
//! - `lexer`: the tokens of a text.
//! - `tree`: expression trees, their token lists and their nodes by place.
//! - `builder`: the tree of an in-order token list.
//! - `round_trip`: what the builder makes of the lists that trees give.
//! - `walk`: that lists and trees hold the same tokens in the same order.
//! - `parens`: that an in-order list holds no parentheses to spare.
//! - `eq_props`: queries that find where an expression can be rewritten.

pub mod token;
pub mod lexer;
pub mod tree;
pub mod equality;
pub mod builder;
pub mod round_trip;
pub mod walk;
pub mod parens;
pub mod eq_props;
