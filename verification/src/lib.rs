//! A small expression language: text to tokens, tokens to a tree, a tree to
//! a 32-bit integer.
//!
//! - [`tokenizer`] lexes a text into tokens.
//! - [`pratt`] parses tokens into an expression tree by binding power.
//! - [`parser`] parses the arithmetic part of the language by shifting and
//!   reducing, with the other associativity.
//! - [`resolver`] evaluates a tree.
//! - [`lex_laws`], [`parse_laws`] and [`laws`] state what holds of them.

pub mod laws;
pub mod lex_laws;
pub mod parse_laws;
pub mod parser;
pub mod pratt;
pub mod resolver;
pub mod tokenizer;
