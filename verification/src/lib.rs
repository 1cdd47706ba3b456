//! A small arithmetic-expression engine.
//!
//! Text is split into tokens ([`tokenize`]), tokens are parsed into an
//! expression tree ([`parse`]), and the tree is evaluated against the values
//! of its variables ([`eval`]); [`render`] writes a tree back as text, and
//! [`roundtrip`] proves that this text reads back as the tree. Each stage is
//! specified by a function on mathematical values (sequences of characters
//! and of tokens, trees, maps and unbounded integers) and proved to compute
//! exactly that function, errors included.

pub mod eval;
pub mod grammar;
pub mod parse;
pub mod render;
pub mod roundtrip;
pub mod tokenize;
