//! A verified lexical scanner for a small dynamically-typed scripting
//! language: source text in, an ordered sequence of tokens (or the first
//! lexical error) out.

pub mod grammar;
pub mod laws;
pub mod scanner;
pub mod text;
pub mod token;
