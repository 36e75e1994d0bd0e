//! Lexical and syntactic front end of a small imperative scripting language.
//!
//! Source text is turned into tokens by [`lexer::Lexer`], and tokens into an
//! ordered sequence of top-level declarations by [`parser::Parser`]. Both stages
//! either succeed completely or report every diagnostic they found.

pub mod ast;
pub mod grammar;
pub mod laws;
pub mod lexer;
pub mod number;
pub mod parser;
pub mod program;
pub mod rules;
pub mod text;
pub mod util;
