//! A small lexical analyser: turns source text into a sequence of classified
//! tokens that ends with a single end-of-input marker.
pub mod grammar;
pub mod laws;
pub mod lexer;
pub mod token;

pub use token::{LexError, TokenType, TokenView};
pub use lexer::tokenize;
