//! Lexical analysis for a small subset of C: source text in, typed tokens out.
//!
//! [`tokenize`] scans the text once, left to right, with maximal munch, and
//! returns every token or the first lexical error. Its result is proved equal to
//! [`grammar::scan`], the grammar stated as spec functions.
pub mod config;
pub mod grammar;
pub mod lexer;
pub mod render;
pub mod token;

pub use config::{Config, ConfigError};
pub use lexer::{lex, tokenize};
pub use token::{LexError, Token, Type};
