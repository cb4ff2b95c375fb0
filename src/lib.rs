//! A scanner for a small imperative toy language: it turns source text into
//! classified tokens, tracks where each one starts, and reports lexical errors
//! through a latched status.

pub mod token;
pub mod keywords;
pub mod model;
pub mod lexer;

pub use token::{Token, TokenType, TokenView, LexerError, LexerStatus};
pub use lexer::Lexer;
pub use model::LexerView;
