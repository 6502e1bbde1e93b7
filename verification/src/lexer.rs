//! The lexer: turns source text into tokens, recording an error for every
//! illegal token.
pub mod error;
pub mod grammar;
pub mod laws;
pub mod lexer;

pub use self::error::{LexerError, LexerErrorType};
pub use self::lexer::Lexer;
