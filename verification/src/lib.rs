//! Topaz: the lexer of a small Ruby-like language.
pub mod lexer;
pub mod text;
pub mod token;
