//! Pris: the lexer and evaluation core of a small language for designing
//! slides.

pub mod ast;
pub mod builtins;
pub mod elements;
pub mod error;
pub mod lexer;
pub mod runtime;
pub mod types;
