//! A verified parser for a small line-oriented markup language.
//!
//! Raw text is scanned line by line and word by word by the lexer, which
//! reports what it finds as a stream of primitive events to a collector.
//! The production collector is a finite state machine that validates the
//! event order and drives an incremental document builder; the result is a
//! tree of lines and nested inline tokens.

pub mod ast;
pub mod collector;
pub mod text;
pub mod lexer;
pub mod builder;
pub mod parser;
pub mod laws;
pub mod inline_parser;

pub use ast::Document;
pub use ast::HeaderLevel;
pub use ast::Line;
pub use ast::Token;
pub use builder::Builder;
pub use collector::TokenCollector;
pub use lexer::Lexer;
pub use parser::Parser;
