//! Event-based JSON parsing of an in-memory document, with path filtering.
pub mod errors;
pub mod lexer;
pub mod parser;
pub mod path;
