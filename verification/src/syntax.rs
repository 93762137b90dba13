//! Turning COSY text into a value: the lexer and the parser.
pub mod lexer;
pub mod parser;
