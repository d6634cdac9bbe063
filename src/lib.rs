//! A reader for the brace-delimited project files of a window-builder: a
//! tokenizer that splits the text into words and braces, and a
//! recursive-descent parser that builds the project's syntax tree from them.
pub mod ast;
pub mod grammar;
pub mod laws;
pub mod lexer;
pub mod numeral;
pub mod parser;
pub mod token;
