//! A small JSON tokenizer and parser.
pub mod errors;
pub mod json_parser;
pub mod structs;
pub mod tokenizer;
