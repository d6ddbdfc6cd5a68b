//! Errors of the tokenizer and the parser.
use crate::json::structs::{SpecTokenData, TokenMetaData};
use vstd::prelude::*;

verus! {

/// An error of the tokenizer or the parser.
#[derive(Debug)]
pub enum JSONError {
    TokenizerError { message: String, line: i32, col: i32 },
    ParserError { message: String, token: TokenMetaData },
    UnexpectedToken { token: TokenMetaData },
    UnexpectedEOF,
}

/// The mathematical value of an error.
pub enum SpecJSONError {
    TokenizerError { message: Seq<char>, line: int, col: int },
    ParserError { message: Seq<char>, token: SpecTokenData },
    UnexpectedToken { token: SpecTokenData },
    UnexpectedEOF,
}

impl View for JSONError {
    type V = SpecJSONError;

    open spec fn view(&self) -> SpecJSONError {
        match self {
            JSONError::TokenizerError { message, line, col } => SpecJSONError::TokenizerError {
                message: message@,
                line: *line as int,
                col: *col as int,
            },
            JSONError::ParserError { message, token } => SpecJSONError::ParserError {
                message: message@,
                token: token@,
            },
            JSONError::UnexpectedToken { token } => SpecJSONError::UnexpectedToken { token: token@ },
            JSONError::UnexpectedEOF => SpecJSONError::UnexpectedEOF,
        }
    }
}

/// The text that describes an error.
pub open spec fn error_message(e: SpecJSONError) -> Seq<char> {
    match e {
        SpecJSONError::UnexpectedEOF => "Unexpected end of file"@,
        SpecJSONError::UnexpectedToken { .. } => "Unexpected token"@,
        SpecJSONError::ParserError { message, .. } => message,
        SpecJSONError::TokenizerError { message, .. } => message,
    }
}

impl JSONError {
    /// The text that describes the error.
    pub fn message(&self) -> (r: String)
        ensures
            r@ == error_message(self@),
    {
        match self {
            JSONError::UnexpectedEOF => String::from_str("Unexpected end of file"),
            JSONError::UnexpectedToken { .. } => String::from_str("Unexpected token"),
            JSONError::ParserError { message, .. } => message.clone(),
            JSONError::TokenizerError { message, .. } => message.clone(),
        }
    }
}

} // verus!
