//! Tokens produced by the tokenizer.
use vstd::prelude::*;

verus! {

/// A JSON token.
#[derive(PartialEq, Eq, Debug, Clone)]
pub enum JSONToken {
    CurlyOpen,
    CurlyClose,
    BracketOpen,
    BracketClose,
    Colon,
    Comma,
    String(String),
    /// A bool, number or null.
    Literal(String),
}

/// A token with the line and column where it starts.
#[derive(PartialEq, Eq, Debug, Clone)]
pub struct TokenMetaData {
    pub line: i32,
    pub col: i32,
    pub token: JSONToken,
}

/// The mathematical value of a token.
pub enum SpecToken {
    CurlyOpen,
    CurlyClose,
    BracketOpen,
    BracketClose,
    Colon,
    Comma,
    Str(Seq<char>),
    Literal(Seq<char>),
}

/// The mathematical value of a token with its position.
pub struct SpecTokenData {
    pub line: int,
    pub col: int,
    pub token: SpecToken,
}

impl View for JSONToken {
    type V = SpecToken;

    open spec fn view(&self) -> SpecToken {
        match self {
            JSONToken::CurlyOpen => SpecToken::CurlyOpen,
            JSONToken::CurlyClose => SpecToken::CurlyClose,
            JSONToken::BracketOpen => SpecToken::BracketOpen,
            JSONToken::BracketClose => SpecToken::BracketClose,
            JSONToken::Colon => SpecToken::Colon,
            JSONToken::Comma => SpecToken::Comma,
            JSONToken::String(s) => SpecToken::Str(s@),
            JSONToken::Literal(s) => SpecToken::Literal(s@),
        }
    }
}

impl View for TokenMetaData {
    type V = SpecTokenData;

    open spec fn view(&self) -> SpecTokenData {
        SpecTokenData { line: self.line as int, col: self.col as int, token: self.token@ }
    }
}

/// The values of a sequence of tokens.
pub open spec fn tokens_view(ts: Seq<TokenMetaData>) -> Seq<SpecTokenData> {
    ts.map_values(|t: TokenMetaData| t@)
}

impl JSONToken {
    /// A copy of the token.
    pub fn duplicate(&self) -> (r: JSONToken)
        ensures
            r == *self,
    {
        match self {
            JSONToken::CurlyOpen => JSONToken::CurlyOpen,
            JSONToken::CurlyClose => JSONToken::CurlyClose,
            JSONToken::BracketOpen => JSONToken::BracketOpen,
            JSONToken::BracketClose => JSONToken::BracketClose,
            JSONToken::Colon => JSONToken::Colon,
            JSONToken::Comma => JSONToken::Comma,
            JSONToken::String(s) => JSONToken::String(s.clone()),
            JSONToken::Literal(s) => JSONToken::Literal(s.clone()),
        }
    }
}

impl TokenMetaData {
    /// A copy of the token and its position.
    pub fn duplicate(&self) -> (r: TokenMetaData)
        ensures
            r == *self,
    {
        TokenMetaData { line: self.line, col: self.col, token: self.token.duplicate() }
    }
}

} // verus!
