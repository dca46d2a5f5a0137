//! The errors of the lexer and of the parser.

use vstd::prelude::*;
use vstd::string::*;

verus! {

/// The ways in which lexing or parsing an expression can fail.
#[derive(Debug)]
pub enum ParseError {
    /// A character that starts no token, or a call on a lexer that has failed before.
    Lex(String),
    /// A token that the grammar does not allow where it stands.
    Parse(String),
    /// A numeric literal that has no value as a 64-bit floating-point number.
    /// It holds the literal.
    Float(String),
}

/// A `ParseError` with its texts as sequences of characters.
pub enum ParseErrorView {
    Lex(Seq<char>),
    Parse(Seq<char>),
    Float(Seq<char>),
}

impl ParseErrorView {
    /// The text that describes the error.
    pub open spec fn message(self) -> Seq<char> {
        match self {
            ParseErrorView::Lex(m) => m,
            ParseErrorView::Parse(m) => m,
            ParseErrorView::Float(_) => "invalid float literal"@,
        }
    }
}

impl View for ParseError {
    type V = ParseErrorView;

    open spec fn view(&self) -> ParseErrorView {
        match self {
            ParseError::Lex(m) => ParseErrorView::Lex(m@),
            ParseError::Parse(m) => ParseErrorView::Parse(m@),
            ParseError::Float(lit) => ParseErrorView::Float(lit@),
        }
    }
}

impl ParseError {
    /// The text that describes the error.
    pub fn message(&self) -> (m: String)
        ensures
            m@ == self@.message(),
    {
        match self {
            ParseError::Lex(m) => m.clone(),
            ParseError::Parse(m) => m.clone(),
            ParseError::Float(_) => "invalid float literal".to_owned(),
        }
    }
}

} // verus!
