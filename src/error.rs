//! What can go wrong while reading source text.
use vstd::prelude::*;
use vstd::utf8::encode_utf8;

use crate::lexer::{Location, TokenKind};

verus! {

/// A failure to read source text, with the place in the source it points at.
#[derive(Debug, Clone, PartialEq, Eq)]
pub enum ParseError {
    UnexpectedToken { expected: String, found: TokenKind, location: Location },
    UnexpectedEof { expected: String, location: Location },
    InvalidNumber { text: String, location: Location },
    UnterminatedString { location: Location },
    UnmatchedParen { location: Location },
    InvalidToken { location: Location },
}

/// A `ParseError` with its texts as sequences: `expected` as characters, the
/// text of a number as its bytes.
pub enum ErrorView {
    UnexpectedToken { expected: Seq<char>, found: TokenKind, location: Location },
    UnexpectedEof { expected: Seq<char>, location: Location },
    InvalidNumber { text: Seq<u8>, location: Location },
    UnterminatedString { location: Location },
    UnmatchedParen { location: Location },
    InvalidToken { location: Location },
}

impl View for ParseError {
    type V = ErrorView;

    open spec fn view(&self) -> ErrorView {
        match self {
            ParseError::UnexpectedToken { expected, found, location } => ErrorView::UnexpectedToken {
                expected: expected@,
                found: *found,
                location: *location,
            },
            ParseError::UnexpectedEof { expected, location } => ErrorView::UnexpectedEof {
                expected: expected@,
                location: *location,
            },
            ParseError::InvalidNumber { text, location } => ErrorView::InvalidNumber {
                text: encode_utf8(text@),
                location: *location,
            },
            ParseError::UnterminatedString { location } => ErrorView::UnterminatedString {
                location: *location,
            },
            ParseError::UnmatchedParen { location } => ErrorView::UnmatchedParen {
                location: *location,
            },
            ParseError::InvalidToken { location } => ErrorView::InvalidToken { location: *location },
        }
    }
}

impl ParseError {
    /// Where in the source the error points.
    pub fn location(&self) -> (r: Location)
        ensures
            r == error_location(self@),
    {
        match self {
            ParseError::UnexpectedToken { location, .. } => *location,
            ParseError::UnexpectedEof { location, .. } => *location,
            ParseError::InvalidNumber { location, .. } => *location,
            ParseError::UnterminatedString { location } => *location,
            ParseError::UnmatchedParen { location } => *location,
            ParseError::InvalidToken { location } => *location,
        }
    }
}

pub open spec fn error_location(e: ErrorView) -> Location {
    match e {
        ErrorView::UnexpectedToken { location, .. } => location,
        ErrorView::UnexpectedEof { location, .. } => location,
        ErrorView::InvalidNumber { location, .. } => location,
        ErrorView::UnterminatedString { location } => location,
        ErrorView::UnmatchedParen { location } => location,
        ErrorView::InvalidToken { location } => location,
    }
}

} // verus!
