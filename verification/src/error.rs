//! Errors reported by the lexer and the parser, each carrying the raw-file
//! position (1-indexed line, 0-indexed column) at which it was detected.

use vstd::prelude::*;

use crate::lexer::{Token, TokenView};

verus! {

/// The ways lexing or parsing can fail.
///
/// `UnexpectedEOF` is raised when the input ends mid-string-literal,
/// mid-parameter-list or mid-nested-block. `Unexpected` is raised when a
/// token of the wrong kind is encountered; the token itself is carried.
/// `InvalidEscape` is raised for a backslash escape other than `\\` or `\n`
/// inside a quoted literal: such input is rejected loudly rather than
/// guessed at.
#[derive(Debug, PartialEq, Eq, Clone)]
pub enum ErrorType {
    UnexpectedEOF,
    Unexpected(Token),
    InvalidEscape(char),
}

/// Mathematical model of an `ErrorType`.
pub enum ErrorKindView {
    UnexpectedEOF,
    Unexpected(TokenView),
    InvalidEscape(char),
}

impl View for ErrorType {
    type V = ErrorKindView;

    open spec fn view(&self) -> ErrorKindView {
        match self {
            ErrorType::UnexpectedEOF => ErrorKindView::UnexpectedEOF,
            ErrorType::Unexpected(t) => ErrorKindView::Unexpected(t@),
            ErrorType::InvalidEscape(c) => ErrorKindView::InvalidEscape(*c),
        }
    }
}

/// A lexing or parsing failure: its kind, the position at which it was
/// detected, and an optional short human-readable hint naming what was
/// expected instead (purely diagnostic text, e.g. `"option or }"`).
#[derive(Debug, PartialEq, Eq, Clone)]
pub struct Error {
    pub line: u32,
    pub col: u16,
    pub error_type: ErrorType,
    pub expected: Option<String>,
}

/// Mathematical model of an `Error`.
pub struct ErrorView {
    pub line: u32,
    pub col: u16,
    pub kind: ErrorKindView,
    pub expected: Option<Seq<char>>,
}

impl View for Error {
    type V = ErrorView;

    open spec fn view(&self) -> ErrorView {
        ErrorView {
            line: self.line,
            col: self.col,
            kind: self.error_type@,
            expected: match &self.expected {
                Some(s) => Some(s@),
                None => None,
            },
        }
    }
}

impl Error {
    /// Builds an error at the given position.
    pub fn new(line: u32, col: u16, error_type: ErrorType, expected: Option<String>) -> (e: Error)
        ensures
            e@ == (ErrorView {
                line,
                col,
                kind: error_type@,
                expected: match expected {
                    Some(s) => Some(s@),
                    None => None::<Seq<char>>,
                },
            }),
    {
        Error { line, col, error_type, expected }
    }
}

} // verus!
