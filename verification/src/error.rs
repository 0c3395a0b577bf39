//! The error that a rejected log line is answered with.

use vstd::prelude::*;

use crate::decimal::{decimal_chars, decimal_string};

verus! {

/// What a `ParseError` says: the 0-based byte offset in the line at which
/// the problem was found, and a description of it.
pub struct ParseErrorModel {
    pub offset: nat,
    pub message: Seq<char>,
}

/// The model of an error at `offset` with `message`.
pub open spec fn perr(offset: int, message: Seq<char>) -> ParseErrorModel {
    ParseErrorModel { offset: offset as nat, message }
}

/// A rejected log line: where in the line, and why.
#[derive(Debug, Clone, PartialEq, Eq)]
pub struct ParseError {
    offset: usize,
    message: String,
}

impl View for ParseError {
    type V = ParseErrorModel;

    closed spec fn view(&self) -> ParseErrorModel {
        ParseErrorModel { offset: self.offset as nat, message: self.message@ }
    }
}

/// The text of an error: the 1-based byte position, then the description.
pub open spec fn error_text(e: ParseErrorModel) -> Seq<char> {
    "byte "@ + decimal_chars(e.offset + 1) + ": "@ + e.message
}

impl ParseError {
    /// An error at byte `offset` of the line.
    pub fn new(offset: usize, message: String) -> (e: ParseError)
        ensures
            e@ == perr(offset as int, message@),
    {
        ParseError { offset, message }
    }

    /// The 0-based byte offset in the line at which the problem was found.
    pub fn offset(&self) -> (r: usize)
        ensures
            r as nat == self@.offset,
    {
        self.offset
    }

    /// The description of the problem, without its position.
    pub fn message(&self) -> (r: &str)
        ensures
            r@ == self@.message,
    {
        self.message.as_str()
    }

    /// The error as text: `byte {offset + 1}: {message}`.
    pub fn to_string(&self) -> (s: String)
        ensures
            s@ == error_text(self@),
    {
        let position = decimal_string(self.offset as u128 + 1);
        String::from_str("byte ").concat(position.as_str()).concat(": ").concat(
            self.message.as_str(),
        )
    }
}

} // verus!
