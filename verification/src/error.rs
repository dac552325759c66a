//! What can end a session early.

use vstd::prelude::*;
use vstd::string::*;

verus! {

/// A failure that ends the session. None is retried: each is handed up to the
/// caller as it came.
#[derive(Debug, PartialEq, Eq)]
pub enum SessionError {
    /// The sink could not be written to or flushed.
    Output(String),
    /// A line could not be read.
    Input(String),
    /// The record store could not be written.
    Store(String),
    /// The input ended where a command was awaited.
    EndOfInput,
}

/// The text that describes `error`.
pub open spec fn message_of(error: SessionError) -> Seq<char> {
    match error {
        SessionError::Output(detail) => "output failed: "@ + detail@,
        SessionError::Input(detail) => "input failed: "@ + detail@,
        SessionError::Store(detail) => "record store failed: "@ + detail@,
        SessionError::EndOfInput => "input ended before quit"@,
    }
}

impl SessionError {
    /// Describes this failure in words.
    pub fn message(&self) -> (text: String)
        ensures
            text@ == message_of(*self),
    {
        match self {
            SessionError::Output(detail) => String::from_str("output failed: ").concat(
                detail.as_str(),
            ),
            SessionError::Input(detail) => String::from_str("input failed: ").concat(
                detail.as_str(),
            ),
            SessionError::Store(detail) => String::from_str("record store failed: ").concat(
                detail.as_str(),
            ),
            SessionError::EndOfInput => String::from_str("input ended before quit"),
        }
    }
}

} // verus!
