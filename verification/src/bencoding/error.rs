//! The one error of the codec: a message that says what went wrong.

use crate::bencoding::decimal::{fault_text, NumberFault};
use vstd::prelude::*;

verus! {

/// A failure of a decoder or of an accessor, described by its message.
#[derive(PartialEq, Debug)]
pub struct Error {
    details: String,
}

impl View for Error {
    type V = Seq<char>;

    closed spec fn view(&self) -> Seq<char> {
        self.details@
    }
}

/// A stream that ended inside a value.
pub open spec fn end_of_stream_text() -> Seq<char> {
    "Unexpected end of stream."@
}

/// A complaint about the entry under `key`: the key in double quotes, then
/// `complaint`.
pub open spec fn key_text(key: Seq<char>, complaint: Seq<char>) -> Seq<char> {
    "\""@ + key + complaint
}

impl Error {
    /// An error with the message `msg`.
    pub fn new(msg: String) -> (e: Error)
        ensures
            e@ == msg@,
    {
        Self { details: msg }
    }

    /// An error with the message `msg`.
    pub fn from_text(msg: &str) -> (e: Error)
        ensures
            e@ == msg@,
    {
        Self { details: String::from_str(msg) }
    }

    /// The error about the entry under `key`.
    pub fn about_key(key: &str, complaint: &str) -> (e: Error)
        ensures
            e@ == key_text(key@, complaint@),
    {
        let mut details = String::from_str("\"");
        details.append(key);
        details.append(complaint);
        Self { details }
    }

    /// The error for a stream that ended inside a value.
    pub fn end_of_stream() -> (e: Error)
        ensures
            e@ == end_of_stream_text(),
    {
        Error::from_text("Unexpected end of stream.")
    }

    /// The error for a numeral that could not be read.
    pub fn from_fault(fault: NumberFault) -> (e: Error)
        ensures
            e@ == fault_text(fault),
    {
        match fault {
            NumberFault::Empty => Error::from_text("cannot parse integer from empty string"),
            NumberFault::InvalidDigit => Error::from_text("invalid digit found in string"),
            NumberFault::TooLarge => Error::from_text("number too large to fit in target type"),
            NumberFault::TooSmall => Error::from_text("number too small to fit in target type"),
        }
    }

    /// The message.
    pub fn description(&self) -> (msg: &str)
        ensures
            msg@ == self@,
    {
        self.details.as_str()
    }

    /// The message, as the error is displayed.
    pub fn to_string(&self) -> (msg: String)
        ensures
            msg@ == self@,
    {
        self.details.clone()
    }
}

} // verus!
