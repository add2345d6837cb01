//! The error of the torrent records: a message that says what went wrong.

use vstd::prelude::*;

verus! {

/// A failure to read a torrent record, described by its message.
#[derive(PartialEq, Debug)]
pub struct Error {
    details: String,
}

impl View for Error {
    type V = Seq<char>;

    closed spec fn view(&self) -> Seq<char> {
        self.details@
    }
}

impl Error {
    /// An error with the message `msg`.
    pub fn new(msg: String) -> (e: Error)
        ensures
            e@ == msg@,
    {
        Self { details: msg }
    }

    /// The error of the codec as an error of the torrent records, with the
    /// same message.
    pub fn from(err: crate::bencoding::error::Error) -> (e: Error)
        ensures
            e@ == err@,
    {
        Error::new(err.to_string())
    }

    /// The message.
    pub fn description(&self) -> (msg: &str)
        ensures
            msg@ == self@,
    {
        self.details.as_str()
    }

    /// The message, as the error is displayed.
    pub fn to_string(&self) -> (msg: String)
        ensures
            msg@ == self@,
    {
        self.details.clone()
    }
}

} // verus!
