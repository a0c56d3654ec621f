//! Errors of the tool.
use crate::error;
use crate::stream;
use vstd::prelude::*;
use vstd::string::*;

verus! {

/// Why something could not be done.
#[derive(Debug, Clone, Copy, PartialEq, Eq)]
pub enum Error {
    /// It makes no sense, or a check failed.
    Other(&'static str),
    /// A block could not be encoded or decoded.
    Block(error::Error),
    /// A stream could not be written or read.
    Stream(stream::Error),
    /// There is no index where one is needed.
    NoIndex(stream::Error),
}

impl Error {
    /// What the error stands for, in words.
    pub open spec fn text(self) -> Seq<char> {
        match self {
            Error::Other(m) => m@,
            Error::Block(e) => e.text(),
            Error::Stream(e) => e.text(),
            Error::NoIndex(e) => "--offset / --tail require an index in the stream: "@ + e.text(),
        }
    }

    /// Returns a message for the error.
    pub fn message(&self) -> (r: String)
        ensures
            r@ == self.text(),
    {
        match self {
            Error::Other(m) => (*m).to_owned(),
            Error::Block(e) => e.message(),
            Error::Stream(e) => e.message(),
            Error::NoIndex(e) => {
                let mut r: String = "--offset / --tail require an index in the stream: ".to_owned();
                r.append(e.message().as_str());
                r
            },
        }
    }
}

} // verus!
