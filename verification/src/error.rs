//! Errors of the block codec.
use vstd::prelude::*;
use vstd::string::*;

verus! {

/// Errors returned by the MinLZ block codec.
#[derive(Debug, Clone, Copy, PartialEq, Eq)]
#[non_exhaustive]
pub enum Error {
    /// The input is not a valid MinLZ block: truncated, malformed, or with an
    /// offset or a length out of bounds. The payload is a short reason for
    /// diagnostics; do not match on its text.
    Corrupt(&'static str),
    /// The declared or the input length exceeds the largest block size.
    TooLarge,
    /// A compression level outside the supported range.
    InvalidLevel,
}

/// What sort of failure an error stands for.
#[derive(Debug, Clone, Copy, PartialEq, Eq, Structural)]
pub enum ErrorKind {
    /// An argument is out of range.
    InvalidInput,
    /// The data is malformed.
    InvalidData,
    /// The data uses a feature that is not supported.
    Unsupported,
    /// The data ended too early.
    UnexpectedEof,
    /// Something was not found.
    NotFound,
    /// Something is not permitted.
    PermissionDenied,
    /// Something exists already.
    AlreadyExists,
    /// A connection was refused.
    ConnectionRefused,
    /// A connection was reset.
    ConnectionReset,
    /// A connection was aborted.
    ConnectionAborted,
    /// There is no connection.
    NotConnected,
    /// An address is in use.
    AddrInUse,
    /// An address is not available.
    AddrNotAvailable,
    /// A pipe was closed.
    BrokenPipe,
    /// The operation would have to wait.
    WouldBlock,
    /// The operation took too long.
    TimedOut,
    /// Nothing could be written.
    WriteZero,
    /// The operation was interrupted.
    Interrupted,
    /// There is not enough memory.
    OutOfMemory,
    /// Something else went wrong.
    Other,
}

impl Error {
    /// What the error stands for, in words.
    pub open spec fn text(self) -> Seq<char> {
        match self {
            Error::Corrupt(reason) => "minlz: corrupt input: "@ + reason@,
            Error::TooLarge => "minlz: decoded block is too large"@,
            Error::InvalidLevel => "minlz: invalid compression level"@,
        }
    }

    /// Returns a message for the error.
    pub fn message(&self) -> (s: String)
        ensures
            s@ == self.text(),
    {
        let mut s: String = String::new();
        match self {
            Error::Corrupt(reason) => {
                s.append("minlz: corrupt input: ");
                s.append(reason);
            },
            Error::TooLarge => {
                s.append("minlz: decoded block is too large");
            },
            Error::InvalidLevel => {
                s.append("minlz: invalid compression level");
            },
        }
        assert(s@ =~= self.text());
        s
    }

    /// Returns the sort of failure: every block error is malformed data.
    pub fn kind(&self) -> (k: ErrorKind)
        ensures
            k == ErrorKind::InvalidData,
    {
        ErrorKind::InvalidData
    }
}

} // verus!
