//! Errors of the stream codec.
use crate::decimal::{hex_byte, push_hex_byte};
use crate::error::ErrorKind;
use crate::{error, index};
use vstd::prelude::*;
use vstd::string::*;

verus! {

/// Errors returned by the stream codec.
#[derive(Debug, Clone, Copy, PartialEq, Eq)]
#[non_exhaustive]
pub enum Error {
    /// The stream is malformed or ends too early.
    Corrupt,
    /// A checksum does not match.
    Crc,
    /// A block is larger than the reader accepts.
    TooLarge,
    /// The stream uses a feature that is not supported.
    Unsupported,
    /// A block could not be encoded or decoded.
    Block(error::Error),
    /// An index could not be built, written or read.
    Index(index::Error),
    /// An option is out of range.
    Config(&'static str),
    /// An argument is out of range, or a call comes at the wrong time.
    InvalidInput(&'static str),
    /// A seek is not possible on this stream.
    NoSeek(&'static str),
    /// The data ended before enough of it was read.
    UnexpectedEof,
    /// The type of a user chunk is out of range.
    UserChunkId(u8),
    /// An error of the caller's own, of that sort and with that text.
    Other(ErrorKind, &'static str),
}

impl Error {
    /// The sort of failure.
    pub open spec fn kind_of(self) -> ErrorKind {
        match self {
            Error::Corrupt | Error::Crc | Error::TooLarge | Error::Unsupported => {
                ErrorKind::InvalidData
            },
            Error::Block(_) => ErrorKind::InvalidData,
            Error::Index(e) => e.kind_of(),
            Error::Config(_) | Error::InvalidInput(_) | Error::UserChunkId(_) => {
                ErrorKind::InvalidInput
            },
            Error::NoSeek(_) => ErrorKind::Unsupported,
            Error::UnexpectedEof => ErrorKind::UnexpectedEof,
            Error::Other(k, _) => k,
        }
    }

    /// Returns the sort of failure.
    pub fn kind(&self) -> (k: ErrorKind)
        ensures
            k == self.kind_of(),
    {
        match self {
            Error::Corrupt | Error::Crc | Error::TooLarge | Error::Unsupported => {
                ErrorKind::InvalidData
            },
            Error::Block(_) => ErrorKind::InvalidData,
            Error::Index(e) => e.kind(),
            Error::Config(_) | Error::InvalidInput(_) | Error::UserChunkId(_) => {
                ErrorKind::InvalidInput
            },
            Error::NoSeek(_) => ErrorKind::Unsupported,
            Error::UnexpectedEof => ErrorKind::UnexpectedEof,
            Error::Other(k, _) => *k,
        }
    }

    /// What the error stands for, in words.
    pub open spec fn text(self) -> Seq<char> {
        match self {
            Error::Corrupt => "minlz: corrupt input"@,
            Error::Crc => "minlz: corrupt input, crc mismatch"@,
            Error::TooLarge => "minlz: decoded block is too large"@,
            Error::Unsupported => "minlz: unsupported input"@,
            Error::Block(e) => e.text(),
            Error::Index(e) => e.text(),
            Error::Config(m) => "minlz: invalid option: "@ + m@,
            Error::InvalidInput(m) => m@,
            Error::NoSeek(m) => m@,
            Error::UnexpectedEof => "unexpected end of file"@,
            Error::UserChunkId(id) => "user-chunk id 0x"@ + hex_byte(id) + " out of range"@,
            Error::Other(_, m) => m@,
        }
    }

    /// Returns a message for the error.
    pub fn message(&self) -> (s: String)
        ensures
            s@ == self.text(),
    {
        let mut s: String = String::new();
        match self {
            Error::Corrupt => {
                s.append("minlz: corrupt input");
            },
            Error::Crc => {
                s.append("minlz: corrupt input, crc mismatch");
            },
            Error::TooLarge => {
                s.append("minlz: decoded block is too large");
            },
            Error::Unsupported => {
                s.append("minlz: unsupported input");
            },
            Error::Block(e) => {
                s = e.message();
            },
            Error::Index(e) => {
                s = e.message();
            },
            Error::Config(m) => {
                s.append("minlz: invalid option: ");
                s.append(m);
            },
            Error::InvalidInput(m) => {
                s.append(m);
            },
            Error::NoSeek(m) => {
                s.append(m);
            },
            Error::UnexpectedEof => {
                s.append("unexpected end of file");
            },
            Error::UserChunkId(id) => {
                s.append("user-chunk id 0x");
                push_hex_byte(&mut s, *id);
                s.append(" out of range");
            },
            Error::Other(_, m) => {
                s.append(m);
            },
        }
        assert(s@ =~= self.text());
        s
    }
}

} // verus!
