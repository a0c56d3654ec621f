//! The MinLZ stream format: blocks in chunks, with checksums.
//!
//! A [`Writer`](writer::Writer) puts data out as a stream, a [`Reader`](reader::Reader)
//! reads it back, and a [`ReadSeeker`](seek::ReadSeeker) goes to any place in it by its
//! index. [`MtWriter`](mt_writer::MtWriter) and
//! [`Reader::decode_concurrent`](reader::Reader::decode_concurrent) hand the work on
//! blocks to workers.
use vstd::prelude::*;

pub mod accounts;
pub mod calls;
pub mod checks;
pub mod chunk;
pub mod concurrent;
pub mod crc;
pub mod error;
pub mod format;
pub mod in_step;
pub mod laws;
pub mod mt_laws;
pub mod mt_pool;
pub mod mt_reader;
pub mod mt_writer;
pub mod output;
pub mod positions;
pub mod random_access;
pub mod reader;
pub mod roundtrip;
pub mod scanned;
pub mod seek;
pub mod seeking;
pub mod shape;
pub mod silent;
pub mod success;
pub mod writer;

pub use chunk::{UserChunkCb, UserChunkHandler};
pub use error::Error;
pub use format::{
    CHUNK_TYPE_PADDING, CHUNK_TYPE_STREAM_IDENTIFIER, DEFAULT_BLOCK_SIZE, MAX_BLOCK_SIZE,
    MAX_USER_CHUNK_SIZE, MAX_USER_NON_SKIPPABLE_CHUNK, MAX_USER_SKIPPABLE_CHUNK, MIN_BLOCK_SIZE,
    MIN_USER_NON_SKIPPABLE_CHUNK, MIN_USER_SKIPPABLE_CHUNK,
};
pub use mt_reader::ConcurrentDecode;
pub use mt_writer::{MtWriter, MtWriterBuilder};
pub use reader::{Reader, ReaderBuilder};
pub use seek::{ReadSeeker, SeekFrom};
pub use writer::{Writer, WriterBuilder};

verus! {

/// A number of workers: at least one.
#[derive(Debug, Clone, Copy, PartialEq, Eq, Hash)]
pub struct Concurrency(usize);

impl Concurrency {
    /// The number.
    pub closed spec fn count(self) -> usize {
        self.0
    }

    #[verifier::type_invariant]
    spec fn inv(self) -> bool {
        self.0 >= 1
    }

    /// A number of `n` workers; `None` where `n` is zero.
    pub fn new(n: usize) -> (r: Option<Self>)
        ensures
            (match r {
                Some(c) => n >= 1 && c.count() == n,
                None => n == 0,
            }),
    {
        if n == 0 {
            None
        } else {
            Some(Concurrency(n))
        }
    }

    /// One worker.
    pub fn one() -> (r: Self)
        ensures
            r.count() == 1,
    {
        Concurrency(1)
    }

    /// Returns the number of workers.
    pub fn get(self) -> (r: usize)
        ensures
            r == self.count(),
            r >= 1,
    {
        proof {
            use_type_invariant(self);
        }
        self.0
    }
}

} // verus!
