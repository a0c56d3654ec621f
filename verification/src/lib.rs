//! MinLZ: a fast LZ77 block codec with a chunked stream format and a seek
//! index.
//!
//! * [`block`] encodes and decodes single blocks of up to 8 MiB.
//! * [`stream`] writes and reads streams of blocks with checksums, in one piece or
//!   with workers, and goes to any place in a stream by its index.
//! * [`index`] is that index: where blocks start in a stream and in its data.
//! * [`mz`] is what the command-line tool decides and computes.
#![allow(unused_imports)]

use vstd::prelude::*;

pub mod block;
pub mod decimal;
pub mod error;
pub mod index;
pub mod mz;
pub mod stream;

pub use block::{
    append_decoded, append_encoded, decode, decoded_len, encode, is_minlz, max_encoded_len,
    try_encode, Level, MAX_BLOCK_SIZE,
};
pub use error::Error;
pub use index::{
    index_stream, remove_index_headers, restore_index_headers, Index, OffsetPair,
    CHUNK_TYPE_INDEX,
};

verus! {

} // verus!
