//! Constants and small helpers of the stream format.
use crate::block::emit;
use vstd::arithmetic::power2;
use vstd::prelude::*;

pub use crate::block::format::MAX_BLOCK_SIZE;
pub use crate::block::format::{get_uvarint, put_uvarint};

verus! {

/// Smallest block size of a writer.
pub const MIN_BLOCK_SIZE: usize = 4_096;

/// Block size of a writer where none is given: 2 MiB.
pub const DEFAULT_BLOCK_SIZE: usize = 2_097_152;

/// Largest exponent of a block size.
pub const MAX_BLOCK_LOG: u8 = 23;

/// Largest payload of a user chunk.
pub const MAX_USER_CHUNK_SIZE: usize = 16_777_215;

/// Lowest type of a user chunk that a reader may skip.
pub const MIN_USER_SKIPPABLE_CHUNK: u8 = 0x80;

/// Highest type of a user chunk that a reader may skip.
pub const MAX_USER_SKIPPABLE_CHUNK: u8 = 0xbf;

/// Lowest type of a user chunk that a reader may not skip.
pub const MIN_USER_NON_SKIPPABLE_CHUNK: u8 = 0xc0;

/// Highest type of a user chunk that a reader may not skip.
pub const MAX_USER_NON_SKIPPABLE_CHUNK: u8 = 0xfd;

/// Type of a padding chunk.
pub const CHUNK_TYPE_PADDING: u8 = 0xfe;

/// Type of the chunk that starts a stream.
pub const CHUNK_TYPE_STREAM_IDENTIFIER: u8 = 0xff;

/// Type of a former compressed data chunk.
pub const CHUNK_TYPE_LEGACY_COMPRESSED_DATA: u8 = 0x00;

/// Type of a data chunk that holds its bytes as they are.
pub const CHUNK_TYPE_UNCOMPRESSED_DATA: u8 = 0x01;

/// Type of a compressed data chunk with a checksum of the uncompressed bytes.
pub const CHUNK_TYPE_MINLZ_COMPRESSED_DATA: u8 = 0x02;

/// Type of a compressed data chunk with a checksum of the compressed bytes.
pub const CHUNK_TYPE_MINLZ_COMPRESSED_DATA_COMP_CRC: u8 = 0x03;

/// Type of the chunk that ends a stream.
pub const CHUNK_TYPE_EOF: u8 = 0x20;

/// Highest type of a chunk that a reader must know.
pub const MAX_NON_SKIPPABLE_CHUNK: u8 = 0x3f;

/// Bytes of a checksum.
pub const CHECKSUM_SIZE: usize = 4;

/// Bytes of a chunk header: the type and the length.
pub const CHUNK_HEADER_SIZE: usize = 4;

/// Body length of the chunk that starts a stream.
pub const MAGIC_BODY_LEN: usize = 6;

/// Length of the chunk that starts a stream.
pub const STREAM_HEADER_LEN: usize = 10;

/// Longest variable-length number.
pub const MAX_VARINT_LEN_64: usize = 10;

/// The five bytes by which a stream is known.
pub open spec fn magic() -> Seq<u8> {
    seq![0x4du8, 0x69u8, 0x6eu8, 0x4cu8, 0x7au8]
}

/// Whether `indicator` stands for the smallest power of two that is not below
/// `block_size`.
pub open spec fn indicates(indicator: u8, block_size: int) -> bool {
    &&& indicator + 10 <= MAX_BLOCK_LOG
    &&& block_size <= power2::pow2((indicator + 10) as nat)
    &&& power2::pow2((indicator + 9) as nat) < block_size
}

/// The block size that an indicator stands for.
pub open spec fn size_of_indicator(indicator: u8) -> Option<int> {
    let n = indicator % 16 + 10;
    if n > MAX_BLOCK_LOG {
        None
    } else {
        Some(power2::pow2(n as nat) as int)
    }
}

/// Returns the indicator of a block size in the header of a stream.
pub fn block_size_indicator(block_size: usize) -> (r: u8)
    requires
        MIN_BLOCK_SIZE <= block_size <= MAX_BLOCK_SIZE,
    ensures
        indicates(r, block_size as int),
{
    let mut log: u8 = 12;
    let mut size: usize = 4_096;
    proof {
        power2::lemma2_to64();
    }
    while size < block_size
        invariant
            12 <= log <= 23,
            size == power2::pow2(log as nat),
            power2::pow2((log - 1) as nat) < block_size,
            block_size <= MAX_BLOCK_SIZE,
            power2::pow2(23) == MAX_BLOCK_SIZE,
        decreases 23 - log,
    {
        proof {
            power2::lemma_pow2_unfold((log + 1) as nat);
        }
        log = log + 1;
        size = size * 2;
    }
    log - 10
}

/// Returns the block size that an indicator stands for; `None` where it is out of
/// range.
pub fn block_size_from_indicator(indicator: u8) -> (r: Option<usize>)
    ensures
        (match r {
            Some(n) => size_of_indicator(indicator) == Some(n as int) && n > 0,
            None => size_of_indicator(indicator) is None,
        }),
{
    let n: u8 = indicator % 16 + 10;
    if n > MAX_BLOCK_LOG {
        return None;
    }
    let mut k: u8 = 10;
    let mut size: usize = 1_024;
    proof {
        power2::lemma2_to64();
    }
    while k < n
        invariant
            10 <= k <= n <= 23,
            size == power2::pow2(k as nat),
            1_024 <= size <= MAX_BLOCK_SIZE,
            k == 23 ==> size == MAX_BLOCK_SIZE,
            power2::pow2(23) == MAX_BLOCK_SIZE,
        decreases n - k,
    {
        proof {
            power2::lemma_pow2_unfold((k + 1) as nat);
            if k + 1 < 23 {
                power2::lemma_pow2_strictly_increases((k + 1) as nat, 23);
            }
        }
        k = k + 1;
        size = size * 2;
    }
    Some(size)
}

/// A reader takes the indicator that a writer gives a block size for that size, or
/// for the next power of two.
pub proof fn law_indicator_roundtrip(indicator: u8, block_size: int)
    requires
        indicates(indicator, block_size),
    ensures
        size_of_indicator(indicator) == Some(power2::pow2((indicator + 10) as nat) as int),
        block_size <= power2::pow2((indicator + 10) as nat) < 2 * block_size,
{
    power2::lemma_pow2_unfold((indicator + 10) as nat);
}

/// The block sizes that indicators stand for.
pub proof fn lemma_size_of_indicator(indicator: u8)
    ensures
        (match size_of_indicator(indicator) {
            Some(n) => 1024 <= n <= MAX_BLOCK_SIZE,
            None => true,
        }),
{
    let n = (indicator % 16 + 10) as nat;
    power2::lemma2_to64();
    if n <= MAX_BLOCK_LOG {
        if n > 10 {
            power2::lemma_pow2_strictly_increases(10, n);
        }
        if n < 23 {
            power2::lemma_pow2_strictly_increases(n, 23);
        }
    }
}

/// The chunk that starts a stream with an indicator.
pub open spec fn stream_header(indicator: u8) -> Seq<u8> {
    seq![CHUNK_TYPE_STREAM_IDENTIFIER, 6u8, 0u8, 0u8] + magic() + seq![indicator]
}

/// The indicator of a block size.
pub open spec fn indicator_of(block_size: int) -> u8 {
    choose|i: u8| indicates(i, block_size)
}

/// Every block size has an indicator.
pub proof fn lemma_indicator_exists(block_size: int)
    requires
        MIN_BLOCK_SIZE <= block_size <= MAX_BLOCK_SIZE,
    ensures
        indicates(indicator_of(block_size), block_size),
{
    power2::lemma2_to64();
    lemma_indicator_from(2, block_size);
}

proof fn lemma_indicator_from(i: u8, block_size: int)
    requires
        2 <= i <= 13,
        power2::pow2((i + 9) as nat) < block_size <= MAX_BLOCK_SIZE,
    ensures
        exists|j: u8| indicates(j, block_size),
    decreases 13 - i,
{
    if block_size <= power2::pow2((i + 10) as nat) {
        assert(indicates(i, block_size));
    } else {
        power2::lemma2_to64();
        lemma_indicator_from((i + 1) as u8, block_size);
    }
}

/// A block size has one indicator.
pub proof fn lemma_indicator_of(i: u8, block_size: int)
    requires
        indicates(i, block_size),
    ensures
        indicator_of(block_size) == i,
{
    let j = indicator_of(block_size);
    assert(indicates(j, block_size));
    if i < j {
        if i + 10 < j + 9 {
            power2::lemma_pow2_strictly_increases((i + 10) as nat, (j + 9) as nat);
        }
    } else if j < i {
        if j + 10 < i + 9 {
            power2::lemma_pow2_strictly_increases((j + 10) as nat, (i + 9) as nat);
        }
    }
}

/// Returns the chunk that starts a stream with blocks of at most `block_size` bytes.
pub fn make_stream_header(block_size: usize) -> (r: Vec<u8>)
    requires
        MIN_BLOCK_SIZE <= block_size <= MAX_BLOCK_SIZE,
    ensures
        r@ == stream_header(indicator_of(block_size as int)),
        indicates(indicator_of(block_size as int), block_size as int),
{
    let i: u8 = block_size_indicator(block_size);
    proof {
        lemma_indicator_of(i, block_size as int);
    }
    let r: Vec<u8> = vec![CHUNK_TYPE_STREAM_IDENTIFIER, 6, 0, 0, 0x4d, 0x69, 0x6e, 0x4c, 0x7a, i];
    assert(r@ =~= stream_header(i));
    r
}

/// The three bytes of a chunk length as a number.
pub open spec fn chunk_len_of(b: Seq<u8>) -> int {
    b[0] + 256 * b[1] + 65536 * b[2]
}

/// Reads a chunk length of three bytes.
pub fn read_chunk_len(b: &[u8]) -> (r: usize)
    requires
        b.len() >= 3,
    ensures
        r == chunk_len_of(b@),
{
    b[0] as usize + 256 * b[1] as usize + 65536 * b[2] as usize
}

/// A chunk header: the type and the length.
pub open spec fn chunk_header(kind: u8, len: int) -> Seq<u8> {
    seq![kind] + emit::le24_bytes(len)
}

/// Appends a chunk header.
pub fn put_chunk_header(dst: &mut Vec<u8>, kind: u8, len: usize)
    requires
        len < 0x100_0000,
    ensures
        final(dst)@ == old(dst)@ + chunk_header(kind, len as int),
{
    dst.push(kind);
    crate::block::load_store::store24(dst, len);
    assert(dst@ =~= old(dst)@ + chunk_header(kind, len as int));
}

/// The length in a chunk header reads back as written.
pub proof fn law_chunk_len_roundtrip(kind: u8, len: int, tail: Seq<u8>)
    requires
        0 <= len < 0x100_0000,
    ensures
        ({
            let b = chunk_header(kind, len) + tail;
            &&& b[0] == kind
            &&& chunk_len_of(b.skip(1)) == len
            &&& b.skip(4) == tail
        }),
{
    let b = chunk_header(kind, len) + tail;
    assert(b.skip(4) =~= tail);
}

} // verus!
