//! The MinLZ block codec.
//!
//! A block is a zero byte, the length of what it decodes to as a
//! variable-length number, and a body. A zero length marks a body that holds
//! the bytes as they are; a lone zero byte is the empty block.
use crate::error::Error;
use vstd::prelude::*;
use vstd::slice::slice_subrange;

pub mod decode;
pub mod emit;
pub mod encode;
pub mod encode_l1;
pub mod encode_l2;
pub mod encode_l3;
pub mod faithful;
pub mod faithful_l2;
pub mod faithful_l3;
pub mod format;
pub mod hash;
pub mod load_store;
pub mod match_len;
pub mod op_laws;
pub mod ops;
pub mod periodic;
pub mod recurring;
pub mod recurring_l3;

pub use format::{max_encoded_len, MAX_BLOCK_SIZE};

use format::{get_uvarint, put_uvarint, MIN_NON_LITERAL_BLOCK_SIZE};
use load_store::append_slice;

verus! {

/// Compression level for [`encode()`].
#[derive(Debug, Clone, Copy, PartialEq, Eq, Structural)]
pub enum Level {
    /// Single pass with one hash table.
    Fastest,
    /// Two hash tables.
    Balanced,
    /// Many candidates, scored by size.
    Smallest,
}

impl Level {
    /// The number of the level: one to three.
    pub open spec fn number(self) -> i32 {
        match self {
            Level::Fastest => 1,
            Level::Balanced => 2,
            Level::Smallest => 3,
        }
    }
}

/// The level with number `v`.
pub open spec fn level_of(v: i32) -> Result<Level, Error> {
    if v == 1 {
        Ok(Level::Fastest)
    } else if v == 2 {
        Ok(Level::Balanced)
    } else if v == 3 {
        Ok(Level::Smallest)
    } else {
        Err(Error::InvalidLevel)
    }
}

impl core::convert::TryFrom<i32> for Level {
    type Error = Error;

    /// The level with number `v`; any other number is
    /// [`Error::InvalidLevel`].
    fn try_from(v: i32) -> (r: Result<Self, Error>) {
        if v == 1 {
            Ok(Level::Fastest)
        } else if v == 2 {
            Ok(Level::Balanced)
        } else if v == 3 {
            Ok(Level::Smallest)
        } else {
            Err(Error::InvalidLevel)
        }
    }
}

impl vstd::std_specs::convert::TryFromSpecImpl<i32> for Level {
    open spec fn obeys_try_from_spec() -> bool {
        true
    }

    open spec fn try_from_spec(v: i32) -> Result<Self, Error> {
        level_of(v)
    }
}

impl core::convert::From<Level> for i32 {
    /// The number of the level.
    fn from(l: Level) -> (r: i32) {
        match l {
            Level::Fastest => 1,
            Level::Balanced => 2,
            Level::Smallest => 3,
        }
    }
}

impl vstd::std_specs::convert::FromSpecImpl<Level> for i32 {
    open spec fn obeys_from_spec() -> bool {
        true
    }

    open spec fn from_spec(l: Level) -> i32 {
        l.number()
    }
}

/// Every level has the number that gives it back.
pub proof fn law_level_number(l: Level)
    ensures
        level_of(l.number()) == Ok::<Level, Error>(l),
{
}

/// What a block's header says: whether the body holds the bytes as they are,
/// where the body starts, and the length of what the block decodes to.
pub open spec fn header_of(src: Seq<u8>) -> Result<(bool, int, int), Error> {
    if src.len() == 0 {
        Err(Error::Corrupt("empty input"))
    } else if src.len() == 1 {
        if src[0] == 0 {
            Ok((true, 1, 0))
        } else {
            Err(Error::Corrupt("invalid single-byte block"))
        }
    } else if src[0] != 0 {
        Err(Error::Corrupt("snappy/s2 stream not supported"))
    } else {
        match format::parse_uvarint(src.skip(1)) {
            None => Err(Error::Corrupt("bad decoded-length varint")),
            Some((v, n)) => if v > 0xffff_ffff {
                Err(Error::Corrupt("decoded length exceeds u32"))
            } else if v > MAX_BLOCK_SIZE {
                Err(Error::TooLarge)
            } else if 1 + n >= src.len() {
                Err(Error::Corrupt("empty block body"))
            } else if v == 0 {
                Ok((true, (1 + n) as int, src.len() - 1 - n))
            } else if v < src.len() - 1 - n {
                Err(Error::Corrupt("compressed larger than decoded size"))
            } else {
                Ok((false, (1 + n) as int, v as int))
            },
        }
    }
}

/// What a body, of which the header says that it decodes to `dlen` bytes,
/// decodes to.
pub open spec fn body_decoded(body: Seq<u8>, dlen: int) -> Result<Seq<u8>, Error> {
    match ops::decoded(body) {
        Some(out) => if out.len() == dlen {
            Ok(out)
        } else {
            Err(Error::Corrupt("invalid block body"))
        },
        None => Err(Error::Corrupt("invalid block body")),
    }
}

/// What a block decodes to.
pub open spec fn block_decoded(src: Seq<u8>) -> Result<Seq<u8>, Error> {
    match header_of(src) {
        Err(e) => Err(e),
        Ok((stored, at, dlen)) => if stored {
            Ok(src.skip(at))
        } else {
            body_decoded(src.skip(at), dlen)
        },
    }
}

/// The block that holds `src` as it is.
pub open spec fn stored_block(src: Seq<u8>) -> Seq<u8> {
    if src.len() == 0 {
        seq![0u8]
    } else {
        seq![0u8, 0u8] + src
    }
}

/// The block with a compressed body for `len` bytes.
pub open spec fn compressed_block(len: nat, body: Seq<u8>) -> Seq<u8> {
    seq![0u8] + format::uvarint(len) + body
}

/// A stored block decodes to what it holds.
pub proof fn lemma_stored_block(src: Seq<u8>)
    requires
        src.len() <= MAX_BLOCK_SIZE,
    ensures
        block_decoded(stored_block(src)) == Ok::<Seq<u8>, Error>(src),
        format::spec_max_encoded_len(src.len() as int) == Some(stored_block(src).len() as int),
{
    let b = stored_block(src);
    if src.len() == 0 {
        assert(b.skip(1) =~= src);
    } else {
        assert(b.skip(1) =~= format::uvarint(0) + src);
        format::lemma_uvarint_roundtrip(0, src);
        assert(b.skip(2) =~= src);
    }
}

/// A compressed block decodes to what its body does, as long as the body is not
/// longer than that.
pub proof fn lemma_compressed_block(src: Seq<u8>, body: Seq<u8>)
    requires
        1 <= body.len() <= src.len() <= MAX_BLOCK_SIZE,
        ops::decoded(body) == Some(src),
    ensures
        block_decoded(compressed_block(src.len(), body)) == Ok::<Seq<u8>, Error>(src),
{
    let v = format::uvarint(src.len());
    let b = compressed_block(src.len(), body);
    assert(b.skip(1) =~= v + body);
    format::lemma_uvarint_roundtrip(src.len() as u64, body);
    assert(b.skip(1 + v.len() as int) =~= body);
}

/// The length prefix of a block takes at most four bytes.
pub proof fn lemma_block_varint_len(len: nat)
    requires
        len <= MAX_BLOCK_SIZE,
    ensures
        1 <= format::uvarint(len).len() <= 4,
{
    reveal_with_fuel(format::pow128, 5);
    format::lemma_uvarint_len(len, 4);
}

/// Reads a block's header: whether the body holds the bytes as they are, the
/// body, and the length of what the block decodes to.
fn parse_header(src: &[u8]) -> (r: Result<(bool, &[u8], usize), Error>)
    ensures
        (match r {
            Ok((stored, body, dlen)) => {
                &&& header_of(src@) == Ok::<(bool, int, int), Error>(
                    (stored, src.len() - body.len(), dlen as int),
                )
                &&& body.len() <= src.len()
                &&& body@ == src@.skip(src.len() - body.len())
                &&& stored ==> dlen == body.len()
                &&& !stored ==> body.len() <= dlen <= MAX_BLOCK_SIZE
            },
            Err(e) => header_of(src@) == Err::<(bool, int, int), Error>(e),
        }),
{
    if src.len() == 0 {
        return Err(Error::Corrupt("empty input"));
    }
    if src.len() == 1 {
        if src[0] == 0 {
            assert(src@.subrange(1, 1) =~= src@.skip(1));
            return Ok((true, slice_subrange(src, 1, 1), 0));
        }
        return Err(Error::Corrupt("invalid single-byte block"));
    }
    if src[0] != 0 {
        return Err(Error::Corrupt("snappy/s2 stream not supported"));
    }
    let after: &[u8] = slice_subrange(src, 1, src.len());
    assert(after@ =~= src@.skip(1));
    match get_uvarint(after) {
        None => Err(Error::Corrupt("bad decoded-length varint")),
        Some((v, n)) => {
            if v > 0xffff_ffff {
                return Err(Error::Corrupt("decoded length exceeds u32"));
            }
            if v > MAX_BLOCK_SIZE as u64 {
                return Err(Error::TooLarge);
            }
            let dlen: usize = v as usize;
            let body: &[u8] = slice_subrange(src, 1 + n, src.len());
            assert(body@ =~= src@.skip(1 + n));
            if body.len() == 0 {
                return Err(Error::Corrupt("empty block body"));
            }
            if dlen == 0 {
                return Ok((true, body, body.len()));
            }
            if dlen < body.len() {
                return Err(Error::Corrupt("compressed larger than decoded size"));
            }
            Ok((false, body, dlen))
        },
    }
}

/// Decodes the block `src` and appends the result to `dst`, which stays as it is
/// on an error.
pub fn append_decoded(dst: &mut Vec<u8>, src: &[u8]) -> (r: Result<(), Error>)
    ensures
        (match block_decoded(src@) {
            Ok(out) => r is Ok && final(dst)@ == old(dst)@ + out,
            Err(e) => r == Err::<(), Error>(e) && final(dst)@ == old(dst)@,
        }),
{
    match parse_header(src) {
        Err(e) => Err(e),
        Ok((stored, body, dlen)) => {
            if stored {
                append_slice(dst, body);
                return Ok(());
            }
            decode::minlz_decode(dst, dlen, body)
        },
    }
}

/// Decodes the block `src` into `dst`, whose contents are replaced; on an error
/// it is left empty.
pub fn decode(dst: &mut Vec<u8>, src: &[u8]) -> (r: Result<(), Error>)
    ensures
        (match block_decoded(src@) {
            Ok(out) => r is Ok && final(dst)@ == out,
            Err(e) => r == Err::<(), Error>(e) && final(dst)@ == Seq::<u8>::empty(),
        }),
{
    dst.clear();
    let r = append_decoded(dst, src);
    proof {
        if let Ok(out) = block_decoded(src@) {
            assert(Seq::<u8>::empty() + out =~= out);
        }
    }
    r
}

/// Returns the uncompressed length that a block's header declares.
pub fn decoded_len(src: &[u8]) -> (r: Result<usize, Error>)
    ensures
        (match header_of(src@) {
            Ok((_, _, dlen)) => r == Ok::<usize, Error>(dlen as usize) && 0 <= dlen <= usize::MAX,
            Err(e) => r == Err::<usize, Error>(e),
        }),
{
    match parse_header(src) {
        Err(e) => Err(e),
        Ok((_, _, dlen)) => Ok(dlen),
    }
}

/// Returns the uncompressed length that the header declares if `src` starts with
/// the zero byte of a MinLZ block, or `None` if it does not. Fails on a malformed
/// header.
pub fn is_minlz(src: &[u8]) -> (r: Result<Option<usize>, Error>)
    ensures
        src.len() > 0 && src[0] != 0 ==> r == Ok::<Option<usize>, Error>(None),
        src.len() == 0 || src[0] == 0 ==> (match header_of(src@) {
            Ok((_, _, dlen)) => r == Ok::<Option<usize>, Error>(Some(dlen as usize)) && 0 <= dlen
                <= usize::MAX,
            Err(e) => r == Err::<Option<usize>, Error>(e),
        }),
{
    if src.len() == 0 {
        return Err(Error::Corrupt("empty input"));
    }
    if src[0] != 0 {
        return Ok(None);
    }
    match parse_header(src) {
        Err(e) => Err(e),
        Ok((_, _, dlen)) => Ok(Some(dlen)),
    }
}

/// Appends the block that holds `src` as it is.
fn encode_uncompressed(dst: &mut Vec<u8>, src: &[u8])
    ensures
        final(dst)@ == old(dst)@ + stored_block(src@),
{
    dst.push(0);
    if src.len() > 0 {
        dst.push(0);
        append_slice(dst, src);
    }
    assert(dst@ =~= old(dst)@ + stored_block(src@));
}

/// The body of `src` by the encoder of `level`; nothing where it does not get
/// smaller.
#[verifier::opaque]
pub open spec fn body_of(src: Seq<u8>, level: Level) -> Option<Seq<u8>> {
    match level {
        Level::Fastest => encode_l1::body_of(src),
        Level::Balanced => encode_l2::body_of(src),
        Level::Smallest => encode_l3::body_of(src),
    }
}

/// The block that stands for `src`: the compressed one, if there is one and it
/// takes no more space than the stored one, else the stored one.
pub open spec fn encoded(src: Seq<u8>, level: Level) -> Seq<u8> {
    match body_of(src, level) {
        None => stored_block(src),
        Some(body) => {
            let block = compressed_block(src.len(), body);
            if block.len() <= stored_block(src).len() {
                block
            } else {
                stored_block(src)
            }
        },
    }
}

/// The compressed block for `src`, if it is smaller than `src`.
pub open spec fn smaller_block(src: Seq<u8>, level: Level) -> Option<Seq<u8>> {
    match body_of(src, level) {
        None => None,
        Some(body) => {
            let block = compressed_block(src.len(), body);
            if block.len() < src.len() {
                Some(block)
            } else {
                None
            }
        },
    }
}

/// Fewer than sixteen bytes do not get smaller.
proof fn lemma_short(src: Seq<u8>, level: Level)
    ensures
        src.len() < MIN_NON_LITERAL_BLOCK_SIZE ==> body_of(src, level) is None,
{
    reveal(body_of);
}

/// Runs the encoder of `level`; appends the block body to `dst` and returns its
/// length, or zero where the input does not get smaller.
fn encode_body(dst: &mut Vec<u8>, src: &[u8], level: Level) -> (n: usize)
    requires
        src.len() <= MAX_BLOCK_SIZE,
    ensures
        encode::encoded_or_not(old(dst)@, final(dst)@, src@, n as int),
        encode::is_outcome(old(dst)@, final(dst)@, n as int, body_of(src@, level)),
        src.len() < MIN_NON_LITERAL_BLOCK_SIZE ==> n == 0,
{
    proof {
        reveal(body_of);
    }
    match level {
        Level::Fastest => encode_l1::encode_block(dst, src),
        Level::Balanced => encode_l2::encode_block(dst, src),
        Level::Smallest => encode_l3::encode_block(dst, src),
    }
}

/// `block` is an encoding of `src`: it decodes to it, takes no more space than
/// [`max_encoded_len`] says, and holds an input shorter than sixteen bytes as it
/// is. An input of one byte over and over, if it is long enough, takes a few
/// bytes.
pub open spec fn encodes(block: Seq<u8>, src: Seq<u8>) -> bool {
    &&& block_decoded(block) == Ok::<Seq<u8>, Error>(src)
    &&& format::spec_max_encoded_len(src.len() as int) matches Some(max) && block.len() <= max
    &&& src.len() < MIN_NON_LITERAL_BLOCK_SIZE ==> block == stored_block(src)
    &&& encode::is_constant(src) && src.len() >= 32 ==> block.len() <= 22
}

/// Encodes `src` and appends the block to `dst`.
///
/// An input that does not compress into the space of [`max_encoded_len`] is
/// stored as it is.
pub fn append_encoded(dst: &mut Vec<u8>, src: &[u8], level: Level) -> (r: Result<(), Error>)
    ensures
        src.len() > MAX_BLOCK_SIZE ==> r == Err::<(), Error>(Error::TooLarge) && final(dst)@
            == old(dst)@,
        src.len() <= MAX_BLOCK_SIZE ==> {
            &&& r is Ok
            &&& final(dst)@ == old(dst)@ + encoded(src@, level)
            &&& encodes(encoded(src@, level), src@)
        },
{
    let max: usize = match max_encoded_len(src.len()) {
        Some(max) => max,
        None => {
            return Err(Error::TooLarge);
        },
    };
    let start: usize = dst.len();
    proof {
        lemma_short(src@, level);
        lemma_stored_block(src@);
        lemma_block_varint_len(src@.len());
    }
    if src.len() >= MIN_NON_LITERAL_BLOCK_SIZE {
        dst.push(0);
        put_uvarint(dst, src.len() as u64);
        let ghost before = dst@;
        let head: usize = dst.len() - start;
        let n: usize = encode_body(dst, src, level);
        if n > 0 && n <= max - head {
            proof {
                let body = body_of(src@, level)->0;
                let block = compressed_block(src@.len(), body);
                assert(dst@.skip(before.len() as int) =~= body);
                assert(dst@ =~= old(dst)@ + block);
                lemma_compressed_block(src@, body);
            }
            return Ok(());
        }
        assert(dst@.take(before.len() as int).take(start as int) =~= dst@.take(start as int));
        dst.truncate(start);
        assert(dst@ =~= old(dst)@);
    }
    encode_uncompressed(dst, src);
    Ok(())
}

/// Encodes `src` into `dst`, whose contents are replaced.
pub fn encode(dst: &mut Vec<u8>, src: &[u8], level: Level) -> (r: Result<(), Error>)
    ensures
        src.len() > MAX_BLOCK_SIZE ==> r == Err::<(), Error>(Error::TooLarge) && final(dst)@
            == Seq::<u8>::empty(),
        src.len() <= MAX_BLOCK_SIZE ==> r is Ok && final(dst)@ == encoded(src@, level) && encodes(
            final(dst)@,
            src@,
        ),
{
    dst.clear();
    let r = append_encoded(dst, src, level);
    assert(Seq::<u8>::empty() + encoded(src@, level) =~= encoded(src@, level));
    r
}

/// Encodes `src` and appends the block to `dst` if it gets smaller; says whether
/// it did. Otherwise, and for an input of fewer than sixteen bytes, `dst` stays
/// as it is.
pub fn try_encode(dst: &mut Vec<u8>, src: &[u8], level: Level) -> (r: Result<bool, Error>)
    ensures
        src.len() > MAX_BLOCK_SIZE ==> r == Err::<bool, Error>(Error::TooLarge) && final(dst)@
            == old(dst)@,
        src.len() <= MAX_BLOCK_SIZE ==> (match smaller_block(src@, level) {
            None => r == Ok::<bool, Error>(false) && final(dst)@ == old(dst)@,
            Some(block) => {
                &&& r == Ok::<bool, Error>(true)
                &&& final(dst)@ == old(dst)@ + block
                &&& encodes(block, src@)
                &&& block == encoded(src@, level)
            },
        }),
        src.len() < MIN_NON_LITERAL_BLOCK_SIZE ==> r == Ok::<bool, Error>(false),
        encode::is_constant(src@) && 32 <= src.len() <= MAX_BLOCK_SIZE ==> r == Ok::<bool, Error>(
            true,
        ),
{
    if src.len() > MAX_BLOCK_SIZE {
        return Err(Error::TooLarge);
    }
    proof {
        lemma_short(src@, level);
    }
    if src.len() < MIN_NON_LITERAL_BLOCK_SIZE {
        return Ok(false);
    }
    let start: usize = dst.len();
    dst.push(0);
    put_uvarint(dst, src.len() as u64);
    let ghost before = dst@;
    let head: usize = dst.len() - start;
    let n: usize = encode_body(dst, src, level);
    proof {
        lemma_block_varint_len(src@.len());
    }
    if n > 0 && n < src.len() && head < src.len() - n {
        proof {
            let body = body_of(src@, level)->0;
            let block = compressed_block(src@.len(), body);
            assert(dst@.skip(before.len() as int) =~= body);
            assert(dst@ =~= old(dst)@ + block);
            lemma_compressed_block(src@, body);
        }
        Ok(true)
    } else {
        assert(dst@.take(before.len() as int).take(start as int) =~= dst@.take(start as int));
        dst.truncate(start);
        assert(dst@ =~= old(dst)@);
        Ok(false)
    }
}

/// Where a block decodes at all, its header declares the length of what it
/// decodes to.
pub proof fn law_declared_length(block: Seq<u8>)
    requires
        block_decoded(block) is Ok,
    ensures
        header_of(block) is Ok,
        (header_of(block)->Ok_0).2 == (block_decoded(block)->Ok_0).len(),
{
    if block.len() > 1 {
        format::lemma_parse_uvarint_bounds(block.skip(1));
    }
}

/// What an encoder writes decodes to its input.
proof fn lemma_body_of(src: Seq<u8>, level: Level)
    requires
        src.len() <= MAX_BLOCK_SIZE,
    ensures
        body_of(src, level) matches Some(body) ==> ops::decoded(body) == Some(src) && body.len()
            > 0,
{
    reveal(body_of);
    match level {
        Level::Fastest => faithful::law_body_l1(src),
        Level::Balanced => faithful_l2::law_body_l2(src),
        Level::Smallest => faithful_l3::law_body_l3(src),
    }
}

/// What [`encode()`] writes at any level of up to 8 MiB, [`fn@decode`] reads back, and
/// [`decoded_len`] gives the length of. It takes no more space than
/// [`max_encoded_len`] says.
pub proof fn law_decode_inverts_encode(src: Seq<u8>, level: Level)
    requires
        src.len() <= MAX_BLOCK_SIZE,
    ensures
        block_decoded(encoded(src, level)) == Ok::<Seq<u8>, Error>(src),
        header_of(encoded(src, level)) is Ok,
        (header_of(encoded(src, level))->Ok_0).2 == src.len(),
        format::spec_max_encoded_len(src.len() as int) matches Some(max) && encoded(
            src,
            level,
        ).len() <= max,
{
    lemma_body_of(src, level);
    lemma_stored_block(src);
    lemma_block_varint_len(src.len());
    if let Some(body) = body_of(src, level) {
        if compressed_block(src.len(), body).len() <= stored_block(src).len() {
            lemma_short(src, level);
            lemma_compressed_block(src, body);
        }
    }
    law_declared_length(encoded(src, level));
}

// Bodies of stream chunks: a block without the leading zero byte, which the
// chunk type stands for.

/// The declared length at the head of a chunk body and where the block body
/// starts.
pub open spec fn chunk_header_of(chunk: Seq<u8>) -> Result<(int, int), Error> {
    match format::parse_uvarint(chunk) {
        None => Err(Error::Corrupt("bad chunk length varint")),
        Some((v, n)) => if v > 0xffff_ffff {
            Err(Error::Corrupt("chunk decoded length exceeds u32"))
        } else if v > MAX_BLOCK_SIZE {
            Err(Error::TooLarge)
        } else {
            Ok((v as int, n as int))
        },
    }
}

/// What a chunk body decodes to.
pub open spec fn chunk_decoded(chunk: Seq<u8>) -> Result<Seq<u8>, Error> {
    match chunk_header_of(chunk) {
        Err(e) => Err(e),
        Ok((dlen, at)) => if dlen == 0 {
            Ok(chunk.skip(at))
        } else if dlen < chunk.len() - at {
            Err(Error::Corrupt("compressed larger than decoded size"))
        } else {
            body_decoded(chunk.skip(at), dlen)
        },
    }
}

/// The length of what a chunk body decodes to, from its header alone.
pub open spec fn chunk_decoded_len(chunk: Seq<u8>) -> Result<int, Error> {
    match chunk_header_of(chunk) {
        Err(e) => Err(e),
        Ok((dlen, at)) => if dlen == 0 {
            Ok(chunk.len() - at)
        } else {
            Ok(dlen)
        },
    }
}

/// Where a chunk body decodes at all, its header gives the length.
pub proof fn law_chunk_declared_length(chunk: Seq<u8>)
    requires
        chunk_decoded(chunk) is Ok,
    ensures
        chunk_decoded_len(chunk) == Ok::<int, Error>((chunk_decoded(chunk)->Ok_0).len() as int),
{
    format::lemma_parse_uvarint_bounds(chunk);
}

/// The declared length at the head of a chunk body, and the rest of it.
fn split_chunk_body(body: &[u8]) -> (r: Result<(usize, &[u8]), Error>)
    ensures
        (match r {
            Ok((dlen, rest)) => {
                &&& chunk_header_of(body@) == Ok::<(int, int), Error>(
                    (dlen as int, body.len() - rest.len()),
                )
                &&& rest.len() < body.len()
                &&& rest@ == body@.skip(body.len() - rest.len())
                &&& dlen <= MAX_BLOCK_SIZE
            },
            Err(e) => chunk_header_of(body@) == Err::<(int, int), Error>(e),
        }),
{
    match get_uvarint(body) {
        None => Err(Error::Corrupt("bad chunk length varint")),
        Some((v, n)) => {
            if v > 0xffff_ffff {
                return Err(Error::Corrupt("chunk decoded length exceeds u32"));
            }
            if v > MAX_BLOCK_SIZE as u64 {
                return Err(Error::TooLarge);
            }
            let rest: &[u8] = slice_subrange(body, n, body.len());
            assert(rest@ =~= body@.skip(n as int));
            Ok((v as usize, rest))
        },
    }
}

/// Decodes a chunk body and appends the result to `dst`, which stays as it is on
/// an error.
pub fn append_decoded_chunk_body(dst: &mut Vec<u8>, body: &[u8]) -> (r: Result<(), Error>)
    ensures
        (match chunk_decoded(body@) {
            Ok(out) => r is Ok && final(dst)@ == old(dst)@ + out,
            Err(e) => r == Err::<(), Error>(e) && final(dst)@ == old(dst)@,
        }),
{
    match split_chunk_body(body) {
        Err(e) => Err(e),
        Ok((dlen, rest)) => {
            if dlen == 0 {
                append_slice(dst, rest);
                return Ok(());
            }
            if dlen < rest.len() {
                return Err(Error::Corrupt("compressed larger than decoded size"));
            }
            decode::minlz_decode(dst, dlen, rest)
        },
    }
}

/// Returns the length of what a chunk body decodes to, from its header alone.
pub fn decoded_len_chunk_body(body: &[u8]) -> (r: Result<usize, Error>)
    ensures
        (match chunk_decoded_len(body@) {
            Ok(n) => r == Ok::<usize, Error>(n as usize) && 0 <= n <= usize::MAX,
            Err(e) => r == Err::<usize, Error>(e),
        }),
{
    match split_chunk_body(body) {
        Err(e) => Err(e),
        Ok((dlen, rest)) => Ok(
            if dlen == 0 {
                rest.len()
            } else {
                dlen
            },
        ),
    }
}

/// The chunk body for `src`, if it is smaller than `src`.
pub open spec fn smaller_chunk(src: Seq<u8>, level: Level) -> Option<Seq<u8>> {
    match body_of(src, level) {
        None => None,
        Some(body) => {
            let chunk = format::uvarint(src.len()) + body;
            if chunk.len() < src.len() {
                Some(chunk)
            } else {
                None
            }
        },
    }
}

/// The chunk body for an input of up to 8 MiB decodes to it.
pub proof fn law_chunk_inverts(src: Seq<u8>, level: Level)
    requires
        src.len() <= MAX_BLOCK_SIZE,
    ensures
        smaller_chunk(src, level) matches Some(chunk) ==> chunk_decoded(chunk) == Ok::<
            Seq<u8>,
            Error,
        >(src),
{
    lemma_body_of(src, level);
    lemma_block_varint_len(src.len());
    if let Some(body) = body_of(src, level) {
        let v = format::uvarint(src.len());
        lemma_short(src, level);
        format::lemma_uvarint_roundtrip(src.len() as u64, body);
        assert((v + body).skip(v.len() as int) =~= body);
    }
}

/// Encodes `src` as a chunk body and appends it to `dst` if it gets smaller; says
/// whether it did. Otherwise, and for an input of fewer than sixteen bytes, `dst`
/// stays as it is.
pub fn append_encoded_chunk_body(dst: &mut Vec<u8>, src: &[u8], level: Level) -> (r: Result<
    bool,
    Error,
>)
    ensures
        src.len() > MAX_BLOCK_SIZE ==> r == Err::<bool, Error>(Error::TooLarge) && final(dst)@
            == old(dst)@,
        src.len() <= MAX_BLOCK_SIZE ==> (match smaller_chunk(src@, level) {
            None => r == Ok::<bool, Error>(false) && final(dst)@ == old(dst)@,
            Some(chunk) => {
                &&& r == Ok::<bool, Error>(true)
                &&& final(dst)@ == old(dst)@ + chunk
                &&& chunk_decoded(chunk) == Ok::<Seq<u8>, Error>(src@)
                &&& chunk_header_of(chunk) == Ok::<(int, int), Error>(
                    (src@.len() as int, format::uvarint(src@.len()).len() as int),
                )
            },
        }),
        src.len() < MIN_NON_LITERAL_BLOCK_SIZE ==> r == Ok::<bool, Error>(false),
        encode::is_constant(src@) && 32 <= src.len() <= MAX_BLOCK_SIZE ==> r == Ok::<bool, Error>(
            true,
        ),
{
    let start: usize = dst.len();
    proof {
        lemma_short(src@, level);
    }
    if src.len() < MIN_NON_LITERAL_BLOCK_SIZE {
        return Ok(false);
    }
    if src.len() > MAX_BLOCK_SIZE {
        return Err(Error::TooLarge);
    }
    put_uvarint(dst, src.len() as u64);
    let ghost before = dst@;
    let head: usize = dst.len() - start;
    let n: usize = encode_body(dst, src, level);
    proof {
        lemma_block_varint_len(src@.len());
    }
    if n > 0 && n < src.len() && head < src.len() - n {
        proof {
            let v = format::uvarint(src@.len());
            let body = body_of(src@, level)->0;
            assert(dst@.skip(before.len() as int) =~= body);
            assert(dst@ =~= old(dst)@ + (v + body));
            format::lemma_uvarint_roundtrip(src@.len() as u64, body);
            assert((v + body).skip(v.len() as int) =~= body);
        }
        Ok(true)
    } else {
        assert(dst@.take(before.len() as int).take(start as int) =~= dst@.take(start as int));
        dst.truncate(start);
        assert(dst@ =~= old(dst)@);
        Ok(false)
    }
}

} // verus!
