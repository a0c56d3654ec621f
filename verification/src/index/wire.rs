//! The wire format of an index: signed variable-length numbers, delta-encoded
//! offsets, and the envelope around them.
use crate::block;
use crate::block::format::{get_uvarint, put_uvarint};
use crate::block::emit;
use crate::block::load_store::{append_slice, store24, store32};
use crate::index::{Error, IndexView, OffsetPair, CHUNK_TYPE_INDEX};
use vstd::prelude::*;
use vstd::slice::slice_subrange;

verus! {

/// A signed number as an unsigned one: small magnitudes stay small.
pub open spec fn zigzag(v: int) -> nat {
    if v >= 0 {
        (2 * v) as nat
    } else {
        (-2 * v - 1) as nat
    }
}

/// The signed number that [`zigzag`] maps to `u`.
pub open spec fn unzigzag(u: nat) -> int {
    if u % 2 == 0 {
        u as int / 2
    } else {
        -(u as int / 2) - 1
    }
}

/// The encoding of a signed number.
#[verifier::opaque]
pub open spec fn varint(v: int) -> Seq<u8> {
    block::format::uvarint(zigzag(v))
}

/// Why there is no number at the head of `s`: it is cut off, or too large.
pub open spec fn varint_error(s: Seq<u8>) -> Error {
    if s.len() <= 10 && (forall|i: int| 0 <= i < s.len() ==> (#[trigger] s[i]) >= 128) {
        Error::Truncated
    } else {
        Error::Invalid("varint overflow")
    }
}

/// The signed number at the head of `s` and its length.
#[verifier::opaque]
pub open spec fn parse_varint(s: Seq<u8>) -> Result<(int, int), Error> {
    match block::format::parse_uvarint(s) {
        Some((u, n)) => Ok((unzigzag(u), n as int)),
        None => Err(varint_error(s)),
    }
}

/// Encodings one after the other.
pub open spec fn varints(ds: Seq<int>) -> Seq<u8>
    decreases ds.len(),
{
    if ds.len() == 0 {
        Seq::empty()
    } else {
        varints(ds.drop_last()) + varint(ds.last())
    }
}

/// A number that fits in 64 bits with its sign.
pub open spec fn fits(v: int) -> bool {
    i64::MIN <= v <= i64::MAX
}

/// Signed and unsigned form give each other back.
pub proof fn law_zigzag(v: int, u: nat)
    ensures
        unzigzag(zigzag(v)) == v,
        zigzag(unzigzag(u)) == u,
        fits(v) <==> zigzag(v) <= u64::MAX,
        u <= u64::MAX ==> fits(unzigzag(u)),
{
}

/// Writing a signed number and reading it back gives the number.
pub proof fn law_varint_roundtrip(v: int, tail: Seq<u8>)
    requires
        fits(v),
    ensures
        parse_varint(varint(v) + tail) == Ok::<(int, int), Error>((v, varint(v).len() as int)),
        1 <= varint(v).len() <= 10,
{
    reveal(varint);
    reveal(parse_varint);
    law_zigzag(v, 0);
    block::format::lemma_uvarint_roundtrip(zigzag(v) as u64, tail);
    block::format::lemma_parse_uvarint_bounds(varint(v) + tail);
}

/// The first of several encodings.
pub proof fn lemma_varints_first(ds: Seq<int>)
    requires
        ds.len() > 0,
    ensures
        varints(ds) == varint(ds[0]) + varints(ds.skip(1)),
    decreases ds.len(),
{
    if ds.len() == 1 {
        assert(ds.drop_last() =~= Seq::<int>::empty());
        assert(ds.skip(1) =~= Seq::<int>::empty());
        assert(varints(ds) =~= varint(ds[0]) + varints(ds.skip(1)));
    } else {
        lemma_varints_first(ds.drop_last());
        assert(ds.skip(1).drop_last() =~= ds.drop_last().skip(1));
        assert(varints(ds) =~= varint(ds[0]) + varints(ds.skip(1)));
    }
}

/// The size of several encodings.
pub proof fn lemma_varints_len(ds: Seq<int>)
    requires
        forall|i: int| 0 <= i < ds.len() ==> fits(#[trigger] ds[i]),
    ensures
        ds.len() <= varints(ds).len() <= 10 * ds.len(),
    decreases ds.len(),
{
    if ds.len() > 0 {
        lemma_varints_len(ds.drop_last());
        law_varint_roundtrip(ds.last(), Seq::empty());
    }
}

/// Appends a signed number.
pub fn put_varint(buf: &mut Vec<u8>, v: i64)
    ensures
        final(buf)@ == old(buf)@ + varint(v as int),
{
    let zz: u64 = if v >= 0 {
        2 * (v as u64)
    } else {
        2 * ((-(v + 1)) as u64) + 1
    };
    put_uvarint(buf, zz);
    proof {
        reveal(varint);
    }
}

/// Reads an unsigned number from the head of `b`; tells a number that is cut off
/// from one that is too large.
pub fn read_uvarint(b: &[u8]) -> (r: Result<(u64, usize), Error>)
    ensures
        (match r {
            Ok((u, n)) => block::format::parse_uvarint(b@) == Some((u as nat, n as nat)) && 1 <= n
                <= b.len() && n <= 10,
            Err(e) => block::format::parse_uvarint(b@) is None && e == varint_error(b@),
        }),
{
    match get_uvarint(b) {
        Some((u, n)) => Ok((u, n)),
        None => {
            if b.len() > 10 {
                return Err(Error::Invalid("varint overflow"));
            }
            let mut i: usize = 0;
            while i < b.len()
                invariant
                    i <= b.len() <= 10,
                    block::format::parse_uvarint(b@) is None,
                    forall|k: int| 0 <= k < i ==> (#[trigger] b@[k]) >= 128,
                decreases b.len() - i,
            {
                if b[i] < 128 {
                    return Err(Error::Invalid("varint overflow"));
                }
                i = i + 1;
            }
            Err(Error::Truncated)
        },
    }
}

/// Reads a signed number from the head of `b`.
pub fn read_varint(b: &[u8]) -> (r: Result<(i64, usize), Error>)
    ensures
        (match r {
            Ok((v, n)) => parse_varint(b@) == Ok::<(int, int), Error>((v as int, n as int)) && 1
                <= n <= b.len(),
            Err(e) => parse_varint(b@) == Err::<(int, int), Error>(e),
        }),
{
    proof {
        reveal(parse_varint);
    }
    match read_uvarint(b) {
        Ok((u, n)) => {
            let v: i64 = if u % 2 == 0 {
                (u / 2) as i64
            } else {
                -((u / 2) as i64) - 1
            };
            Ok((v, n))
        },
        Err(e) => Err(e),
    }
}

/// Half of `x`, rounded towards zero.
pub open spec fn half(x: i64) -> i64 {
    if x >= 0 {
        (x as int / 2) as i64
    } else {
        (-((-x) as int / 2)) as i64
    }
}

/// Half of `x`, rounded towards zero.
pub fn halved(x: i64) -> (r: i64)
    ensures
        r == half(x),
        x >= 0 ==> 0 <= x - 2 * r <= 1,
        x <= 0 ==> -1 <= x - 2 * r <= 0,
{
    if x >= 0 {
        x / 2
    } else if x == i64::MIN {
        -0x4000_0000_0000_0000
    } else {
        -((-x) / 2)
    }
}

/// What is written of the uncompressed offset of entry `i`: by how much it misses
/// the expected distance from the entry before.
pub open spec fn u_delta(s: Seq<OffsetPair>, est: u64, i: int) -> i64 {
    if i == 0 {
        s[0].uncompressed as i64
    } else {
        (s[i].uncompressed as i64).wrapping_sub(
            (s[i - 1].uncompressed as i64).wrapping_add(est as i64),
        )
    }
}

/// The distance expected between the compressed offsets of entry `i` and of the one
/// before: half the uncompressed distance at first, then corrected by half of each
/// miss.
pub open spec fn predict(s: Seq<OffsetPair>, est: u64, i: int) -> i64
    decreases i,
{
    if i <= 1 {
        (est as int / 2) as i64
    } else {
        let p = predict(s, est, i - 1);
        let miss = (s[i - 1].compressed as i64).wrapping_sub(
            (s[i - 2].compressed as i64).wrapping_add(p),
        );
        p.wrapping_add(half(miss))
    }
}

/// What is written of the compressed offset of entry `i`: by how much it misses the
/// expected distance from the entry before.
pub open spec fn c_delta(s: Seq<OffsetPair>, est: u64, i: int) -> i64 {
    if i == 0 {
        s[0].compressed as i64
    } else {
        (s[i].compressed as i64).wrapping_sub(
            (s[i - 1].compressed as i64).wrapping_add(predict(s, est, i)),
        )
    }
}

/// All that is written of the uncompressed offsets.
pub open spec fn u_deltas(s: Seq<OffsetPair>, est: u64) -> Seq<int> {
    Seq::new(s.len(), |i: int| u_delta(s, est, i) as int)
}

/// All that is written of the compressed offsets.
pub open spec fn c_deltas(s: Seq<OffsetPair>, est: u64) -> Seq<int> {
    Seq::new(s.len(), |i: int| c_delta(s, est, i) as int)
}

/// Entry `i` has the expected distance from the entry before.
pub open spec fn follows(s: Seq<OffsetPair>, est: u64, i: int) -> bool {
    s[i].uncompressed == s[i - 1].uncompressed.wrapping_add(est)
}

/// The uncompressed offsets start at zero and have the expected distance
/// throughout: they need not be written.
pub open spec fn is_regular(s: Seq<OffsetPair>, est: u64) -> bool {
    &&& s.len() > 0 ==> s[0].uncompressed == 0
    &&& forall|i: int| 0 < i < s.len() ==> #[trigger] follows(s, est, i)
}

/// Offsets and distance small enough that no sum over them overflows.
pub open spec fn small(s: Seq<OffsetPair>, est: u64) -> bool {
    &&& est < 0x1000_0000_0000_0000
    &&& forall|i: int|
        0 <= i < s.len() ==> (#[trigger] s[i]).compressed < 0x1000_0000_0000_0000
            && s[i].uncompressed < 0x1000_0000_0000_0000
}

proof fn lemma_small_predict(s: Seq<OffsetPair>, est: u64, i: int)
    requires
        small(s, est),
        1 <= i <= s.len(),
    ensures
        -0x2000_0000_0000_0000 < predict(s, est, i) < 0x2000_0000_0000_0000,
    decreases i,
{
    if i > 1 {
        lemma_small_predict(s, est, i - 1);
        let a = s[i - 1];
        let b = s[i - 2];
    }
}

/// What is written of entries. The first one is written as it is. Of every other one it is
/// written how far it lies from where it is expected: behind the entry before it, by the
/// distance for the uncompressed offset, and by a prediction for the compressed one. The
/// first prediction is half the distance; after each entry it moves by half of what was
/// written, rounded towards zero.
pub proof fn law_deltas(s: Seq<OffsetPair>, est: u64, i: int)
    requires
        small(s, est),
        0 <= i < s.len(),
    ensures
        u_deltas(s, est)[0] == s[0].uncompressed,
        c_deltas(s, est)[0] == s[0].compressed,
        2 * predict(s, est, 1) <= est <= 2 * predict(s, est, 1) + 1,
        i > 0 ==> ({
            let expected = s[i - 1].compressed + predict(s, est, i);
            let written = c_deltas(s, est)[i];
            let moved = predict(s, est, i + 1) - predict(s, est, i);
            &&& u_deltas(s, est)[i] == s[i].uncompressed - s[i - 1].uncompressed - est
            &&& expected + written == s[i].compressed
            &&& written >= 0 ==> 2 * moved <= written <= 2 * moved + 1
            &&& written <= 0 ==> 2 * moved - 1 <= written <= 2 * moved
        }),
{
    if i > 0 {
        lemma_small_predict(s, est, i);
        lemma_small_predict(s, est, i + 1);
        let a = s[i];
        let b = s[i - 1];
    }
}

/// A total as it is written: minus one where it is not known.
pub open spec fn opt_wire(v: Option<u64>) -> i64 {
    match v {
        Some(x) => x as i64,
        None => (-1) as i64,
    }
}

/// The total that a written number stands for.
pub open spec fn wire_opt(v: int) -> Option<u64> {
    if v < 0 {
        None
    } else {
        Some(v as u64)
    }
}

/// An index without its envelope.
#[verifier::opaque]
pub open spec fn payload(v: IndexView) -> Seq<u8> {
    let est = v.est_block_uncomp;
    let regular = is_regular(v.offsets, est);
    varint(opt_wire(v.total_uncompressed) as int) + varint(opt_wire(v.total_compressed) as int)
        + varint(est as i64 as int) + varint(v.offsets.len() as int) + seq![
        if regular {
            0u8
        } else {
            1u8
        },
    ] + (if regular {
        Seq::empty()
    } else {
        varints(u_deltas(v.offsets, est))
    }) + varints(c_deltas(v.offsets, est))
}

/// The six bytes in front of a payload.
pub open spec fn index_header() -> Seq<u8> {
    seq![0x73u8, 0x32u8, 0x69u8, 0x64u8, 0x78u8, 0u8]
}

/// The six bytes at the end of an index.
pub open spec fn index_trailer() -> Seq<u8> {
    seq![0u8, 0x78u8, 0x64u8, 0x69u8, 0x32u8, 0x73u8]
}

/// An index with its envelope: a chunk header, the six bytes in front, the payload,
/// the size of all of it, and the six bytes at the end.
pub open spec fn index_chunk(p: Seq<u8>) -> Seq<u8> {
    seq![CHUNK_TYPE_INDEX] + emit::le24_bytes((p.len() as int + 16) % 0x100_0000) + index_header() + p
        + emit::le32_bytes((p.len() as int + 20) % 0x1_0000_0000) + index_trailer()
}

/// Maps a total to what is written of it.
pub fn opt_to_wire(v: Option<u64>) -> (r: i64)
    ensures
        r == opt_wire(v),
{
    match v {
        Some(x) => x as i64,
        None => -1,
    }
}

/// Maps a written number to the total that it stands for.
pub fn wire_to_opt(v: i64) -> (r: Option<u64>)
    ensures
        r == wire_opt(v as int),
{
    if v < 0 {
        None
    } else {
        Some(v as u64)
    }
}

/// A total that fits is read back as written; an unknown one too.
pub proof fn law_total_roundtrip(v: Option<u64>)
    requires
        v matches Some(x) ==> x <= i64::MAX,
    ensures
        wire_opt(opt_wire(v) as int) == v,
{
}

/// Appends the six bytes in front of a payload.
fn put_header(buf: &mut Vec<u8>)
    ensures
        final(buf)@ == old(buf)@ + index_header(),
{
    buf.push(0x73);
    buf.push(0x32);
    buf.push(0x69);
    buf.push(0x64);
    buf.push(0x78);
    buf.push(0);
    assert(buf@ =~= old(buf)@ + index_header());
}

/// Appends the six bytes at the end of an index.
fn put_trailer(buf: &mut Vec<u8>)
    ensures
        final(buf)@ == old(buf)@ + index_trailer(),
{
    buf.push(0);
    buf.push(0x78);
    buf.push(0x64);
    buf.push(0x69);
    buf.push(0x32);
    buf.push(0x73);
    assert(buf@ =~= old(buf)@ + index_trailer());
}

/// Whether the six bytes in front of a payload stand at `at`.
pub fn is_header_at(b: &[u8], at: usize) -> (r: bool)
    requires
        at + 6 <= b.len(),
    ensures
        r <==> b@.subrange(at as int, at + 6) == index_header(),
{
    let r = b[at] == 0x73 && b[at + 1] == 0x32 && b[at + 2] == 0x69 && b[at + 3] == 0x64 && b[at
        + 4] == 0x78 && b[at + 5] == 0;
    proof {
        let t = b@.subrange(at as int, at + 6);
        if r {
            assert(t =~= index_header());
        } else {
            assert(t[0] == b@[at as int] && t[1] == b@[at + 1] && t[2] == b@[at + 2] && t[3] == b@[at
                + 3] && t[4] == b@[at + 4] && t[5] == b@[at + 5]);
        }
    }
    r
}

/// Whether the six bytes at the end of an index stand at `at`.
pub fn is_trailer_at(b: &[u8], at: usize) -> (r: bool)
    requires
        at + 6 <= b.len(),
    ensures
        r <==> b@.subrange(at as int, at + 6) == index_trailer(),
{
    let r = b[at] == 0 && b[at + 1] == 0x78 && b[at + 2] == 0x64 && b[at + 3] == 0x69 && b[at + 4]
        == 0x32 && b[at + 5] == 0x73;
    proof {
        let t = b@.subrange(at as int, at + 6);
        if r {
            assert(t =~= index_trailer());
        } else {
            assert(t[0] == b@[at as int] && t[1] == b@[at + 1] && t[2] == b@[at + 2] && t[3] == b@[at
                + 3] && t[4] == b@[at + 4] && t[5] == b@[at + 5]);
        }
    }
    r
}

/// Wraps a payload into its envelope; nothing for an empty payload.
pub fn restore_index_headers(input: &[u8]) -> (r: Vec<u8>)
    requires
        input.len() + 20 <= usize::MAX,
    ensures
        input.len() == 0 ==> r@ == Seq::<u8>::empty(),
        input.len() > 0 ==> r@ == index_chunk(input@),
{
    let mut b: Vec<u8> = Vec::new();
    if input.len() == 0 {
        return b;
    }
    b.push(CHUNK_TYPE_INDEX);
    store24(&mut b, (input.len() + 16) % 0x100_0000);
    put_header(&mut b);
    append_slice(&mut b, input);
    store32(&mut b, ((input.len() + 20) as u64 % 0x1_0000_0000) as u32);
    put_trailer(&mut b);
    assert(b@ =~= index_chunk(input@));
    b
}

/// The payload in an index chunk, where it is well-formed.
pub open spec fn unwrapped(b: Seq<u8>) -> Option<Seq<u8>> {
    if b.len() <= 20 || b[0] != CHUNK_TYPE_INDEX {
        None
    } else {
        let n = b[1] + 256 * b[2] + 65536 * b[3];
        if b.len() - 4 < n || n < 16 || b.subrange(4, 10) != index_header() || b.subrange(
            n - 2,
            n + 4,
        ) != index_trailer() {
            None
        } else {
            Some(b.subrange(10, n - 6))
        }
    }
}

/// Strips the envelope from an index chunk; `None` where it is malformed.
pub fn remove_index_headers(b: &[u8]) -> (r: Option<&[u8]>)
    ensures
        (match r {
            Some(p) => unwrapped(b@) == Some(p@),
            None => unwrapped(b@) is None,
        }),
{
    if b.len() <= 20 {
        return None;
    }
    if b[0] != CHUNK_TYPE_INDEX {
        return None;
    }
    let n: usize = b[1] as usize + 256 * b[2] as usize + 65536 * b[3] as usize;
    if b.len() - 4 < n || n < 16 {
        return None;
    }
    if !is_header_at(b, 4) || !is_trailer_at(b, n - 2) {
        return None;
    }
    Some(slice_subrange(b, 10, n - 6))
}

/// Stripping the envelope that was put on gives back the payload.
pub proof fn law_unwrap_inverts_wrap(p: Seq<u8>)
    requires
        0 < p.len(),
        p.len() + 16 < 0x100_0000,
    ensures
        unwrapped(index_chunk(p)) == Some(p),
{
    let b = index_chunk(p);
    let n = p.len() as int + 16;
    assert(b.len() == p.len() + 20);
    assert(b[1] + 256 * b[2] + 65536 * b[3] == n);
    assert(b.subrange(4, 10) =~= index_header());
    assert(b.subrange(n - 2, n + 4) =~= index_trailer());
    assert(b.subrange(10, n - 6) =~= p);
}

} // verus!
