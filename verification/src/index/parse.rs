//! Reading an index: what each byte string stands for, and that reading gives back
//! what was written.
use crate::index;
use crate::index::wire;
use crate::index::{
    Error, IndexView, OffsetPair, CHUNK_TYPE_INDEX, LEGACY_INDEX_CHUNK, MAX_INDEX_ENTRIES,
};
use vstd::prelude::*;

verus! {

/// Reads the uncompressed offset behind those in `acc`; where it is not written, it has
/// the expected distance from the one before. Gives it with the number of bytes read.
pub open spec fn next_uncompressed(
    s: Seq<u8>,
    acc: Seq<int>,
    written: bool,
    est: int,
) -> Result<(int, int), Error> {
    let head: Result<(int, int), Error> = if written {
        wire::parse_varint(s)
    } else {
        Ok((0, 0))
    };
    match head {
        Err(e) => Err(e),
        Ok((d, k)) => {
            let u = if acc.len() == 0 {
                d
            } else {
                d + acc.last() + est
            };
            if acc.len() > 0 && (!wire::fits(acc.last() + est) || !wire::fits(u)) {
                Err(Error::Invalid("uncompressed offset overflow"))
            } else if acc.len() > 0 && u <= acc.last() {
                Err(Error::Invalid("non-monotonic uncompressed offset"))
            } else if u < 0 {
                Err(Error::Invalid("negative uncompressed offset"))
            } else {
                Ok((u, k))
            }
        },
    }
}

/// Reads the uncompressed offsets behind those in `acc` up to `n` of them. Gives them
/// with the bytes left over.
pub open spec fn parse_uncompressed(
    s: Seq<u8>,
    acc: Seq<int>,
    n: int,
    written: bool,
    est: int,
) -> Result<(Seq<int>, Seq<u8>), Error>
    decreases n - acc.len(),
{
    if acc.len() >= n {
        Ok((acc, s))
    } else {
        match next_uncompressed(s, acc, written, est) {
            Err(e) => Err(e),
            Ok((u, k)) => parse_uncompressed(s.skip(k), acc.push(u), n, written, est),
        }
    }
}

/// The uncompressed offsets up to `n` of them, or to the first fault.
pub open spec fn some_uncompressed(
    s: Seq<u8>,
    acc: Seq<int>,
    n: int,
    written: bool,
    est: int,
) -> Seq<int>
    decreases n - acc.len(),
{
    if acc.len() >= n {
        acc
    } else {
        match next_uncompressed(s, acc, written, est) {
            Err(_) => acc,
            Ok((u, k)) => some_uncompressed(s.skip(k), acc.push(u), n, written, est),
        }
    }
}

/// Half of `x`, rounded towards zero.
pub open spec fn half_of(x: int) -> int {
    if x >= 0 {
        x / 2
    } else {
        -((-x) / 2)
    }
}

/// Reads the compressed offset behind those in `acc`, where its distance is expected to
/// be `predict`. Gives it with the number of bytes read and the distance that is expected
/// next.
pub open spec fn next_compressed(s: Seq<u8>, acc: Seq<int>, predict: int) -> Result<
    (int, int, int),
    Error,
> {
    match wire::parse_varint(s) {
        Err(e) => Err(e),
        Ok((d, k)) => {
            let next = if acc.len() == 0 {
                predict
            } else {
                predict + half_of(d)
            };
            let c = if acc.len() == 0 {
                d
            } else {
                d + acc.last() + predict
            };
            if acc.len() > 0 && !wire::fits(next) {
                Err(Error::Invalid("compressed predictor overflow"))
            } else if acc.len() > 0 && (!wire::fits(acc.last() + predict) || !wire::fits(c)) {
                Err(Error::Invalid("compressed offset overflow"))
            } else if acc.len() > 0 && c <= acc.last() {
                Err(Error::Invalid("non-monotonic compressed offset"))
            } else if c < 0 {
                Err(Error::Invalid("negative compressed offset"))
            } else {
                Ok((c, k, next))
            }
        },
    }
}

/// Reads the compressed offsets behind those in `acc` up to `n` of them, where the
/// next distance is expected to be `predict`.
pub open spec fn parse_compressed(s: Seq<u8>, acc: Seq<int>, n: int, predict: int) -> Result<
    (Seq<int>, Seq<u8>),
    Error,
>
    decreases n - acc.len(),
{
    if acc.len() >= n {
        Ok((acc, s))
    } else {
        match next_compressed(s, acc, predict) {
            Err(e) => Err(e),
            Ok((c, k, next)) => parse_compressed(s.skip(k), acc.push(c), n, next),
        }
    }
}

/// The compressed offsets up to `n` of them, or to the first fault.
pub open spec fn some_compressed(s: Seq<u8>, acc: Seq<int>, n: int, predict: int) -> Seq<int>
    decreases n - acc.len(),
{
    if acc.len() >= n {
        acc
    } else {
        match next_compressed(s, acc, predict) {
            Err(_) => acc,
            Ok((c, k, next)) => some_compressed(s.skip(k), acc.push(c), n, next),
        }
    }
}

/// What is read as the number `d` at the head of `s`. As the first compressed offset it is
/// the offset. Behind others it is how far the offset lies from where it is expected: behind
/// the last one, by the prediction. That then moves by half of the number, rounded towards
/// zero.
pub proof fn law_next_compressed(s: Seq<u8>, acc: Seq<int>, predict: int, d: int)
    requires
        wire::parse_varint(s) is Ok,
        (wire::parse_varint(s)->Ok_0).0 == d,
    ensures
        next_compressed(s, acc, predict) matches Ok((c, k, next)) ==> {
            &&& c >= 0
            &&& acc.len() == 0 ==> c == d && next == predict
            &&& acc.len() > 0 ==> c == acc.last() + predict + d && c > acc.last()
            &&& acc.len() > 0 && d >= 0 ==> 2 * (next - predict) <= d <= 2 * (next - predict) + 1
            &&& acc.len() > 0 && d <= 0 ==> 2 * (next - predict) - 1 <= d <= 2 * (next - predict)
        },
{
}

/// What is read as the number `d` at the head of `s`. As the first uncompressed offset it is
/// the offset. Behind others it is how far the offset lies from where it is expected: behind
/// the last one, by the distance. Where none is written, it lies where it is expected.
pub proof fn law_next_uncompressed(s: Seq<u8>, acc: Seq<int>, written: bool, est: int)
    ensures
        next_uncompressed(s, acc, written, est) matches Ok((u, k)) ==> {
            let d = if written {
                (wire::parse_varint(s)->Ok_0).0
            } else {
                0
            };
            &&& u >= 0
            &&& written ==> wire::parse_varint(s) is Ok
            &&& !written ==> k == 0
            &&& acc.len() == 0 ==> u == d
            &&& acc.len() > 0 ==> u == acc.last() + est + d && u > acc.last()
        },
{
}

/// Entries from their offsets.
pub open spec fn paired(us: Seq<int>, cs: Seq<int>) -> Seq<OffsetPair> {
    Seq::new(
        us.len(),
        |i: int| OffsetPair { compressed: cs[i] as u64, uncompressed: us[i] as u64 },
    )
}

/// Reads what follows the totals, the distance and the number of entries.
#[verifier::opaque]
pub open spec fn parse_entries(b: Seq<u8>, n: int, est: int) -> Result<
    (Seq<OffsetPair>, Seq<u8>),
    Error,
> {
    if b.len() == 0 {
        Err(Error::Truncated)
    } else if b[0] > 1 {
        Err(Error::BadFormat("invalid has_uncompressed byte"))
    } else {
        match parse_uncompressed(b.skip(1), Seq::empty(), n, b[0] == 1, est) {
            Err(e) => Err(e),
            Ok((us, b2)) => match parse_compressed(b2, Seq::empty(), n, est / 2) {
                Err(e) => Err(e),
                Ok((cs, b3)) => if b3.len() < 10 {
                    Err(Error::Truncated)
                } else if b3.subrange(4, 10) != wire::index_trailer() {
                    Err(Error::BadFormat("bad trailer"))
                } else {
                    Ok((paired(us, cs), b3.skip(10)))
                },
            },
        }
    }
}

/// Reads a payload and the trailer behind it.
#[verifier::opaque]
pub open spec fn parse_payload(b0: Seq<u8>) -> Result<(IndexView, Seq<u8>), Error> {
    match wire::parse_varint(b0) {
        Err(e) => Err(e),
        Ok((tu, n0)) => if tu < 0 {
            Err(Error::Invalid("negative total uncompressed"))
        } else {
            let b1 = b0.skip(n0);
            match wire::parse_varint(b1) {
                Err(e) => Err(e),
                Ok((tc, n1)) => {
                    let b2 = b1.skip(n1);
                    match wire::parse_varint(b2) {
                        Err(e) => Err(e),
                        Ok((est, n2)) => if est < 0 {
                            Err(Error::Invalid("negative est_block"))
                        } else {
                            let b3 = b2.skip(n2);
                            match wire::parse_varint(b3) {
                                Err(e) => Err(e),
                                Ok((n, n3)) => if n < 0 || n > MAX_INDEX_ENTRIES {
                                    Err(Error::Invalid("entry count out of range"))
                                } else {
                                    match parse_entries(b3.skip(n3), n, est) {
                                        Err(e) => Err(e),
                                        Ok((offsets, rest)) => Ok(
                                            (
                                                IndexView {
                                                    total_uncompressed: Some(tu as u64),
                                                    total_compressed: wire::wire_opt(tc),
                                                    offsets,
                                                    est_block_uncomp: est as u64,
                                                },
                                                rest,
                                            ),
                                        ),
                                    }
                                },
                            }
                        },
                    }
                },
            }
        },
    }
}

/// `n` entries of which only these offsets were read.
pub open spec fn paired_so_far(us: Seq<int>, cs: Seq<int>, n: int) -> Seq<OffsetPair> {
    Seq::new(
        n as nat,
        |i: int|
            OffsetPair {
                compressed: if i < cs.len() {
                    cs[i] as u64
                } else {
                    0
                },
                uncompressed: if i < us.len() {
                    us[i] as u64
                } else {
                    0
                },
            },
    )
}

/// What is known of `n` entries when all that can be read of them was read.
#[verifier::opaque]
pub open spec fn some_entries(b: Seq<u8>, n: int, est: int) -> Seq<OffsetPair> {
    if b.len() == 0 || b[0] > 1 {
        paired_so_far(Seq::empty(), Seq::empty(), n)
    } else {
        let us = some_uncompressed(b.skip(1), Seq::empty(), n, b[0] == 1, est);
        match parse_uncompressed(b.skip(1), Seq::empty(), n, b[0] == 1, est) {
            Err(_) => paired_so_far(us, Seq::empty(), n),
            Ok((_, b2)) => paired_so_far(us, some_compressed(b2, Seq::empty(), n, est / 2), n),
        }
    }
}

/// What becomes of the index `v` when all that can be read of a payload is loaded into
/// it.
#[verifier::opaque]
pub open spec fn loaded_payload(v: IndexView, b0: Seq<u8>) -> IndexView {
    match wire::parse_varint(b0) {
        Err(_) => v,
        Ok((tu, n0)) => if tu < 0 {
            v
        } else {
            let v1 = IndexView { total_uncompressed: Some(tu as u64), ..v };
            let b1 = b0.skip(n0);
            match wire::parse_varint(b1) {
                Err(_) => v1,
                Ok((tc, n1)) => {
                    let v2 = IndexView { total_compressed: wire::wire_opt(tc), ..v1 };
                    let b2 = b1.skip(n1);
                    match wire::parse_varint(b2) {
                        Err(_) => v2,
                        Ok((est, n2)) => if est < 0 {
                            v2
                        } else {
                            let v3 = IndexView { est_block_uncomp: est as u64, ..v2 };
                            let b3 = b2.skip(n2);
                            match wire::parse_varint(b3) {
                                Err(_) => v3,
                                Ok((n, n3)) => if n < 0 || n > MAX_INDEX_ENTRIES {
                                    v3
                                } else {
                                    IndexView {
                                        offsets: some_entries(b3.skip(n3), n, est),
                                        ..v3
                                    }
                                },
                            }
                        },
                    }
                },
            }
        },
    }
}

/// What becomes of the index `v` when all that can be read of an index chunk is loaded
/// into it.
pub open spec fn loaded(v: IndexView, b: Seq<u8>) -> IndexView {
    if b.len() <= 16 || (b[0] != CHUNK_TYPE_INDEX && b[0] != LEGACY_INDEX_CHUNK) {
        v
    } else if b.len() - 4 < b[1] + 256 * b[2] + 65536 * b[3] || b.subrange(4, 10)
        != wire::index_header() {
        v
    } else {
        loaded_payload(v, b.skip(10))
    }
}

/// Reads an index chunk: what it holds, and the bytes behind it.
pub open spec fn parse_index(b: Seq<u8>) -> Result<(IndexView, Seq<u8>), Error> {
    if b.len() <= 16 {
        Err(Error::Truncated)
    } else if b[0] != CHUNK_TYPE_INDEX && b[0] != LEGACY_INDEX_CHUNK {
        Err(Error::BadFormat("bad chunk type"))
    } else if b.len() - 4 < b[1] + 256 * b[2] + 65536 * b[3] {
        Err(Error::Truncated)
    } else if b.subrange(4, 10) != wire::index_header() {
        Err(Error::BadFormat("bad header"))
    } else {
        parse_payload(b.skip(10))
    }
}

/// The uncompressed offsets of entries.
pub open spec fn uncompressed_of(s: Seq<OffsetPair>) -> Seq<int> {
    Seq::new(s.len(), |i: int| s[i].uncompressed as int)
}

/// The compressed offsets of entries.
pub open spec fn compressed_of(s: Seq<OffsetPair>) -> Seq<int> {
    Seq::new(s.len(), |i: int| s[i].compressed as int)
}

/// The sums that writing and reading entry `i` take fit in 64 bits.
pub open spec fn sums_fit(s: Seq<OffsetPair>, est: u64, i: int) -> bool {
    let p = wire::predict(s, est, i);
    let c = s[i].compressed - (s[i - 1].compressed + p);
    &&& wire::fits(s[i - 1].uncompressed + est)
    &&& wire::fits(s[i - 1].compressed + p)
    &&& wire::fits(c)
    &&& wire::fits(p + half_of(c))
}

/// The sums that writing and reading the entries take all fit in 64 bits.
pub open spec fn no_overflow(s: Seq<OffsetPair>, est: u64) -> bool {
    &&& est <= i64::MAX
    &&& forall|i: int| 0 < i < s.len() ==> #[trigger] sums_fit(s, est, i)
}

/// The compressed offsets grow from one entry to the next.
pub open spec fn compressed_grows(s: Seq<OffsetPair>) -> bool {
    forall|i: int, j: int|
        #![trigger s[i], s[j]]
        0 <= i < j < s.len() ==> s[i].compressed < s[j].compressed
}

proof fn lemma_uncompressed_roundtrip(s: Seq<OffsetPair>, est: u64, i: int, tail: Seq<u8>)
    requires
        index::in_order(s),
        no_overflow(s, est),
        0 <= i <= s.len(),
    ensures
        parse_uncompressed(
            wire::varints(wire::u_deltas(s, est).skip(i)) + tail,
            uncompressed_of(s).take(i),
            s.len() as int,
            true,
            est as int,
        ) == Ok::<(Seq<int>, Seq<u8>), Error>((uncompressed_of(s), tail)),
    decreases s.len() - i,
{
    let ds = wire::u_deltas(s, est);
    let us = uncompressed_of(s);
    let acc = us.take(i);
    if i == s.len() {
        assert(ds.skip(i) =~= Seq::<int>::empty());
        assert(wire::varints(ds.skip(i)) + tail =~= tail);
        assert(acc =~= us);
    } else {
        let rest = wire::varints(ds.skip(i + 1)) + tail;
        let b = wire::varints(ds.skip(i)) + tail;
        let d = ds[i];
        assert(b == wire::varint(d) + rest) by {
            wire::lemma_varints_first(ds.skip(i));
            assert(ds.skip(i).skip(1) =~= ds.skip(i + 1));
            assert(b =~= wire::varint(d) + rest);
        }
        wire::law_varint_roundtrip(d, rest);
        assert(b.skip(wire::varint(d).len() as int) =~= rest);
        lemma_uncompressed_roundtrip(s, est, i + 1, tail);
        assert(acc.push(us[i]) =~= us.take(i + 1));
        if i > 0 {
            assert(sums_fit(s, est, i));
            assert(s[i].uncompressed > s[i - 1].uncompressed);
            assert(acc.last() == s[i - 1].uncompressed);
            assert(d + acc.last() + est == us[i]);
        }
        assert(parse_uncompressed(b, acc, s.len() as int, true, est as int) == parse_uncompressed(
            rest,
            acc.push(us[i]),
            s.len() as int,
            true,
            est as int,
        ));
    }
}

proof fn lemma_uncompressed_implied(s: Seq<OffsetPair>, est: u64, i: int, tail: Seq<u8>)
    requires
        index::in_order(s),
        no_overflow(s, est),
        wire::is_regular(s, est),
        0 <= i <= s.len(),
    ensures
        parse_uncompressed(tail, uncompressed_of(s).take(i), s.len() as int, false, est as int)
            == Ok::<(Seq<int>, Seq<u8>), Error>((uncompressed_of(s), tail)),
    decreases s.len() - i,
{
    let us = uncompressed_of(s);
    let acc = us.take(i);
    if i == s.len() {
        assert(acc =~= us);
    } else {
        assert(tail.skip(0) =~= tail);
        if i > 0 {
            assert(wire::follows(s, est, i));
            assert(sums_fit(s, est, i));
            assert(acc.last() == s[i - 1].uncompressed);
            assert(s[i].uncompressed > s[i - 1].uncompressed);
        }
        assert(acc.push(us[i]) =~= us.take(i + 1));
        lemma_uncompressed_implied(s, est, i + 1, tail);
    }
}

/// Without overflow, what is written is the plain difference.
proof fn lemma_predict_exact(s: Seq<OffsetPair>, est: u64, i: int)
    requires
        index::in_order(s),
        no_overflow(s, est),
        0 < i < s.len(),
    ensures
        wire::c_delta(s, est, i) == s[i].compressed - (s[i - 1].compressed + wire::predict(
            s,
            est,
            i,
        )),
        wire::predict(s, est, i + 1) == wire::predict(s, est, i) + half_of(
            wire::c_delta(s, est, i) as int,
        ),
{
    assert(sums_fit(s, est, i));
}

proof fn lemma_compressed_roundtrip(s: Seq<OffsetPair>, est: u64, i: int, tail: Seq<u8>)
    requires
        index::in_order(s),
        compressed_grows(s),
        no_overflow(s, est),
        0 <= i <= s.len(),
    ensures
        parse_compressed(
            wire::varints(wire::c_deltas(s, est).skip(i)) + tail,
            compressed_of(s).take(i),
            s.len() as int,
            wire::predict(s, est, i) as int,
        ) == Ok::<(Seq<int>, Seq<u8>), Error>((compressed_of(s), tail)),
    decreases s.len() - i,
{
    let ds = wire::c_deltas(s, est);
    let cs = compressed_of(s);
    let acc = cs.take(i);
    if i == s.len() {
        assert(ds.skip(i) =~= Seq::<int>::empty());
        assert(wire::varints(ds.skip(i)) + tail =~= tail);
        assert(acc =~= cs);
    } else {
        let rest = wire::varints(ds.skip(i + 1)) + tail;
        let b = wire::varints(ds.skip(i)) + tail;
        let d = ds[i];
        let p = wire::predict(s, est, i) as int;
        assert(b == wire::varint(d) + rest) by {
            wire::lemma_varints_first(ds.skip(i));
            assert(ds.skip(i).skip(1) =~= ds.skip(i + 1));
            assert(b =~= wire::varint(d) + rest);
        }
        wire::law_varint_roundtrip(d, rest);
        assert(b.skip(wire::varint(d).len() as int) =~= rest);
        let next = wire::predict(s, est, i + 1) as int;
        lemma_compressed_roundtrip(s, est, i + 1, tail);
        assert(acc.push(cs[i]) =~= cs.take(i + 1));
        if i > 0 {
            lemma_predict_exact(s, est, i);
            assert(acc.last() == s[i - 1].compressed);
            assert(s[i].compressed > s[i - 1].compressed);
            assert(sums_fit(s, est, i));
            assert(d + acc.last() + p == cs[i]);
        } else {
            assert(next == p);
        }
        assert(parse_compressed(b, acc, s.len() as int, p) == parse_compressed(
            rest,
            acc.push(cs[i]),
            s.len() as int,
            next,
        ));
    }
}

/// The bytes behind a payload: its size, the trailer, and what follows.
spec fn envelope_end(len: int, tail: Seq<u8>) -> Seq<u8> {
    crate::block::emit::le32_bytes(len) + wire::index_trailer() + tail
}

/// The entries of an index as they are written.
spec fn entry_bytes(s: Seq<OffsetPair>, est: u64) -> Seq<u8> {
    let regular = wire::is_regular(s, est);
    seq![
        if regular {
            0u8
        } else {
            1u8
        },
    ] + (if regular {
        Seq::empty()
    } else {
        wire::varints(wire::u_deltas(s, est))
    }) + wire::varints(wire::c_deltas(s, est))
}

proof fn lemma_entries_roundtrip(s: Seq<OffsetPair>, est: u64, len: int, tail: Seq<u8>)
    requires
        index::in_order(s),
        compressed_grows(s),
        no_overflow(s, est),
    ensures
        parse_entries(
            entry_bytes(s, est) + envelope_end(len, tail),
            s.len() as int,
            est as int,
        ) == Ok::<(Seq<OffsetPair>, Seq<u8>), Error>((s, tail)),
{
    reveal(parse_entries);
    let end = envelope_end(len, tail);
    let b = entry_bytes(s, est) + end;
    let cpart = wire::varints(wire::c_deltas(s, est)) + end;
    assert(uncompressed_of(s).take(0) =~= Seq::<int>::empty());
    assert(compressed_of(s).take(0) =~= Seq::<int>::empty());
    if wire::is_regular(s, est) {
        assert(b.skip(1) =~= cpart);
        lemma_uncompressed_implied(s, est, 0, cpart);
    } else {
        assert(b.skip(1) =~= wire::varints(wire::u_deltas(s, est)) + cpart);
        assert(wire::u_deltas(s, est).skip(0) =~= wire::u_deltas(s, est));
        lemma_uncompressed_roundtrip(s, est, 0, cpart);
    }
    assert(wire::c_deltas(s, est).skip(0) =~= wire::c_deltas(s, est));
    assert(wire::predict(s, est, 0) == est as int / 2);
    lemma_compressed_roundtrip(s, est, 0, end);
    assert(end.subrange(4, 10) =~= wire::index_trailer());
    assert(end.skip(10) =~= tail);
    assert(paired(uncompressed_of(s), compressed_of(s)) =~= s);
}

proof fn lemma_payload_parts(v: IndexView, end: Seq<u8>)
    ensures
        wire::payload(v) + end == wire::varint(wire::opt_wire(v.total_uncompressed) as int) + (
        wire::varint(wire::opt_wire(v.total_compressed) as int) + (wire::varint(
            v.est_block_uncomp as i64 as int,
        ) + (wire::varint(v.offsets.len() as int) + (entry_bytes(v.offsets, v.est_block_uncomp)
            + end)))),
{
    reveal(wire::payload);
    let est = v.est_block_uncomp;
    let w0 = wire::varint(wire::opt_wire(v.total_uncompressed) as int);
    let w1 = wire::varint(wire::opt_wire(v.total_compressed) as int);
    let w2 = wire::varint(est as i64 as int);
    let w3 = wire::varint(v.offsets.len() as int);
    let e = entry_bytes(v.offsets, est);
    assert(wire::payload(v) =~= w0 + w1 + w2 + w3 + e);
    assert(w0 + w1 + w2 + w3 + e + end =~= w0 + (w1 + (w2 + (w3 + (e + end)))));
}

proof fn lemma_payload_roundtrip(v: IndexView, len: int, tail: Seq<u8>)
    requires
        v.wf(),
        v.offsets.len() < MAX_INDEX_ENTRIES,
        v.total_uncompressed is Some,
        index::total_fits(v.total_uncompressed),
        index::total_fits(v.total_compressed),
        compressed_grows(v.offsets),
        no_overflow(v.offsets, v.est_block_uncomp),
    ensures
        parse_payload(wire::payload(v) + envelope_end(len, tail)) == Ok::<
            (IndexView, Seq<u8>),
            Error,
        >((v, tail)),
{
    let s = v.offsets;
    let est = v.est_block_uncomp;
    let end = envelope_end(len, tail);
    let w0 = wire::opt_wire(v.total_uncompressed) as int;
    let w1 = wire::opt_wire(v.total_compressed) as int;
    let w2 = est as i64 as int;
    let w3 = s.len() as int;
    let b4 = entry_bytes(s, est) + end;
    let b3 = wire::varint(w3) + b4;
    let b2 = wire::varint(w2) + b3;
    let b1 = wire::varint(w1) + b2;
    let b0 = wire::varint(w0) + b1;
    lemma_payload_parts(v, end);
    reveal(parse_payload);
    wire::law_varint_roundtrip(w0, b1);
    wire::law_varint_roundtrip(w1, b2);
    wire::law_varint_roundtrip(w2, b3);
    wire::law_varint_roundtrip(w3, b4);
    assert(b0.skip(wire::varint(w0).len() as int) =~= b1);
    assert(b1.skip(wire::varint(w1).len() as int) =~= b2);
    assert(b2.skip(wire::varint(w2).len() as int) =~= b3);
    assert(b3.skip(wire::varint(w3).len() as int) =~= b4);
    wire::law_total_roundtrip(v.total_compressed);
    wire::law_total_roundtrip(v.total_uncompressed);
    lemma_entries_roundtrip(s, est, len, tail);
}

/// Reading an index that was written gives back what it held, as long as the
/// compressed offsets grow and no sum overflows.
pub proof fn law_load_inverts_append(v: IndexView, tail: Seq<u8>)
    requires
        v.wf(),
        v.offsets.len() < MAX_INDEX_ENTRIES,
        v.total_uncompressed is Some,
        index::total_fits(v.total_uncompressed),
        index::total_fits(v.total_compressed),
        compressed_grows(v.offsets),
        no_overflow(v.offsets, v.est_block_uncomp),
    ensures
        parse_index(wire::index_chunk(wire::payload(v)) + tail) == Ok::<(IndexView, Seq<u8>), Error>(
            (v, tail),
        ),
{
    let p = wire::payload(v);
    index::lemma_payload_len(v);
    lemma_chunk_parts(p, tail);
    lemma_payload_roundtrip(v, p.len() as int + 20, tail);
}

/// Parts that stand one after the other.
proof fn lemma_parts(h: Seq<u8>, i: Seq<u8>, p: Seq<u8>, e: Seq<u8>, t: Seq<u8>, tail: Seq<u8>)
    requires
        h.len() == 4,
        i.len() == 6,
    ensures
        ({
            let b = h + i + p + e + t + tail;
            &&& b.len() == 10 + p.len() + e.len() + t.len() + tail.len()
            &&& b.take(4) == h
            &&& b.subrange(4, 10) == i
            &&& b.skip(10) == p + (e + t + tail)
        }),
{
    let b = h + i + p + e + t + tail;
    assert(b.take(4) =~= h);
    assert(b.subrange(4, 10) =~= i);
    assert(b.skip(10) =~= p + (e + t + tail));
}

proof fn lemma_chunk_parts(p: Seq<u8>, tail: Seq<u8>)
    requires
        p.len() + 20 < 0x100_0000,
    ensures
        ({
            let b = wire::index_chunk(p) + tail;
            &&& b.len() == p.len() + 20 + tail.len()
            &&& b[0] == CHUNK_TYPE_INDEX
            &&& b[1] + 256 * b[2] + 65536 * b[3] == p.len() + 16
            &&& b.subrange(4, 10) == wire::index_header()
            &&& b.skip(10) == p + envelope_end(p.len() as int + 20, tail)
        }),
{
    let b = wire::index_chunk(p) + tail;
    assert((p.len() as int + 16) % 0x100_0000 == p.len() + 16);
    assert((p.len() as int + 20) % 0x1_0000_0000 == p.len() + 20);
    let len = crate::block::emit::le24_bytes(p.len() as int + 16);
    let h = seq![CHUNK_TYPE_INDEX] + len;
    let e = crate::block::emit::le32_bytes(p.len() as int + 20);
    lemma_parts(h, wire::index_header(), p, e, wire::index_trailer(), tail);
    assert(b.take(4)[0] == b[0] && b.take(4)[1] == b[1] && b.take(4)[2] == b[2] && b.take(4)[3]
        == b[3]);
    assert(h[1] == len[0] && h[2] == len[1] && h[3] == len[2]);
}

/// Where the offsets and the distance stay below a quarter of the 64-bit range, no
/// sum overflows.
pub proof fn law_no_overflow(s: Seq<OffsetPair>, est: u64)
    requires
        index::in_order(s),
        est <= 0x4000_0000_0000_0000,
        forall|i: int|
            0 <= i < s.len() ==> (#[trigger] s[i]).compressed <= 0x4000_0000_0000_0000
                && s[i].uncompressed <= 0x4000_0000_0000_0000 - 1,
    ensures
        no_overflow(s, est),
{
    assert forall|i: int| 0 < i < s.len() implies #[trigger] sums_fit(s, est, i) by {
        lemma_predict_bounds(s, est, i);
        assert(s[i - 1].compressed <= s[i].compressed);
        assert(s[i - 1].uncompressed < s[i].uncompressed);
    }
}

proof fn lemma_predict_bounds(s: Seq<OffsetPair>, est: u64, i: int)
    requires
        index::in_order(s),
        est <= 0x4000_0000_0000_0000,
        forall|i: int|
            0 <= i < s.len() ==> (#[trigger] s[i]).compressed <= 0x4000_0000_0000_0000,
        0 < i <= s.len(),
    ensures
        0 <= wire::predict(s, est, i) < 0x4000_0000_0000_0000,
    decreases i,
{
    if i > 1 {
        lemma_predict_bounds(s, est, i - 1);
        assert(s[i - 2].compressed <= s[i - 1].compressed);
    }
}

} // verus!
