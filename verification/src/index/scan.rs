//! An index from the chunks of a stream, without decoding them.
use crate::block;
use crate::block::{decoded_len_chunk_body, MAX_BLOCK_SIZE};
use crate::error::ErrorKind;
use crate::index;
use crate::index::wire;
use crate::index::{Error, Index, IndexView};
use crate::stream::chunk;
use crate::stream::format as layout;
use crate::stream::format::{
    read_chunk_len, CHUNK_TYPE_EOF, CHUNK_TYPE_LEGACY_COMPRESSED_DATA,
    CHUNK_TYPE_MINLZ_COMPRESSED_DATA, CHUNK_TYPE_MINLZ_COMPRESSED_DATA_COMP_CRC,
    CHUNK_TYPE_STREAM_IDENTIFIER, CHUNK_TYPE_UNCOMPRESSED_DATA, MAX_NON_SKIPPABLE_CHUNK,
};
use vstd::prelude::*;
use vstd::slice::slice_subrange;

verus! {

/// The six bytes by which a stream of the older format is known.
pub open spec fn older_magic() -> Seq<u8> {
    seq![0x73u8, 0x4eu8, 0x61u8, 0x50u8, 0x70u8, 0x59u8]
}

/// Whether `kind` is the type of a compressed data chunk, of the older format too.
pub open spec fn is_packed(kind: u8) -> bool {
    chunk::is_compressed(kind) || kind == CHUNK_TYPE_LEGACY_COMPRESSED_DATA
}

/// How many bytes of data a chunk holds, by its header: `None` for a chunk that is no
/// data chunk.
pub open spec fn data_len(kind: u8, body: Seq<u8>) -> Result<Option<int>, Error> {
    if is_packed(kind) {
        if body.len() < 4 {
            Err(Error::Invalid("data chunk shorter than CRC"))
        } else {
            match block::chunk_decoded_len(body.skip(4)) {
                Err(_) => Err(Error::Invalid("bad block size header")),
                Ok(d) => if d > MAX_BLOCK_SIZE {
                    Err(Error::Invalid("block exceeds max size"))
                } else {
                    Ok(Some(d))
                },
            }
        }
    } else if kind == CHUNK_TYPE_UNCOMPRESSED_DATA {
        if body.len() < 4 {
            Err(Error::Invalid("uncompressed chunk shorter than CRC"))
        } else if body.len() - 4 > MAX_BLOCK_SIZE {
            Err(Error::Invalid("uncompressed block exceeds max size"))
        } else {
            Ok(Some(body.len() - 4))
        }
    } else if kind == CHUNK_TYPE_STREAM_IDENTIFIER {
        if body.len() != 6 {
            Err(Error::BadFormat("bad stream identifier length"))
        } else if body.take(5) != layout::magic() && body != older_magic() {
            Err(Error::BadFormat("unknown stream magic"))
        } else {
            Ok(None)
        }
    } else if kind != CHUNK_TYPE_EOF && kind <= MAX_NON_SKIPPABLE_CHUNK {
        Err(Error::BadFormat("reserved unskippable chunk"))
    } else {
        Ok(None)
    }
}

/// What is known of a stream up to some chunk.
#[verifier::ext_equal]
pub struct Scan {
    /// The index so far.
    pub index: IndexView,
    /// Uncompressed bytes so far.
    pub total: u64,
    /// Whether a chunk was seen.
    pub started: bool,
}

/// The scan of a stream of which nothing was seen.
pub open spec fn nothing_seen() -> Scan {
    Scan { index: index::empty_index(), total: 0, started: false }
}

/// The index that expects entries at a distance of `d` where it expects nothing yet.
pub open spec fn expecting(v: IndexView, d: int) -> IndexView {
    if v.est_block_uncomp == 0 {
        IndexView { est_block_uncomp: d as u64, ..v }
    } else {
        v
    }
}

/// The index and the uncompressed size after a chunk that starts at `at`.
#[verifier::opaque]
pub open spec fn scanned_chunk(v: IndexView, total: u64, at: int, kind: u8, body: Seq<u8>)
    -> Result<(IndexView, u64), Error> {
    match data_len(kind, body) {
        Err(e) => Err(e),
        Ok(None) => Ok((v, total)),
        Ok(Some(d)) => match index::added(expecting(v, d), at as u64, total) {
            Err(e) => Err(e),
            Ok(w) => Ok((w, chunk::wrapping(total, d))),
        },
    }
}

/// The scan of a stream to its end, from the chunk that starts at `at` on.
#[verifier::opaque]
pub open spec fn scanned(b: Seq<u8>, at: int, st: Scan) -> Result<Scan, Error>
    decreases b.len() - at,
{
    let s = b.skip(at);
    if at >= b.len() || at < 0 {
        Ok(st)
    } else if s.len() < 4 {
        Err(Error::Io(ErrorKind::UnexpectedEof))
    } else {
        let len = layout::chunk_len_of(s.skip(1));
        if !st.started && s[0] != CHUNK_TYPE_STREAM_IDENTIFIER && s[0] != CHUNK_TYPE_EOF {
            Err(Error::BadFormat("missing stream identifier"))
        } else if s.len() - 4 < len {
            Err(Error::Truncated)
        } else {
            match scanned_chunk(st.index, st.total, at, s[0], s.subrange(4, 4 + len)) {
                Err(e) => Err(e),
                Ok((v, t)) => scanned(
                    b,
                    at + 4 + len,
                    Scan { index: v, total: t, started: true },
                ),
            }
        }
    }
}

/// What [`index_stream`] makes of a stream.
pub open spec fn indexed(b: Seq<u8>) -> Result<IndexView, Error> {
    match scanned(b, 0, nothing_seen()) {
        Err(e) => Err(e),
        Ok(st) => if !index::total_fits(Some(st.total)) || !index::total_fits(
            Some(b.len() as u64),
        ) {
            Err(Error::Invalid("index total exceeds i64 wire range"))
        } else {
            Ok(index::finished(st.index, Some(st.total), Some(b.len() as u64)))
        },
    }
}

/// Whether `body` starts a stream, of the older format too.
fn is_known_magic(body: &[u8]) -> (r: bool)
    requires
        body.len() == 6,
    ensures
        r == (body@.take(5) == layout::magic() || body@ == older_magic()),
{
    let new: bool = body[0] == 0x4d && body[1] == 0x69 && body[2] == 0x6e && body[3] == 0x4c
        && body[4] == 0x7a;
    let older: bool = body[0] == 0x73 && body[1] == 0x4e && body[2] == 0x61 && body[3] == 0x50
        && body[4] == 0x70 && body[5] == 0x59;
    proof {
        let b = body@.take(5);
        if new {
            assert(b =~= layout::magic());
        } else if b == layout::magic() {
            assert(b[0] == body@[0] && b[1] == body@[1] && b[2] == body@[2] && b[3] == body@[3]
                && b[4] == body@[4]);
        }
        if older {
            assert(body@ =~= older_magic());
        }
    }
    new || older
}

/// Returns how many bytes of data a chunk holds, by its header.
fn chunk_data_len(kind: u8, body: &[u8]) -> (r: Result<Option<u64>, Error>)
    ensures
        (match data_len(kind, body@) {
            Err(e) => r == Err::<Option<u64>, Error>(e),
            Ok(None) => r == Ok::<Option<u64>, Error>(None),
            Ok(Some(d)) => r == Ok::<Option<u64>, Error>(Some(d as u64)) && 0 <= d
                <= MAX_BLOCK_SIZE,
        }),
{
    let packed: bool = kind == CHUNK_TYPE_LEGACY_COMPRESSED_DATA || kind
        == CHUNK_TYPE_MINLZ_COMPRESSED_DATA || kind == CHUNK_TYPE_MINLZ_COMPRESSED_DATA_COMP_CRC;
    if packed {
        if body.len() < 4 {
            return Err(Error::Invalid("data chunk shorter than CRC"));
        }
        let inner: &[u8] = slice_subrange(body, 4, body.len());
        assert(inner@ =~= body@.skip(4));
        return match decoded_len_chunk_body(inner) {
            Err(_) => Err(Error::Invalid("bad block size header")),
            Ok(d) => {
                if d > MAX_BLOCK_SIZE {
                    Err(Error::Invalid("block exceeds max size"))
                } else {
                    Ok(Some(d as u64))
                }
            },
        };
    }
    if kind == CHUNK_TYPE_UNCOMPRESSED_DATA {
        if body.len() < 4 {
            return Err(Error::Invalid("uncompressed chunk shorter than CRC"));
        }
        if body.len() - 4 > MAX_BLOCK_SIZE {
            return Err(Error::Invalid("uncompressed block exceeds max size"));
        }
        return Ok(Some((body.len() - 4) as u64));
    }
    if kind == CHUNK_TYPE_STREAM_IDENTIFIER {
        if body.len() != 6 {
            return Err(Error::BadFormat("bad stream identifier length"));
        }
        if !is_known_magic(body) {
            return Err(Error::BadFormat("unknown stream magic"));
        }
        return Ok(None);
    }
    if kind != CHUNK_TYPE_EOF && kind <= MAX_NON_SKIPPABLE_CHUNK {
        return Err(Error::BadFormat("reserved unskippable chunk"));
    }
    Ok(None)
}

/// The index of a scan is in order, and as long as it expects nothing, there was no
/// data.
pub open spec fn scan_ok(v: IndexView, total: u64) -> bool {
    &&& v.wf()
    &&& v.est_block_uncomp == 0 ==> total == 0 && v.offsets.len() <= 1 && (v.offsets.len() == 1
        ==> v.offsets[0].uncompressed == 0)
}

/// A data chunk whose place is added to the index, and any other chunk.
pub proof fn lemma_scanned_parts(v: IndexView, total: u64, at: int, kind: u8, body: Seq<u8>)
    ensures
        (match data_len(kind, body) {
            Ok(None) => scanned_chunk(v, total, at, kind, body) == Ok::<(IndexView, u64), Error>(
                (v, total),
            ),
            Ok(Some(d)) => {
                let r = index::added(expecting(v, d), at as u64, total);
                r is Ok ==> scanned_chunk(v, total, at, kind, body) == Ok::<
                    (IndexView, u64),
                    Error,
                >((r->Ok_0, chunk::wrapping(total, d)))
            },
            Err(_) => true,
        }),
{
    reveal(scanned_chunk);
}

/// A chunk keeps a scan in order.
pub proof fn lemma_scanned_chunk(v: IndexView, total: u64, at: int, kind: u8, body: Seq<u8>)
    requires
        scan_ok(v, total),
        0 <= at <= u64::MAX,
    ensures
        (match data_len(kind, body) {
            Ok(Some(d)) => 0 <= d <= MAX_BLOCK_SIZE && expecting(v, d).wf(),
            _ => true,
        }),
        (match scanned_chunk(v, total, at, kind, body) {
            Ok((w, t)) => scan_ok(w, t),
            Err(_) => true,
        }),
{
    reveal(scanned_chunk);
    if let Ok(Some(d)) = data_len(kind, body) {
        if is_packed(kind) {
            block::format::lemma_parse_uvarint_bounds(body.skip(4));
        }
        let w = expecting(v, d);
        assert(w.wf());
        index::law_add_keeps_order(w, at as u64, total);
    }
}

impl Index {
    /// Takes a chunk that starts at `at`, after `total` bytes of data; returns the size
    /// of the data after it.
    fn take_chunk(&mut self, at: u64, total: u64, kind: u8, body: &[u8]) -> (r: Result<u64, Error>)
        requires
            scan_ok(old(self)@, total),
        ensures
            (match scanned_chunk(old(self)@, total, at as int, kind, body@) {
                Ok((w, t)) => r == Ok::<u64, Error>(t) && final(self)@ == w && scan_ok(w, t),
                Err(e) => r == Err::<u64, Error>(e),
            }),
    {
        proof {
            reveal(scanned_chunk);
            lemma_scanned_chunk(self@, total, at as int, kind, body@);
        }
        match chunk_data_len(kind, body) {
            Err(e) => Err(e),
            Ok(None) => Ok(total),
            Ok(Some(d)) => {
                self.expect(d);
                match self.add(at, total) {
                    Err(e) => Err(e),
                    Ok(()) => Ok(total.wrapping_add(d)),
                }
            },
        }
    }
}

/// Builds an index from the chunks of the stream `b`, without decoding them; returns it
/// as a chunk.
pub fn index_stream(b: &[u8]) -> (r: Result<Vec<u8>, Error>)
    ensures
        (match indexed(b@) {
            Ok(v) => r is Ok && (r->Ok_0)@ == wire::index_chunk(wire::payload(v)),
            Err(e) => r == Err::<Vec<u8>, Error>(e),
        }),
{
    let mut idx: Index = Index::new();
    let mut total: u64 = 0;
    let mut at: usize = 0;
    let mut started: bool = false;
    let ghost mut st = nothing_seen();
    while at < b.len()
        invariant
            at <= b.len(),
            st == (Scan { index: idx@, total, started }),
            scan_ok(idx@, total),
            scanned(b@, 0, nothing_seen()) == scanned(b@, at as int, st),
        decreases b.len() - at,
    {
        proof {
            reveal(scanned);
        }
        let ghost s = b@.skip(at as int);
        let left: usize = b.len() - at;
        if left < 4 {
            return Err(Error::Io(ErrorKind::UnexpectedEof));
        }
        let kind: u8 = b[at];
        let len: usize = read_chunk_len(slice_subrange(b, at + 1, at + 4));
        assert(len == layout::chunk_len_of(s.skip(1)));
        if !started && kind != CHUNK_TYPE_STREAM_IDENTIFIER && kind != CHUNK_TYPE_EOF {
            return Err(Error::BadFormat("missing stream identifier"));
        }
        if left - 4 < len {
            return Err(Error::Truncated);
        }
        let body: &[u8] = slice_subrange(b, at + 4, at + 4 + len);
        assert(body@ =~= s.subrange(4, 4 + len));
        match idx.take_chunk(at as u64, total, kind, body) {
            Err(e) => {
                return Err(e);
            },
            Ok(t) => {
                total = t;
            },
        }
        started = true;
        at = at + 4 + len;
        proof {
            st = Scan { index: idx@, total, started };
        }
    }
    proof {
        reveal(scanned);
    }
    let mut out: Vec<u8> = Vec::new();
    match idx.append_to(&mut out, Some(total), Some(b.len() as u64)) {
        Err(e) => Err(e),
        Ok(()) => {
            assert(out@ =~= wire::index_chunk(wire::payload(idx@)));
            Ok(out)
        },
    }
}

} // verus!
