//! The index that is built from the chunks of a closed stream.
use crate::block;
use crate::block::emit;
use crate::index;
use crate::index::parse;
use crate::index::scan;
use crate::index::scan::Scan;
use crate::index::wire;
use crate::index::{Error, IndexView, OffsetPair};
use crate::stream::chunk;
use crate::stream::crc;
use crate::stream::format as layout;
use crate::stream::format::{
    CHUNK_TYPE_EOF, CHUNK_TYPE_MINLZ_COMPRESSED_DATA, CHUNK_TYPE_PADDING,
    CHUNK_TYPE_STREAM_IDENTIFIER, CHUNK_TYPE_UNCOMPRESSED_DATA,
};
use crate::stream::output;
use crate::stream::output::{Closing, Frame, OutputView};
use crate::stream::random_access;
use crate::stream::roundtrip;
use crate::stream::writer;
use crate::stream::writer::WriterView;
use vstd::prelude::*;

verus! {

/// A scan that has a chunk before it takes it by its type and its body.
proof fn lemma_scan_step(b: Seq<u8>, at: int, st: Scan, kind: u8, body: Seq<u8>, tail: Seq<u8>)
    requires
        0 <= at <= b.len(),
        b.skip(at) == layout::chunk_header(kind, body.len() as int) + body + tail,
        body.len() < 0x100_0000,
        st.started || kind == CHUNK_TYPE_STREAM_IDENTIFIER || kind == CHUNK_TYPE_EOF,
    ensures
        at + 4 + body.len() <= b.len(),
        b.skip(at + 4 + body.len()) == tail,
        scan::scanned(b, at, st) == match scan::scanned_chunk(
            st.index,
            st.total,
            at,
            kind,
            body,
        ) {
            Err(e) => Err(e),
            Ok((v, t)) => scan::scanned(
                b,
                at + 4 + body.len(),
                Scan { index: v, total: t, started: true },
            ),
        },
{
    reveal(scan::scanned);
    let len = body.len() as int;
    let s = b.skip(at);
    assert(s =~= layout::chunk_header(kind, len) + (body + tail));
    layout::law_chunk_len_roundtrip(kind, len, body + tail);
    assert(s.subrange(4, 4 + len) =~= body);
    assert(b.skip(at + 4 + len) =~= s.skip(4 + len));
    assert(s.skip(4 + len) =~= tail);
}

/// How a frame stands in the stream: the type and the body of its chunk.
spec fn parts(f: Frame) -> (u8, Seq<u8>) {
    match f {
        Frame::Block(d, c) => (
            if c == output::stored_chunk(d) {
                CHUNK_TYPE_UNCOMPRESSED_DATA
            } else {
                CHUNK_TYPE_MINLZ_COMPRESSED_DATA
            },
            c.skip(4),
        ),
        Frame::User(id, b) => (id, b),
    }
}

/// What the header of a frame's chunk says of its data.
proof fn lemma_parts(f: Frame, block_size: int)
    requires
        f.wf(block_size),
        block_size <= layout::MAX_BLOCK_SIZE,
    ensures
        ({
            let (kind, body) = parts(f);
            &&& f.bytes() == layout::chunk_header(kind, body.len() as int) + body
            &&& body.len() < 0x100_0000
            &&& scan::data_len(kind, body) == Ok::<Option<int>, Error>(
                if f is Block {
                    Some(f.data().len() as int)
                } else {
                    None
                },
            )
        }),
{
    if let Frame::Block(d, c) = f {
        reveal(output::is_chunk_of);
        let (kind, body) = parts(f);
        let sum = emit::le32_bytes(crc::masked_crc_of(d));
        if c == output::stored_chunk(d) {
            assert(body =~= sum + d);
            assert(body.skip(4) =~= d);
            assert(c =~= layout::chunk_header(kind, body.len() as int) + body);
        } else {
            let inner = c.skip(8);
            assert(body =~= sum + inner);
            assert(body.skip(4) =~= inner);
            assert(c =~= layout::chunk_header(kind, body.len() as int) + body);
            block::law_chunk_declared_length(inner);
        }
    }
}

/// An entry stands for the place before frame `k`, which is a block.
pub open spec fn marks_block(fs: Seq<Frame>, e: OffsetPair, k: int) -> bool {
    &&& 0 <= k < fs.len()
    &&& fs[k] is Block
    &&& random_access::marks_at(fs, e, k)
}

/// An entry stands for the place before a block.
pub open spec fn marks_data(fs: Seq<Frame>, e: OffsetPair) -> bool {
    exists|k: int| #[trigger] marks_block(fs, e, k)
}

/// The entries of `v` stand for places before blocks up to frame `k`.
spec fn marked(fs: Seq<Frame>, k: int, v: IndexView) -> bool {
    forall|i: int|
        0 <= i < v.offsets.len() ==> marks_data(fs.take(k), #[trigger] v.offsets[i])
}

/// The entries of `v`, over the first `k` frames, are spaced by no more than a block or
/// the frames hold, and the first one is at the start of the data.
spec fn spread(fs: Seq<Frame>, k: int, v: IndexView) -> bool {
    let n = output::data_of(fs.take(k)).len();
    &&& random_access::spaced(v.offsets, v.est_block_uncomp as int)
    &&& v.est_block_uncomp <= layout::MAX_BLOCK_SIZE || v.est_block_uncomp <= n
    &&& v.offsets.len() > 0 ==> v.offsets[0].uncompressed == 0
    &&& v.offsets.len() == 0 <==> v.est_block_uncomp == 0
    &&& v.offsets.len() == 0 ==> n == 0
}

/// A new entry leaves the entries spaced.
proof fn lemma_spread(w: OutputView, k: int, v: IndexView, d: int)
    requires
        w.wf(),
        random_access::moderate(w),
        0 <= k < w.frames.len(),
        w.frames[k] is Block,
        d == w.frames[k].data().len(),
        v.wf(),
        spread(w.frames, k, v),
    ensures
        (match index::added(
            scan::expecting(v, d),
            (10 + output::bytes_of(w.frames.take(k)).len()) as u64,
            output::data_of(w.frames.take(k)).len() as u64,
        ) {
            Ok(x) => spread(w.frames, k + 1, x),
            Err(_) => true,
        }),
{
    let a = w.frames.take(k);
    let n = output::data_of(a).len();
    lemma_place_next(w, k);
    assert(w.frames[k].wf(w.block_size as int));
    let u = scan::expecting(v, d);
    let new = OffsetPair {
        compressed: (10 + output::bytes_of(a).len()) as u64,
        uncompressed: n as u64,
    };
    let t = v.offsets.push(new);
    let est = u.est_block_uncomp as int;
    if let Ok(x) = index::added(u, new.compressed, new.uncompressed) {
        if x != u {
            assert(u.wf());
            index::law_add_keeps_order(u, new.compressed, new.uncompressed);
            assert forall|i: int| 0 < i < t.len() implies #[trigger] random_access::apart(
                t,
                est,
                i,
            ) by {
                if i < v.offsets.len() {
                    assert(random_access::apart(v.offsets, est, i));
                }
            }
            if t.len() > index::MAX_ADDED_ENTRIES {
                random_access::lemma_spaced_sum(t, est);
                assert(65535 * est <= (t.len() - 1) * est) by (nonlinear_arith)
                    requires
                        t.len() > 65535,
                        est >= 0,
                ;
                let s = index::thinned(t, 2 * est);
                assert(index::in_order(t));
                index::lemma_thinned(t, 2 * est);
                assert forall|i: int| 0 < i < s.len() implies #[trigger] random_access::apart(
                    s,
                    2 * est,
                    i,
                ) by {
                    assert(s[i].uncompressed - s[i - 1].uncompressed >= 2 * est);
                }
            }
        }
    }
}

/// A chunk of data that follows frame `k` is added to the index.
proof fn lemma_scan_block(w: OutputView, k: int, v: IndexView, d: int) -> (x: IndexView)
    requires
        w.wf(),
        random_access::moderate(w),
        0 <= k < w.frames.len(),
        w.frames[k] is Block,
        d == w.frames[k].data().len(),
        marked(w.frames, k, v),
        v.wf(),
        spread(w.frames, k, v),
    ensures
        index::added(
            scan::expecting(v, d),
            (10 + output::bytes_of(w.frames.take(k)).len()) as u64,
            output::data_of(w.frames.take(k)).len() as u64,
        ) == Ok::<IndexView, Error>(x),
        marked(w.frames, k + 1, x),
        spread(w.frames, k + 1, x),
{
    let fs = w.frames;
    let a = fs.take(k);
    assert(fs =~= a + fs.skip(k));
    roundtrip::lemma_frames_concat(a, fs.skip(k));
    let u = scan::expecting(v, d);
    let new = OffsetPair {
        compressed: (10 + output::bytes_of(a).len()) as u64,
        uncompressed: output::data_of(a).len() as u64,
    };
    assert(fs[k].wf(w.block_size as int));
    assert(u.wf());
    if v.offsets.len() > 0 {
        let e = v.offsets.last();
        assert(marks_data(a, v.offsets[v.offsets.len() - 1]));
        let j = choose|j: int| #[trigger] marks_block(a, e, j);
        assert(a =~= a.take(j) + a.skip(j));
        roundtrip::lemma_frames_concat(a.take(j), a.skip(j));
    }
    let r = index::added(u, new.compressed, new.uncompressed);
    index::law_add_keeps_order(u, new.compressed, new.uncompressed);
    lemma_spread(w, k, v, d);
    let x = r->Ok_0;
    let t = v.offsets.push(new);
    let b = fs.take(k + 1);
    assert forall|i: int| 0 <= i < t.len() implies marks_data(b, #[trigger] t[i]) by {
        if i < v.offsets.len() {
            assert(marks_data(a, v.offsets[i]));
            let j = choose|j: int| #[trigger] marks_block(a, v.offsets[i], j);
            assert(b.take(j) =~= a.take(j));
            assert(marks_block(b, t[i], j));
        } else {
            assert(b.take(k) =~= a);
            assert(marks_block(b, new, k));
        }
    }
    assert forall|i: int| 0 <= i < x.offsets.len() implies marks_data(
        b,
        #[trigger] x.offsets[i],
    ) by {
        if x.offsets == v.offsets {
            assert(x.offsets[i] == t[i]);
        } else if x.offsets != t {
            let est = (2 * u.est_block_uncomp) as u64;
            index::lemma_thinned(t, est as int);
            assert(t.contains(x.offsets[i]));
            let j = choose|j: int| 0 <= j < t.len() && t[j] == x.offsets[i];
            assert(marks_data(b, t[j]));
        }
    }
    x
}

/// The place before frame `k` in the stream.
spec fn place(w: OutputView, k: int) -> int {
    10 + output::bytes_of(w.frames.take(k)).len() as int
}

/// The scan before frame `k` is in order.
spec fn scanning(w: OutputView, k: int, st: Scan) -> bool {
    &&& st.started
    &&& scan::scan_ok(st.index, st.total)
    &&& st.total == output::data_of(w.frames.take(k)).len()
    &&& marked(w.frames, k, st.index)
    &&& spread(w.frames, k, st.index)
}

/// Places before frame `k` are places before the next one.
proof fn lemma_marked_next(fs: Seq<Frame>, k: int, v: IndexView)
    requires
        0 <= k < fs.len(),
        marked(fs, k, v),
    ensures
        marked(fs, k + 1, v),
{
    let a = fs.take(k);
    let c = fs.take(k + 1);
    assert forall|i: int| 0 <= i < v.offsets.len() implies marks_data(
        c,
        #[trigger] v.offsets[i],
    ) by {
        assert(marks_data(a, v.offsets[i]));
        let j = choose|j: int| #[trigger] marks_block(a, v.offsets[i], j);
        assert(c.take(j) =~= a.take(j));
        assert(marks_block(c, v.offsets[i], j));
    }
}

/// The place behind frame `k`, and the data up to there.
proof fn lemma_place_next(w: OutputView, k: int)
    requires
        0 <= k < w.frames.len(),
        random_access::moderate(w),
    ensures
        place(w, k + 1) == place(w, k) + w.frames[k].bytes().len(),
        output::data_of(w.frames.take(k + 1)).len() == output::data_of(w.frames.take(k)).len()
            + w.frames[k].data().len(),
        place(w, k + 1) <= u64::MAX,
        output::data_of(w.frames.take(k + 1)).len() <= u64::MAX,
{
    let fs = w.frames;
    assert(fs.take(k + 1).drop_last() =~= fs.take(k));
    assert(fs.take(k + 1).last() == fs[k]);
    assert(fs =~= fs.take(k + 1) + fs.skip(k + 1));
    roundtrip::lemma_frames_concat(fs.take(k + 1), fs.skip(k + 1));
}

/// What the chunk of frame `k` makes of a scan.
proof fn lemma_scan_frame_chunk(w: OutputView, k: int, st: Scan) -> (x: Scan)
    requires
        w.wf(),
        random_access::moderate(w),
        0 <= k < w.frames.len(),
        scanning(w, k, st),
    ensures
        scanning(w, k + 1, x),
        ({
            let (kind, body) = parts(w.frames[k]);
            scan::scanned_chunk(st.index, st.total, place(w, k), kind, body) == Ok::<
                (IndexView, u64),
                Error,
            >((x.index, x.total))
        }),
{
    let f = w.frames[k];
    let (kind, body) = parts(f);
    let at = place(w, k);
    lemma_parts(f, w.block_size as int);
    lemma_place_next(w, k);
    scan::lemma_scanned_chunk(st.index, st.total, at, kind, body);
    scan::lemma_scanned_parts(st.index, st.total, at, kind, body);
    match f {
        Frame::Block(d, _) => {
            let v = lemma_scan_block(w, k, st.index, d.len() as int);
            assert(st.total == output::data_of(w.frames.take(k)).len() as u64);
            Scan { index: v, total: chunk::wrapping(st.total, d.len() as int), started: true }
        },
        Frame::User(_, _) => {
            lemma_marked_next(w.frames, k, st.index);
            st
        },
    }
}

/// A scan takes frame `k`.
proof fn lemma_scan_frame(w: OutputView, b: Seq<u8>, k: int, st: Scan, tail: Seq<u8>) -> (x: Scan)
    requires
        w.wf(),
        random_access::moderate(w),
        0 <= k < w.frames.len(),
        scanning(w, k, st),
        place(w, k) <= b.len(),
        b.skip(place(w, k)) == w.frames[k].bytes() + tail,
    ensures
        scanning(w, k + 1, x),
        place(w, k + 1) <= b.len(),
        b.skip(place(w, k + 1)) == tail,
        scan::scanned(b, place(w, k), st) == scan::scanned(b, place(w, k + 1), x),
{
    let f = w.frames[k];
    let (kind, body) = parts(f);
    lemma_parts(f, w.block_size as int);
    lemma_scan_step(b, place(w, k), st, kind, body, tail);
    lemma_place_next(w, k);
    lemma_scan_frame_chunk(w, k, st)
}

/// A scan takes all frames from frame `k` on.
proof fn lemma_scan_frames(w: OutputView, b: Seq<u8>, k: int, st: Scan, tail: Seq<u8>) -> (x: Scan)
    requires
        w.wf(),
        random_access::moderate(w),
        0 <= k <= w.frames.len(),
        scanning(w, k, st),
        place(w, k) <= b.len(),
        b.skip(place(w, k)) == output::bytes_of(w.frames.skip(k)) + tail,
    ensures
        scanning(w, w.frames.len() as int, x),
        place(w, w.frames.len() as int) <= b.len(),
        b.skip(place(w, w.frames.len() as int)) == tail,
        scan::scanned(b, place(w, k), st) == scan::scanned(b, place(w, w.frames.len() as int), x),
    decreases w.frames.len() - k,
{
    let fs = w.frames;
    if k == fs.len() {
        assert(fs.skip(k) =~= Seq::<Frame>::empty());
        assert(output::bytes_of(fs.skip(k)) + tail =~= tail);
        st
    } else {
        let more = fs.skip(k + 1);
        roundtrip::lemma_frames_first(fs.skip(k));
        assert(fs.skip(k).skip(1) =~= more);
        assert(b.skip(place(w, k)) =~= fs[k].bytes() + (output::bytes_of(more) + tail));
        let x = lemma_scan_frame(w, b, k, st, output::bytes_of(more) + tail);
        lemma_scan_frames(w, b, k + 1, x, tail)
    }
}

/// A chunk without data leaves a scan as it is.
proof fn lemma_scan_other(b: Seq<u8>, at: int, st: Scan, kind: u8, body: Seq<u8>, tail: Seq<u8>)
    requires
        0 <= at <= b.len(),
        b.skip(at) == layout::chunk_header(kind, body.len() as int) + body + tail,
        body.len() < 0x100_0000,
        st.started,
        kind == CHUNK_TYPE_EOF || kind == CHUNK_TYPE_PADDING || kind == index::CHUNK_TYPE_INDEX,
    ensures
        at + 4 + body.len() <= b.len(),
        b.skip(at + 4 + body.len()) == tail,
        scan::scanned(b, at, st) == scan::scanned(b, at + 4 + body.len(), st),
{
    lemma_scan_step(b, at, st, kind, body, tail);
    reveal(scan::scanned_chunk);
}

/// What stands behind the blocks of a closed stream leaves a scan as it is.
proof fn lemma_scan_closing(w: OutputView, c: Closing, b: Seq<u8>, at: int, st: Scan)
    requires
        w.wf(),
        c.wf(),
        c.append_index ==> c.build_index,
        st.started,
        0 <= at <= b.len(),
        b.skip(at) == roundtrip::closing_bytes(w, c),
    ensures
        scan::scanned(b, at, st) == Ok::<Scan, Error>(st),
{
    let tail = w.appended(c);
    let n = output::padding_len(c.padding, (w.ended().len() + tail.len()) as int);
    let pad = output::padding_chunk(n);
    output::law_padding(c.padding, (w.ended().len() + tail.len()) as int);
    let v = block::format::uvarint(w.total() as nat);
    block::format::lemma_uvarint_roundtrip(w.total(), Seq::empty());
    block::format::lemma_parse_uvarint_bounds(v + Seq::empty());
    assert(b.skip(at) =~= layout::chunk_header(CHUNK_TYPE_EOF, v.len() as int) + v + (pad + tail));
    lemma_scan_other(b, at, st, CHUNK_TYPE_EOF, v, pad + tail);
    let at2 = at + 4 + v.len();
    let at3 = at2 + n;
    if n == 0 {
        assert(pad + tail =~= tail);
    } else {
        let zeros = Seq::new((n - 4) as nat, |i: int| 0u8);
        assert(pad + tail == layout::chunk_header(CHUNK_TYPE_PADDING, zeros.len() as int) + zeros
            + tail);
        lemma_scan_other(b, at2, st, CHUNK_TYPE_PADDING, zeros, tail);
    }
    assert(scan::scanned(b, at, st) == scan::scanned(b, at3, st));
    assert(b.skip(at3) == tail);
    if c.append_index {
        roundtrip::lemma_index_chunk(w, c);
        let body = tail.skip(4);
        assert(b.skip(at3) =~= layout::chunk_header(index::CHUNK_TYPE_INDEX, body.len() as int)
            + body + Seq::<u8>::empty());
        lemma_scan_other(b, at3, st, index::CHUNK_TYPE_INDEX, body, Seq::empty());
    } else {
        assert(b.skip(at3).len() == 0);
    }
    reveal(scan::scanned);
}

/// The index that is built from the chunks of a closed stream.
proof fn lemma_indexed(w: OutputView, c: Closing) -> (x: IndexView)
    requires
        w.wf(),
        w.started,
        c.wf(),
        c.append_index ==> c.build_index,
        random_access::moderate(w),
        w.closed(c).len() <= i64::MAX,
    ensures
        scan::indexed(w.closed(c)) == Ok::<IndexView, Error>(
            index::finished(x, Some(w.total()), Some(w.closed(c).len() as u64)),
        ),
        x.wf(),
        marked(w.frames, w.frames.len() as int, x),
        spread(w.frames, w.frames.len() as int, x),
{
    let b = w.closed(c);
    let fs = w.frames;
    let tail = roundtrip::closing_bytes(w, c);
    let st = scan::nothing_seen();
    let i = layout::indicator_of(w.block_size as int);
    let body = layout::magic() + seq![i];
    let kind = CHUNK_TYPE_STREAM_IDENTIFIER;
    assert(w.header() =~= layout::chunk_header(kind, 6) + body);
    assert(b.skip(0) =~= layout::chunk_header(kind, 6) + body + (output::bytes_of(fs) + tail));
    lemma_scan_step(b, 0, st, kind, body, output::bytes_of(fs) + tail);
    assert(body.take(5) =~= layout::magic());
    assert(scan::scanned_chunk(st.index, st.total, 0, kind, body) == Ok::<(IndexView, u64), Error>(
        (st.index, st.total),
    )) by {
        reveal(scan::scanned_chunk);
    }
    let st1 = Scan { started: true, ..st };
    assert(fs.take(0) =~= Seq::<Frame>::empty());
    assert(fs.skip(0) =~= fs);
    assert(st1.index.wf());
    let x = lemma_scan_frames(w, b, 0, st1, tail);
    assert(fs.take(fs.len() as int) =~= fs);
    lemma_scan_closing(w, c, b, place(w, fs.len() as int), x);
    x.index
}

/// Reducing an index makes the distance not much larger.
proof fn lemma_reduced_distance(v: IndexView)
    requires
        v.wf(),
        v.est_block_uncomp == 0 ==> v.offsets.len() <= 1,
    ensures
        index::reduced(v).est_block_uncomp <= 2 * v.est_block_uncomp + index::MIN_INDEX_DIST,
{
    index::lemma_reduced(v);
    let len = v.offsets.len() as int;
    let est = v.est_block_uncomp as int;
    if len >= index::MAX_INDEX_ENTRIES {
        let r0 = (len + 1) / index::MAX_INDEX_ENTRIES as int;
        let r = index::remove_count(est, len, r0);
        lemma_remove_count(est, len, r0);
        assert(est * (r + 1) == est * r + est) by (nonlinear_arith);
        if r == 1 {
            assert(est * r == est);
        }
    }
}

proof fn lemma_remove_count(est: int, len: int, r: int)
    requires
        r >= 0,
    ensures
        index::remove_count(est, len, r) == r || est * index::remove_count(est, len, r)
            < index::MIN_INDEX_DIST,
    decreases len - r,
{
    if est * (r + 1) < index::MIN_INDEX_DIST && len / (r + 1) > 1000 {
        assert(r + 1 < len) by (nonlinear_arith)
            requires
                len / (r + 1) > 1000,
                r >= 0,
        ;
        lemma_remove_count(est, len, r + 1);
    }
}

/// What stands in the stream before frame `k`.
proof fn lemma_byte_at(w: OutputView, c: Closing, k: int)
    requires
        w.started,
        0 <= k < w.frames.len(),
        w.frames[k].bytes().len() > 0,
    ensures
        place(w, k) < w.closed(c).len(),
        w.closed(c)[place(w, k)] == w.frames[k].bytes()[0],
{
    let fs = w.frames;
    let a = output::bytes_of(fs.take(k));
    let f = fs[k].bytes();
    assert(fs =~= fs.take(k) + fs.skip(k));
    roundtrip::lemma_frames_concat(fs.take(k), fs.skip(k));
    roundtrip::lemma_frames_first(fs.skip(k));
    let more = output::bytes_of(fs.skip(k).skip(1));
    assert(w.header().len() == 10);
    assert(w.bytes() == w.header() + (a + (f + more)));
    assert(w.bytes().len() == 10 + a.len() + f.len() + more.len());
    assert(w.bytes()[place(w, k)] == f[0]);
    assert(w.closed(c)[place(w, k)] == w.bytes()[place(w, k)]);
}

/// At the place that an entry stands for, a data chunk starts.
proof fn lemma_marks_data(w: OutputView, c: Closing, e: OffsetPair)
    requires
        w.wf(),
        w.started,
        marks_data(w.frames, e),
    ensures
        random_access::marks(w.frames, e),
        is_data_type(w.closed(c)[e.compressed as int]),
{
    let fs = w.frames;
    let k = choose|k: int| #[trigger] marks_block(fs, e, k);
    let f = fs[k];
    assert(random_access::marks_at(fs, e, k));
    assert(f.wf(w.block_size as int));
    lemma_parts(f, w.block_size as int);
    let (kind, body) = parts(f);
    assert(layout::chunk_header(kind, body.len() as int)[0] == kind);
    assert(f.bytes()[0] == kind);
    lemma_byte_at(w, c, k);
}

/// Whether `kind` is the type of a data chunk.
pub open spec fn is_data_type(kind: u8) -> bool {
    chunk::is_compressed(kind) || kind == CHUNK_TYPE_UNCOMPRESSED_DATA
}

/// The index that is built from the chunks of a closed stream has the sizes of the
/// stream; its entries stand for places in the stream where data chunks start, with as
/// much data before each as it says; where there is data, the first entry stands at its
/// start; and the chunk that it is written as loads back.
pub proof fn law_index_stream(w: OutputView, c: Closing, tail: Seq<u8>)
    requires
        w.wf(),
        w.started,
        c.wf(),
        c.append_index ==> c.build_index,
        random_access::moderate(w),
        w.closed(c).len() <= i64::MAX,
    ensures
        (match scan::indexed(w.closed(c)) {
            Ok(v) => {
                &&& v.total_uncompressed == Some(output::data_of(w.frames).len() as u64)
                &&& v.total_compressed == Some(w.closed(c).len() as u64)
                &&& forall|i: int|
                    0 <= i < v.offsets.len() ==> marks_data(w.frames, #[trigger] v.offsets[i])
                        && is_data_type(w.closed(c)[v.offsets[i].compressed as int])
                &&& output::data_of(w.frames).len() > 0 ==> v.offsets.len() > 0
                    && v.offsets[0].uncompressed == 0
                &&& parse::parse_index(wire::index_chunk(wire::payload(v)) + tail) == Ok::<
                    (IndexView, Seq<u8>),
                    Error,
                >((v, tail))
            },
            Err(_) => false,
        }),
{
    let fs = w.frames;
    let x = lemma_indexed(w, c);
    let v = index::finished(x, Some(w.total()), Some(w.closed(c).len() as u64));
    assert(fs.take(fs.len() as int) =~= fs);
    index::law_reduce_keeps_entries(x);
    lemma_entries(w, c, x);
    lemma_loadable(w, x);
    parse::law_load_inverts_append(v, tail);
}

/// `w` is what a writer has put out in the stream `sink`, and the entries of `v` stand
/// for places in it where data chunks start.
pub open spec fn indexes_stream(v: IndexView, u: WriterView, w: OutputView, sink: Seq<u8>) -> bool {
    &&& writer::flushed_to(u, w)
    &&& sink == w.closed(u.options.closing(u.options.append_index))
    &&& forall|i: int| 0 <= i < v.offsets.len() ==> marks_data(w.frames, #[trigger] v.offsets[i])
}

/// The index that is built from the stream of a writer that was finished without an
/// error loads back; it has the sizes of what was written and of the stream, and its
/// first entry stands at the start of the data.
pub proof fn law_index_stream_written(u: WriterView, sink: Seq<u8>, tail: Seq<u8>)
    requires
        u.wf(),
        u.out.before == Seq::<u8>::empty(),
        writer::finishes_to(u, sink, None),
        u.data().len() < 0x1fff_ffff_ffff_ffff,
        sink.len() < 0x1fff_ffff_ffff_ffff,
    ensures
        (match scan::indexed(sink) {
            Ok(v) => {
                &&& v.total_uncompressed == Some(u.data().len() as u64)
                &&& v.total_compressed == Some(sink.len() as u64)
                &&& forall|i: int|
                    0 <= i < v.offsets.len() ==> is_data_type(
                        sink[(#[trigger] v.offsets[i]).compressed as int],
                    )
                &&& exists|w: OutputView| #[trigger] indexes_stream(v, u, w, sink)
                &&& u.data().len() > 0 ==> v.offsets.len() > 0 && v.offsets[0].uncompressed == 0
                &&& parse::parse_index(wire::index_chunk(wire::payload(v)) + tail) == Ok::<
                    (IndexView, Seq<u8>),
                    Error,
                >((v, tail))
            },
            Err(_) => false,
        }),
{
    let build = u.options.append_index;
    let c = u.options.closing(build);
    let ib = choose|ib: Seq<u8>| #[trigger] writer::closes_to(u, build, sink, ib, None);
    let w = choose|w: OutputView| #[trigger] writer::closed_from(u, w, build, sink, ib, None);
    assert(w.started && w.before == u.out.before && writer::count_new(u.out, w)
        <= writer::as_blocks(u.pending).len()) by {
        reveal(writer::emitted);
    }
    roundtrip::law_flush_keeps_data(u, w);
    assert(w.before + w.closed(c) =~= w.closed(c));
    assert(output::bytes_of(w.frames).len() <= sink.len());
    law_index_stream(w, c, tail);
    if let Ok(v) = scan::indexed(sink) {
        assert(indexes_stream(v, u, w, sink));
    }
}

/// The entries of a reduced index stand for places where data chunks start.
proof fn lemma_entries(w: OutputView, c: Closing, x: IndexView)
    requires
        w.wf(),
        w.started,
        w.closed(c).len() <= i64::MAX,
        x.wf(),
        marked(w.frames, w.frames.len() as int, x),
    ensures
        ({
            let s = index::reduced(x).offsets;
            forall|i: int|
                0 <= i < s.len() ==> marks_data(w.frames, #[trigger] s[i]) && random_access::marks(
                    w.frames,
                    s[i],
                ) && is_data_type(w.closed(c)[s[i].compressed as int])
        }),
{
    let fs = w.frames;
    let s = index::reduced(x).offsets;
    assert(fs.take(fs.len() as int) =~= fs);
    index::law_reduce_keeps_entries(x);
    assert forall|j: int| 0 <= j < s.len() implies marks_data(fs, #[trigger] s[j])
        && random_access::marks(fs, s[j]) && is_data_type(w.closed(c)[s[j].compressed as int]) by {
        let k = choose|k: int| 0 <= k < x.offsets.len() && x.offsets[k] == s[j];
        assert(marks_data(fs, x.offsets[k]));
        lemma_marks_data(w, c, s[j]);
    }
}

/// Entries that stand for places in a stream that is small enough grow, and have bounds
/// by which no sum overflows.
proof fn lemma_bounds(w: OutputView, s: Seq<OffsetPair>)
    requires
        w.wf(),
        random_access::moderate(w),
        index::in_order(s),
        forall|i: int| 0 <= i < s.len() ==> random_access::marks(w.frames, #[trigger] s[i]),
    ensures
        parse::compressed_grows(s),
        forall|i: int|
            0 <= i < s.len() ==> (#[trigger] s[i]).compressed <= 0x4000_0000_0000_0000
                && s[i].uncompressed <= 0x4000_0000_0000_0000 - 1,
{
    let fs = w.frames;
    assert forall|i: int, j: int| #![trigger s[i], s[j]] 0 <= i < j < s.len() implies s[i].compressed
        < s[j].compressed by {
        random_access::lemma_marks_grow(w, s[i], s[j]);
    }
    assert forall|i: int| 0 <= i < s.len() implies (#[trigger] s[i]).compressed
        <= 0x4000_0000_0000_0000 && s[i].uncompressed <= 0x4000_0000_0000_0000 - 1 by {
        let k = choose|k: int| 0 <= k <= fs.len() && #[trigger] random_access::marks_at(fs, s[i], k);
        assert(fs =~= fs.take(k) + fs.skip(k));
        roundtrip::lemma_frames_concat(fs.take(k), fs.skip(k));
    }
}

/// A reduced index is one that can be written and loaded back.
proof fn lemma_loadable(w: OutputView, x: IndexView)
    requires
        w.wf(),
        random_access::moderate(w),
        x.wf(),
        spread(w.frames, w.frames.len() as int, x),
        ({
            let s = index::reduced(x).offsets;
            forall|i: int| 0 <= i < s.len() ==> random_access::marks(w.frames, #[trigger] s[i])
        }),
    ensures
        index::reduced(x).wf(),
        index::reduced(x).offsets.len() < index::MAX_INDEX_ENTRIES,
        parse::compressed_grows(index::reduced(x).offsets),
        parse::no_overflow(index::reduced(x).offsets, index::reduced(x).est_block_uncomp),
{
    let v = index::reduced(x);
    assert(w.frames.take(w.frames.len() as int) =~= w.frames);
    index::lemma_reduced(x);
    lemma_reduced_distance(x);
    lemma_bounds(w, v.offsets);
    parse::law_no_overflow(v.offsets, v.est_block_uncomp);
}

} // verus!
