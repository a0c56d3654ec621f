//! A seek by the index of a stream goes where it should.
use crate::block;
use crate::block::emit;
use crate::index;
use crate::index::parse;
use crate::index::wire;
use crate::index::{IndexView, OffsetPair};
use crate::stream::chunk;
use crate::stream::chunk::{ItemView, OptionsView};
use crate::stream::error::Error;
use crate::stream::laws;
use crate::stream::output;
use crate::stream::output::{Closing, Frame, OutputView};
use crate::stream::reader;
use crate::stream::reader::ReaderView;
use crate::stream::roundtrip;
use crate::stream::seek;
use vstd::prelude::*;

verus! {

/// An entry stands for the place before frame `k`.
pub open spec fn marks_at(fs: Seq<Frame>, e: OffsetPair, k: int) -> bool {
    &&& e.compressed == 10 + output::bytes_of(fs.take(k)).len()
    &&& e.uncompressed == output::data_of(fs.take(k)).len()
}

/// An entry stands for a place between frames.
pub open spec fn marks(fs: Seq<Frame>, e: OffsetPair) -> bool {
    exists|k: int| 0 <= k <= fs.len() && #[trigger] marks_at(fs, e, k)
}

/// Every entry of the index over frames stands for a place between them.
pub proof fn law_index_marks(block_size: usize, fs: Seq<Frame>)
    requires
        block_size > 0,
        10 + output::bytes_of(fs).len() <= u64::MAX,
        output::data_of(fs).len() <= u64::MAX,
    ensures
        forall|i: int|
            0 <= i < output::index_of(block_size, fs).offsets.len() ==> marks(
                fs,
                #[trigger] output::index_of(block_size, fs).offsets[i],
            ),
    decreases fs.len(),
{
    if fs.len() > 0 {
        let before = fs.drop_last();
        let n = before.len() as int;
        law_index_marks(block_size, before);
        roundtrip::lemma_index_of(block_size, before);
        let v = output::index_of(block_size, before);
        let w = output::index_of(block_size, fs);
        let new = OffsetPair {
            compressed: (10 + output::bytes_of(before).len()) as u64,
            uncompressed: chunk::wrapping(0, output::data_of(before).len() as int),
        };
        assert(fs.take(n) =~= before);
        assert(marks_at(fs, new, n));
        assert forall|i: int| 0 <= i < v.offsets.len() implies marks(
            fs,
            #[trigger] v.offsets[i],
        ) by {
            let e = v.offsets[i];
            let k = choose|k: int| 0 <= k <= before.len() && #[trigger] marks_at(before, e, k);
            assert(before.take(k) =~= fs.take(k));
            assert(marks_at(fs, e, k));
        }
        assert forall|i: int| 0 <= i < w.offsets.len() implies marks(
            fs,
            #[trigger] w.offsets[i],
        ) by {
            let t = v.offsets.push(new);
            if w.offsets != v.offsets {
                index::law_add_keeps_order(v, new.compressed, new.uncompressed);
                if w.offsets != t {
                    let est = (2 * v.est_block_uncomp) as u64;
                    index::lemma_thinned(t, est as int);
                    assert(t.contains(w.offsets[i]));
                    let j = choose|j: int| 0 <= j < t.len() && t[j] == w.offsets[i];
                    if j < v.offsets.len() {
                        assert(t[j] == v.offsets[j]);
                    }
                } else if i < v.offsets.len() {
                    assert(w.offsets[i] == v.offsets[i]);
                }
            }
        }
    }
}

/// The entry before an offset is one of the index, or the zero pair.
pub proof fn lemma_entry_cases(s: Seq<OffsetPair>, offset: int)
    ensures
        entry_is_zero(s, offset) || s.contains(index::entry_before(s, offset)),
    decreases s.len(),
{
    if s.len() > 0 {
        if s.last().uncompressed <= offset {
            assert(s[s.len() - 1] == s.last());
        } else {
            lemma_entry_cases(s.drop_last(), offset);
            if !entry_is_zero(s, offset) {
                let e = index::entry_before(s, offset);
                let k = choose|k: int| 0 <= k < s.drop_last().len() && s.drop_last()[k] == e;
                assert(s[k] == e);
            }
        }
    }
}

/// No entry stands at or before an offset.
pub open spec fn entry_is_zero(s: Seq<OffsetPair>, offset: int) -> bool {
    index::entry_before(s, offset) == OffsetPair { compressed: 0, uncompressed: 0 }
}

/// A reader is somewhere in a closed stream.
pub open spec fn within(v: ReaderView, w: OutputView, c: Closing) -> bool {
    &&& v.wf()
    &&& w.wf()
    &&& w.started
    &&& c.wf()
    &&& c.append_index ==> c.build_index
    &&& v.source == w.closed(c)
    &&& roundtrip::readable(v.options, w)
    &&& chunk::accepting(v.answers)
    &&& v.progress.header_read
    &&& w.block_size <= v.progress.max_block
    &&& output::data_of(w.frames).len() <= u64::MAX
}

/// A reader at the place before frame `k` reads the data from there on.
pub proof fn lemma_read_from(x: ReaderView, w: OutputView, c: Closing, k: int)
    requires
        within(x, w, c),
        0 <= k <= w.frames.len(),
        x.at == 10 + output::bytes_of(w.frames.take(k)).len(),
        x.progress.total == output::data_of(w.frames.take(k)).len(),
        x.pending() == Seq::<u8>::empty(),
    ensures
        reader::drained(x).data == output::data_of(w.frames).skip(
            output::data_of(w.frames.take(k)).len() as int,
        ),
        reader::drained(x).err is None,
        laws::until_end(x) == reader::drained(x).data.len(),
{
    let fs = w.frames;
    let a = fs.take(k);
    let b = fs.skip(k);
    assert(fs =~= a + b);
    roundtrip::lemma_frames_concat(a, b);
    let tail = roundtrip::closing_bytes(w, c);
    assert(w.header().len() == 10);
    assert(x.source =~= w.header() + output::bytes_of(a) + (output::bytes_of(b) + tail));
    assert(x.rest() =~= output::bytes_of(b) + tail);
    assert forall|i: int| 0 <= i < b.len() implies (#[trigger] b[i]).wf(
        x.progress.max_block as int,
    ) && roundtrip::accepts(x.options, b[i]) by {
        assert(b[i] == fs[k + i]);
        assert(fs[k + i].wf(w.block_size as int));
    }
    let y = roundtrip::lemma_read_frames(x, b, tail);
    roundtrip::lemma_read_closing(y, w, c);
    assert(reader::drained(x).data =~= output::data_of(b));
    assert(output::data_of(fs).skip(output::data_of(a).len() as int) =~= output::data_of(b));
}

/// A reader of a closed stream from where an entry of its index stands on, which does not
/// look for the start of the stream, reads the data from there on.
pub proof fn law_read_from_entry(o: OptionsView, w: OutputView, c: Closing, e: OffsetPair)
    requires
        w.wf(),
        w.started,
        c.wf(),
        c.append_index ==> c.build_index,
        roundtrip::readable(o, w),
        o.ignore_stream_id,
        marks(w.frames, e),
    ensures
        ({
            let v = reader::fresh(o, w.closed(c).skip(e.compressed as int));
            &&& v.wf()
            &&& reader::drained(v).data == output::data_of(w.frames).skip(e.uncompressed as int)
            &&& reader::drained(v).err is None
            &&& laws::until_end(v) == reader::drained(v).data.len()
        }),
{
    let fs = w.frames;
    let k = choose|k: int| 0 <= k <= fs.len() && #[trigger] marks_at(fs, e, k);
    let v = reader::fresh(o, w.closed(c).skip(e.compressed as int));
    let a = fs.take(k);
    let b = fs.skip(k);
    assert(fs =~= a + b);
    roundtrip::lemma_frames_concat(a, b);
    roundtrip::lemma_block_size(w.block_size);
    let tail = roundtrip::closing_bytes(w, c);
    assert(w.header().len() == 10);
    assert(w.closed(c) =~= w.header() + output::bytes_of(a) + (output::bytes_of(b) + tail));
    assert(v.rest() =~= output::bytes_of(b) + tail);
    assert(v.pending() =~= Seq::<u8>::empty());
    assert forall|i: int| 0 <= i < b.len() implies (#[trigger] b[i]).wf(
        v.progress.max_block as int,
    ) && roundtrip::accepts(v.options, b[i]) by {
        assert(b[i] == fs[k + i]);
        assert(fs[k + i].wf(w.block_size as int));
    }
    let y = roundtrip::lemma_read_frames(v, b, tail);
    roundtrip::lemma_read_closing(y, w, c);
    assert(reader::drained(v).data =~= output::data_of(b));
    assert(output::data_of(fs).skip(output::data_of(a).len() as int) =~= output::data_of(b));
}

/// A reader at the start of the source reads the start of the stream.
pub proof fn lemma_read_start(x: ReaderView, w: OutputView, c: Closing) -> (y: ReaderView)
    requires
        x.wf(),
        w.wf(),
        w.started,
        x.source == w.closed(c),
        roundtrip::readable(x.options, w),
        x.at == 0,
        x.pending() == Seq::<u8>::empty(),
    ensures
        reader::step(x.asked(), x.progress, x.rest()) == reader::Step::Passed(
            10,
            roundtrip::begun(w.block_size),
            ItemView::Start,
        ),
        y == reader::moved(x.emptied(), 10, roundtrip::begun(w.block_size), ItemView::Start),
        y.wf(),
        y.pending() == Seq::<u8>::empty(),
        reader::drained(x).data == reader::drained(y).data,
        reader::drained(x).err == reader::drained(y).err,
        reader::drained(x).reader == reader::drained(y).reader,
        laws::until_end(x) == laws::until_end(y),
        w.block_size <= y.progress.max_block,
{
    let more = output::bytes_of(w.frames) + roundtrip::closing_bytes(w, c);
    assert(x.rest() =~= w.header() + more);
    roundtrip::lemma_start_step(x.asked(), x.progress, w.block_size, more);
    reader::lemma_step(x);
    reveal(reader::drained);
    let y = reader::moved(x.emptied(), 10, roundtrip::begun(w.block_size), ItemView::Start);
    assert(y.pending() =~= Seq::<u8>::empty());
    assert(x.pending() + reader::drained(y).data =~= reader::drained(y).data);
    y
}

/// The current block of a reader is where it should be: from its start on, the reader
/// reads the data of the stream from there on.
pub open spec fn on_track(v: ReaderView, w: OutputView) -> bool {
    let d = reader::drained(ReaderView { pos: 0, ..v });
    &&& v.block_start <= output::data_of(w.frames).len()
    &&& d.data == output::data_of(w.frames).skip(v.block_start as int)
    &&& d.err is None
}

/// A reader that jumps to where an entry stands, or to the start, reads the data from
/// there on.
pub proof fn lemma_jump_reads(v: ReaderView, w: OutputView, c: Closing, e: OffsetPair)
    requires
        within(v, w, c),
        marks(w.frames, e) || e == (OffsetPair { compressed: 0, uncompressed: 0 }),
    ensures
        ({
            let x = reader::jumped(v, e.compressed as int, e.uncompressed);
            let d = reader::drained(x);
            &&& x.wf()
            &&& e.uncompressed <= output::data_of(w.frames).len()
            &&& d.data == output::data_of(w.frames).skip(e.uncompressed as int)
            &&& d.err is None
            &&& laws::until_end(x) == d.data.len()
        }),
{
    let data = output::data_of(w.frames);
    let x = reader::jumped(v, e.compressed as int, e.uncompressed);
    assert(x.pending() =~= Seq::<u8>::empty());
    if marks(w.frames, e) {
        let k = choose|k: int| 0 <= k <= w.frames.len() && #[trigger] marks_at(w.frames, e, k);
        lemma_place(w, c, k);
        lemma_read_from(x, w, c, k);
    } else {
        let y = lemma_read_start(x, w, c);
        assert(w.frames.take(0) =~= Seq::<Frame>::empty());
        lemma_place(w, c, 0);
        lemma_read_from(y, w, c, 0);
        assert(data.skip(0) =~= data);
    }
}

/// A reader that goes to an offset in a closed stream, by an index whose entries stand
/// for places in it, reads the data from that offset on.
pub proof fn law_seek_reads_from_offset(
    v: ReaderView,
    w: OutputView,
    c: Closing,
    idx: IndexView,
    offset: u64,
)
    requires
        within(v, w, c),
        on_track(v, w),
        idx.wf(),
        forall|i: int| 0 <= i < idx.offsets.len() ==> marks(w.frames, #[trigger] idx.offsets[i]),
        offset <= output::data_of(w.frames).len(),
    ensures
        seek::located(v, idx, offset).1 is None,
        reader::drained(seek::located(v, idx, offset).0).data == output::data_of(w.frames).skip(
            offset as int,
        ),
        reader::drained(seek::located(v, idx, offset).0).err is None,
{
    let data = output::data_of(w.frames);
    if v.block_start <= offset < v.block_start + v.block.len() {
        let v0 = ReaderView { pos: 0, ..v };
        let m = offset - v.block_start;
        reader::lemma_drained_take(v0, m);
        assert(data.skip(v.block_start as int).skip(m) =~= data.skip(offset as int));
    } else {
        let e = index::entry_before(idx.offsets, offset as int);
        let x = reader::jumped(v, e.compressed as int, e.uncompressed);
        index::law_entry_before(idx.offsets, offset as int);
        lemma_entry_cases(idx.offsets, offset as int);
        if idx.offsets.contains(e) {
            let i = choose|i: int| 0 <= i < idx.offsets.len() && idx.offsets[i] == e;
            assert(marks(w.frames, idx.offsets[i]));
        }
        lemma_jump_reads(v, w, c, e);
        let m = offset - e.uncompressed;
        laws::law_skip_then_read(x, m);
        assert(data.skip(e.uncompressed as int).skip(m) =~= data.skip(offset as int));
    }
}

/// The place before a frame is in the stream.
pub proof fn lemma_place(w: OutputView, c: Closing, k: int)
    requires
        w.started,
        0 <= k <= w.frames.len(),
    ensures
        10 + output::bytes_of(w.frames.take(k)).len() < w.closed(c).len(),
        output::data_of(w.frames.take(k)).len() <= output::data_of(w.frames).len(),
{
    let fs = w.frames;
    assert(fs =~= fs.take(k) + fs.skip(k));
    roundtrip::lemma_frames_concat(fs.take(k), fs.skip(k));
    assert(w.header().len() == 10);
    assert(output::end_chunk(w.total()).len() >= 4);
}

/// Frames take space in the stream.
proof fn lemma_bytes_grow(fs: Seq<Frame>, block_size: int)
    requires
        fs.len() > 0,
        forall|i: int| 0 <= i < fs.len() ==> (#[trigger] fs[i]).wf(block_size),
    ensures
        output::bytes_of(fs).len() > 0,
{
    assert(fs.last().wf(block_size));
    assert(fs.last() == fs[fs.len() - 1]);
    if let Frame::Block(d, c) = fs.last() {
        output::lemma_chunk_len(c, d);
    }
    assert(fs.last().bytes().len() > 0);
}

/// A place with more data before it is further on in the stream.
pub proof fn lemma_marks_grow(w: OutputView, a: OffsetPair, b: OffsetPair)
    requires
        w.wf(),
        marks(w.frames, a),
        marks(w.frames, b),
        a.uncompressed < b.uncompressed,
    ensures
        a.compressed < b.compressed,
{
    let fs = w.frames;
    let j = choose|k: int| 0 <= k <= fs.len() && #[trigger] marks_at(fs, a, k);
    let k = choose|k: int| 0 <= k <= fs.len() && #[trigger] marks_at(fs, b, k);
    if k <= j {
        let mid = fs.subrange(k, j);
        assert(fs.take(j) =~= fs.take(k) + mid);
        roundtrip::lemma_frames_concat(fs.take(k), mid);
    } else {
        let mid = fs.subrange(j, k);
        assert(fs.take(k) =~= fs.take(j) + mid);
        roundtrip::lemma_frames_concat(fs.take(j), mid);
        assert forall|i: int| 0 <= i < mid.len() implies (#[trigger] mid[i]).wf(
            w.block_size as int,
        ) by {
            assert(mid[i] == fs[j + i]);
        }
        lemma_bytes_grow(mid, w.block_size as int);
    }
}

/// Entries `i - 1` and `i` are at least `est` apart.
pub open spec fn apart(s: Seq<OffsetPair>, est: int, i: int) -> bool {
    s[i].uncompressed - s[i - 1].uncompressed >= est
}

/// All entries are at least `est` apart.
pub open spec fn spaced(s: Seq<OffsetPair>, est: int) -> bool {
    forall|i: int| 0 < i < s.len() ==> #[trigger] apart(s, est, i)
}

/// Entries that are spaced reach as far as their distances come to.
pub proof fn lemma_spaced_sum(s: Seq<OffsetPair>, est: int)
    requires
        spaced(s, est),
        s.len() > 0,
    ensures
        s.last().uncompressed >= (s.len() - 1) * est,
    decreases s.len(),
{
    let n = s.len() as int;
    if n > 1 {
        let t = s.drop_last();
        assert forall|i: int| 0 < i < t.len() implies #[trigger] apart(t, est, i) by {
            assert(apart(s, est, i));
        }
        lemma_spaced_sum(t, est);
        assert(apart(s, est, n - 1));
        assert((n - 1) * est == (n - 2) * est + est) by (nonlinear_arith);
    } else {
        assert((n - 1) * est == 0) by (nonlinear_arith)
            requires
                n == 1,
        ;
    }
}

/// The distance between the entries of an index that was built over frames.
pub open spec fn distance_ok(v: IndexView, fs: Seq<Frame>) -> bool {
    &&& index::MIN_INDEX_DIST <= v.est_block_uncomp
    &&& v.est_block_uncomp <= 0x100_0000 || v.est_block_uncomp <= output::data_of(fs).len()
    &&& spaced(v.offsets, v.est_block_uncomp as int)
}

proof fn lemma_spacing(n: int)
    requires
        0 < n <= 0x80_0000,
    ensures
        index::MIN_INDEX_DIST <= index::spacing(n) <= 0x100_0000,
    decreases
            (if n < index::MIN_INDEX_DIST {
                index::MIN_INDEX_DIST - n
            } else {
                0
            }),
{
    if n < index::MIN_INDEX_DIST {
        lemma_spacing(2 * n);
    }
}

/// The entries of the index over frames are spaced, by no more than the frames hold.
proof fn lemma_distance(w: OutputView)
    requires
        w.wf(),
        moderate(w),
    ensures
        distance_ok(w.index(), w.frames),
    decreases w.frames.len(),
{
    let fs = w.frames;
    if fs.len() == 0 {
        lemma_spacing(w.block_size as int);
    } else {
        let u = OutputView { frames: fs.drop_last(), ..w };
        assert forall|i: int| 0 <= i < u.frames.len() implies (#[trigger] u.frames[i]).wf(
            w.block_size as int,
        ) by {
            assert(u.frames[i] == fs[i]);
        }
        lemma_distance(u);
        let v = u.index();
        let x = w.index();
        if x != v {
            let new = OffsetPair {
                compressed: (10 + output::bytes_of(u.frames).len()) as u64,
                uncompressed: chunk::wrapping(0, output::data_of(u.frames).len() as int),
            };
            let t = v.offsets.push(new);
            let est = v.est_block_uncomp as int;
            roundtrip::lemma_index_of(w.block_size, u.frames);
            index::law_add_keeps_order(v, new.compressed, new.uncompressed);
            assert forall|i: int| 0 < i < t.len() implies #[trigger] apart(t, est, i) by {
                if i < v.offsets.len() {
                    assert(apart(v.offsets, est, i));
                }
            }
            if t.len() > index::MAX_ADDED_ENTRIES {
                lemma_spaced_sum(t, est);
                assert(65535 * est <= (t.len() - 1) * est) by (nonlinear_arith)
                    requires
                        t.len() > 65535,
                        est >= 0,
                ;
                let s = index::thinned(t, 2 * est);
                assert(index::in_order(t));
                index::lemma_thinned(t, 2 * est);
                assert forall|i: int| 0 < i < s.len() implies #[trigger] apart(s, 2 * est, i) by {
                    assert(s[i].uncompressed - s[i - 1].uncompressed >= 2 * est);
                }
            }
        }
    }
}

/// A stream is small enough that no sum over its offsets overflows.
pub open spec fn moderate(w: OutputView) -> bool {
    &&& output::bytes_of(w.frames).len() < 0x1fff_ffff_ffff_ffff
    &&& output::data_of(w.frames).len() < 0x1fff_ffff_ffff_ffff
}

/// The index of a stream, as it is when the stream is closed.
pub open spec fn final_index(w: OutputView, c: Closing) -> IndexView {
    index::finished(w.index(), Some(w.total()), w.stored_size(c))
}

/// The entries of the index of a closed stream stand for places in it, and have the
/// bounds that reading them back takes.
pub proof fn lemma_final_index(w: OutputView, c: Closing)
    requires
        w.wf(),
        w.started,
        moderate(w),
    ensures
        ({
            let idx = final_index(w, c);
            &&& idx.wf()
            &&& idx.offsets.len() < index::MAX_INDEX_ENTRIES
            &&& idx.est_block_uncomp <= 0x4000_0000_0000_0000
            &&& forall|i: int|
                0 <= i < idx.offsets.len() ==> marks(w.frames, #[trigger] idx.offsets[i])
        }),
{
    let fs = w.frames;
    let v = w.index();
    let s = final_index(w, c).offsets;
    roundtrip::lemma_index_of(w.block_size, fs);
    law_index_marks(w.block_size, fs);
    lemma_distance(w);
    index::lemma_reduced(v);
    index::law_reduce_keeps_entries(v);
    assert forall|i: int| 0 <= i < s.len() implies marks(fs, #[trigger] s[i]) by {
        assert(s[i] == index::reduced(v).offsets[i]);
        let j = choose|j: int| 0 <= j < v.offsets.len() && v.offsets[j] == s[i];
        assert(marks(fs, v.offsets[j]));
    }
    lemma_reduced_distance(v);
}

proof fn lemma_reduced_distance(v: IndexView)
    requires
        v.wf(),
        v.est_block_uncomp >= index::MIN_INDEX_DIST,
    ensures
        index::reduced(v).est_block_uncomp <= 2 * v.est_block_uncomp,
{
    index::lemma_reduced(v);
    let len = v.offsets.len() as int;
    let est = v.est_block_uncomp as int;
    if len >= index::MAX_INDEX_ENTRIES {
        let r0 = (len + 1) / index::MAX_INDEX_ENTRIES as int;
        assert(r0 == 1);
        assert(est * (r0 + 1) >= index::MIN_INDEX_DIST);
        assert(index::remove_count(est, len, r0) == r0);
    }
}

/// The entries of the index of a closed stream have bounds by which no sum overflows,
/// and grow.
proof fn lemma_final_bounds(w: OutputView, c: Closing)
    requires
        w.wf(),
        w.started,
        moderate(w),
    ensures
        parse::compressed_grows(final_index(w, c).offsets),
        parse::no_overflow(final_index(w, c).offsets, final_index(w, c).est_block_uncomp),
{
    let fs = w.frames;
    let s = final_index(w, c).offsets;
    lemma_final_index(w, c);
    assert forall|i: int, j: int| #![trigger s[i], s[j]] 0 <= i < j < s.len() implies s[i].compressed
        < s[j].compressed by {
        lemma_marks_grow(w, s[i], s[j]);
    }
    assert forall|i: int| 0 <= i < s.len() implies (#[trigger] s[i]).compressed
        <= 0x4000_0000_0000_0000 && s[i].uncompressed <= 0x4000_0000_0000_0000 - 1 by {
        let k = choose|k: int| 0 <= k <= fs.len() && #[trigger] marks_at(fs, s[i], k);
        assert(fs =~= fs.take(k) + fs.skip(k));
        roundtrip::lemma_frames_concat(fs.take(k), fs.skip(k));
    }
    parse::law_no_overflow(s, final_index(w, c).est_block_uncomp);
}

/// The index of a closed stream reads back as written, and its entries stand for places
/// in the stream.
pub proof fn law_index_of_stream(w: OutputView, c: Closing, tail: Seq<u8>)
    requires
        w.wf(),
        w.started,
        c.build_index,
        moderate(w),
    ensures
        final_index(w, c).wf(),
        forall|i: int|
            0 <= i < final_index(w, c).offsets.len() ==> marks(
                w.frames,
                #[trigger] final_index(w, c).offsets[i],
            ),
        parse::parse_index(w.index_bytes(c) + tail) == Ok::<(IndexView, Seq<u8>), index::Error>(
            (final_index(w, c), tail),
        ),
        w.closes(c),
{
    lemma_final_index(w, c);
    lemma_final_bounds(w, c);
    lemma_closes(w, c);
    parse::law_load_inverts_append(final_index(w, c), tail);
}

/// The sizes of a stream that is small enough fit in its index.
pub proof fn lemma_closes(w: OutputView, c: Closing)
    requires
        w.wf(),
        w.started,
        moderate(w),
    ensures
        w.closes(c),
        index::total_fits(Some(w.total())),
        index::total_fits(w.stored_size(c)),
{
    let t = block::format::uvarint(w.total() as nat);
    block::format::lemma_uvarint_roundtrip(w.total(), Seq::empty());
    block::format::lemma_parse_uvarint_bounds(t + Seq::empty());
    assert(w.header().len() == 10);
    assert(w.ended().len() == 10 + output::bytes_of(w.frames).len() + 4 + t.len());
}

/// The index at the end of a closed stream is found there and reads back as written.
pub proof fn law_appended_index_loads(w: OutputView, c: Closing)
    requires
        w.wf(),
        w.started,
        c.build_index,
        c.append_index,
        moderate(w),
    ensures
        index::index_at_end(w.closed(c)) == Ok::<IndexView, index::Error>(final_index(w, c)),
{
    let idx = final_index(w, c);
    law_index_of_stream(w, c, Seq::empty());
    lemma_final_index(w, c);
    index::lemma_payload_len(idx);
    let front = w.ended() + output::padding_chunk(
        output::padding_len(c.padding, (w.ended().len() + w.appended(c).len()) as int),
    );
    assert(w.closed(c) == front + w.index_bytes(c));
    lemma_found_at_end(front, wire::payload(idx), idx);
}

/// An index chunk at the end of a stream is found there.
proof fn lemma_found_at_end(front: Seq<u8>, p: Seq<u8>, idx: IndexView)
    requires
        p.len() <= 0x14_0100,
        parse::parse_index(wire::index_chunk(p) + Seq::<u8>::empty()) == Ok::<
            (IndexView, Seq<u8>),
            index::Error,
        >((idx, Seq::empty())),
    ensures
        index::index_at_end(front + wire::index_chunk(p)) == Ok::<IndexView, index::Error>(idx),
{
    let chunk = wire::index_chunk(p);
    let b = front + chunk;
    lemma_chunk_tail(front, p);
    assert(chunk + Seq::<u8>::empty() =~= chunk);
    let n = chunk.len() as int;
    assert(index::size_in_tail(b.skip(b.len() - 10)) == Ok::<int, index::Error>(n));
    assert(b.skip(b.len() - n) == chunk);
}

proof fn lemma_tail_parts(front: Seq<u8>, h: Seq<u8>, p: Seq<u8>, e: Seq<u8>, t: Seq<u8>)
    requires
        e.len() == 4,
        t.len() == 6,
    ensures
        ({
            let chunk = h + p + e + t;
            let b = front + chunk;
            let tail = b.skip(b.len() - 10);
            &&& b.skip(b.len() - chunk.len()) == chunk
            &&& chunk.len() == h.len() + p.len() + 10
            &&& tail.len() == 10
            &&& tail.subrange(4, 10) == t
            &&& tail[0] == e[0] && tail[1] == e[1] && tail[2] == e[2] && tail[3] == e[3]
        }),
{
    let chunk = h + p + e + t;
    let b = front + chunk;
    assert(b.skip(b.len() - chunk.len()) =~= chunk);
    assert(b.skip(b.len() - 10).subrange(4, 10) =~= t);
}

proof fn lemma_chunk_tail(front: Seq<u8>, p: Seq<u8>)
    requires
        p.len() <= 0x14_0100,
    ensures
        ({
            let chunk = wire::index_chunk(p);
            let b = front + chunk;
            &&& b.skip(b.len() - chunk.len()) == chunk
            &&& chunk.len() >= 10
            &&& index::size_in_tail(b.skip(b.len() - 10)) == Ok::<int, index::Error>(
                chunk.len() as int,
            )
        }),
{
    let n = p.len() as int + 20;
    let h = seq![index::CHUNK_TYPE_INDEX] + emit::le24_bytes(n - 4) + wire::index_header();
    assert(n % 0x1_0000_0000 == n);
    assert((n - 4) % 0x100_0000 == n - 4);
    emit::lemma_le32_bytes(n);
    lemma_tail_parts(front, h, p, emit::le32_bytes(n), wire::index_trailer());
    let b = front + wire::index_chunk(p);
    assert(block::ops::le32(b.skip(b.len() - 10), 0) == n);
}

} // verus!
