//! What a writer puts out, a reader reads back.
use crate::block::Level;
use crate::block;
use crate::block::emit;
use crate::index;
use crate::index::wire;
use crate::stream::chunk;
use crate::stream::chunk::{Answer, ItemView, OptionsView, Progress};
use crate::stream::crc;
use crate::stream::error::Error;
use crate::stream::format as layout;
use crate::stream::laws;
use crate::stream::format::{
    CHUNK_TYPE_EOF, CHUNK_TYPE_PADDING, CHUNK_TYPE_UNCOMPRESSED_DATA, MAX_BLOCK_SIZE,
    MAX_USER_CHUNK_SIZE, MIN_USER_NON_SKIPPABLE_CHUNK,
};
use crate::stream::output;
use crate::stream::output::{Closing, Frame, OutputView};
use crate::stream::reader;
use crate::stream::reader::{Reader, ReaderView, Step};
use crate::stream::writer;
use crate::stream::writer::WriterView;
use vstd::arithmetic::power2;
use vstd::prelude::*;

verus! {

/// Frames one after the other.
pub proof fn lemma_frames_concat(a: Seq<Frame>, b: Seq<Frame>)
    ensures
        output::bytes_of(a + b) == output::bytes_of(a) + output::bytes_of(b),
        output::data_of(a + b) == output::data_of(a) + output::data_of(b),
    decreases b.len(),
{
    if b.len() == 0 {
        assert(a + b =~= a);
    } else {
        lemma_frames_concat(a, b.drop_last());
        assert((a + b).drop_last() =~= a + b.drop_last());
    }
}

/// The first frame and the others.
pub proof fn lemma_frames_first(fs: Seq<Frame>)
    requires
        fs.len() > 0,
    ensures
        output::bytes_of(fs) == fs[0].bytes() + output::bytes_of(fs.skip(1)),
        output::data_of(fs) == fs[0].data() + output::data_of(fs.skip(1)),
{
    let a = seq![fs[0]];
    lemma_frames_concat(a, fs.skip(1));
    assert(a + fs.skip(1) =~= fs);
    assert(a.drop_last() =~= Seq::<Frame>::empty());
    assert(output::bytes_of(a.drop_last()) =~= Seq::<u8>::empty());
    assert(output::data_of(a.drop_last()) =~= Seq::<u8>::empty());
    assert(output::bytes_of(a) =~= fs[0].bytes());
    assert(output::data_of(a) =~= fs[0].data());
}

/// What a reader makes of a chunk.
pub open spec fn taken_for(o: OptionsView, p: Progress, kind: u8, body: Seq<u8>) -> Step {
    match chunk::planned(o, p, false, kind, body.len() as int) {
        Err(e) => Step::Failed(4, e),
        Ok(plan) => match chunk::finished(o, p, plan, kind, body) {
            Err(e) => Step::Failed(4 + body.len() as int, e),
            Ok((p2, item)) => reader::answered(o, 4 + body.len() as int, p2, item),
        },
    }
}

/// A reader that has a chunk before it takes it by its type and its body.
pub proof fn lemma_chunk_step(o: OptionsView, p: Progress, kind: u8, body: Seq<u8>, tail: Seq<u8>)
    requires
        body.len() < 0x100_0000,
    ensures
        reader::step(o, p, layout::chunk_header(kind, body.len() as int) + body + tail)
            == taken_for(o, p, kind, body),
{
    reveal(reader::step);
    let len = body.len() as int;
    let s = layout::chunk_header(kind, len) + body + tail;
    assert(s =~= layout::chunk_header(kind, len) + (body + tail));
    layout::law_chunk_len_roundtrip(kind, len, body + tail);
    assert(s.subrange(4, 4 + len) =~= body);
}

proof fn lemma_parts(h: Seq<u8>, e: Seq<u8>, x: Seq<u8>)
    requires
        e.len() == 4,
    ensures
        h + e + x == h + (e + x),
        (e + x).skip(4) == x,
        (e + x).len() == 4 + x.len(),
        (e + x)[0] == e[0] && (e + x)[1] == e[1] && (e + x)[2] == e[2] && (e + x)[3] == e[3],
{
    assert(h + e + x =~= h + (e + x));
    assert((e + x).skip(4) =~= x);
}

proof fn lemma_chunk_body(kind: u8, c: Seq<u8>, d: Seq<u8>)
    requires
        c.len() >= 8,
        c == output::data_header(kind, c.len() - 8, d) + c.skip(8),
    ensures
        ({
            let body = emit::le32_bytes(crc::masked_crc_of(d) as int) + c.skip(8);
            &&& c == layout::chunk_header(kind, body.len() as int) + body
            &&& body.skip(4) == c.skip(8)
            &&& crc::word_of(body) == crc::masked_crc_of(d)
            &&& body.len() == c.len() - 4
        }),
{
    let sum = crc::masked_crc_of(d) as int;
    let e = emit::le32_bytes(sum);
    emit::lemma_le32_bytes(sum);
    lemma_parts(layout::chunk_header(kind, c.len() - 4), e, c.skip(8));
}

proof fn lemma_stored_step(o: OptionsView, p: Progress, d: Seq<u8>, tail: Seq<u8>)
    requires
        o.wf(),
        p.wf(),
        p.header_read,
        0 < d.len() <= p.max_block,
    ensures
        reader::step(o, p, output::stored_chunk(d) + tail) == Step::Passed(
            8 + d.len() as int,
            Progress { total: chunk::wrapping(p.total, d.len() as int), ..p },
            ItemView::Data(d),
        ),
{
    let kind = CHUNK_TYPE_UNCOMPRESSED_DATA;
    let c = output::stored_chunk(d);
    let body = emit::le32_bytes(crc::masked_crc_of(d) as int) + d;
    assert(c.skip(8) =~= d);
    assert(c =~= output::data_header(kind, c.len() - 8, d) + c.skip(8));
    lemma_chunk_body(kind, c, d);
    lemma_chunk_step(o, p, kind, body, tail);
}

proof fn lemma_packed_step(o: OptionsView, p: Progress, d: Seq<u8>, c: Seq<u8>, tail: Seq<u8>)
    requires
        o.wf(),
        p.wf(),
        p.header_read,
        0 < d.len() <= p.max_block,
        output::is_packed_chunk(c, d),
    ensures
        reader::step(o, p, c + tail) == Step::Passed(
            c.len() as int,
            Progress { total: chunk::wrapping(p.total, d.len() as int), ..p },
            ItemView::Data(d),
        ),
{
    let kind = layout::CHUNK_TYPE_MINLZ_COMPRESSED_DATA;
    let body = emit::le32_bytes(crc::masked_crc_of(d) as int) + c.skip(8);
    lemma_chunk_body(kind, c, d);
    lemma_chunk_step(o, p, kind, body, tail);
    block::law_chunk_declared_length(c.skip(8));
}

/// A reader takes the chunk of a block for the block.
pub proof fn lemma_block_step(o: OptionsView, p: Progress, d: Seq<u8>, c: Seq<u8>, tail: Seq<u8>)
    requires
        o.wf(),
        p.wf(),
        p.header_read,
        0 < d.len() <= p.max_block,
        output::is_chunk_of(c, d),
    ensures
        reader::step(o, p, c + tail) == Step::Passed(
            c.len() as int,
            Progress { total: chunk::wrapping(p.total, d.len() as int), ..p },
            ItemView::Data(d),
        ),
{
    reveal(output::is_chunk_of);
    if c == output::stored_chunk(d) {
        lemma_stored_step(o, p, d, tail);
    } else {
        lemma_packed_step(o, p, d, c, tail);
    }
}

/// Whether a reader lets a user chunk pass, where its callback does not refuse it.
pub open spec fn accepts(o: OptionsView, f: Frame) -> bool {
    match f {
        Frame::Block(_, _) => true,
        Frame::User(id, _) => o.callback(id) || id < MIN_USER_NON_SKIPPABLE_CHUNK,
    }
}

/// The user chunks that a reader hands to callbacks, of frames.
pub open spec fn handed_of(o: OptionsView, fs: Seq<Frame>) -> Seq<(u8, Seq<u8>)>
    decreases fs.len(),
{
    if fs.len() == 0 {
        Seq::empty()
    } else {
        handed_of_frame(o, fs[0]) + handed_of(o, fs.skip(1))
    }
}

/// A reader lets a user chunk pass where there is no callback for it, or where the
/// callback accepts it.
pub proof fn lemma_user_step(o: OptionsView, p: Progress, id: u8, b: Seq<u8>, tail: Seq<u8>)
    requires
        o.wf(),
        chunk::is_user(id),
        b.len() <= MAX_USER_CHUNK_SIZE,
        accepts(o, Frame::User(id, b)),
        o.callback(id) ==> o.answer is Ok,
    ensures
        reader::step(o, p, Frame::User(id, b).bytes() + tail) == Step::Passed(
            4 + b.len() as int,
            p,
            if o.callback(id) {
                ItemView::User(id, b)
            } else {
                ItemView::Skipped
            },
        ),
{
    lemma_chunk_step(o, p, id, b, tail);
}

/// A reader stops at a user chunk that the callback refuses.
proof fn lemma_refused_step(
    o: OptionsView,
    p: Progress,
    id: u8,
    b: Seq<u8>,
    tail: Seq<u8>,
    e: Error,
)
    requires
        o.wf(),
        chunk::is_user(id),
        b.len() <= MAX_USER_CHUNK_SIZE,
        o.callback(id),
        o.answer == Err::<(), Error>(e),
    ensures
        reader::step(o, p, Frame::User(id, b).bytes() + tail) == Step::Refused(
            4 + b.len() as int,
            id,
            b,
            e,
        ),
{
    lemma_chunk_step(o, p, id, b, tail);
}

/// A reader leaves out a chunk without a meaning.
pub proof fn lemma_skipped_step(o: OptionsView, p: Progress, kind: u8, b: Seq<u8>, tail: Seq<u8>)
    requires
        kind == CHUNK_TYPE_PADDING || kind == index::CHUNK_TYPE_INDEX,
        b.len() < 0x100_0000,
    ensures
        reader::step(o, p, layout::chunk_header(kind, b.len() as int) + b + tail) == Step::Passed(
            4 + b.len() as int,
            p,
            ItemView::Skipped,
        ),
{
    lemma_chunk_step(o, p, kind, b, tail);
}

/// A reader takes the end of a stream of `total` bytes for it, where it has seen as much
/// or does not look.
pub proof fn lemma_end_step(o: OptionsView, p: Progress, total: u64, tail: Seq<u8>)
    requires
        p.total == total || o.ignore_stream_id,
    ensures
        reader::step(o, p, output::end_chunk(total) + tail) == Step::Passed(
            output::end_chunk(total).len() as int,
            Progress { expect_eof: false, header_read: false, ..p },
            ItemView::End,
        ),
{
    let v = block::format::uvarint(total as nat);
    block::format::lemma_uvarint_roundtrip(total, Seq::empty());
    assert(v + Seq::<u8>::empty() =~= v);
    block::format::lemma_parse_uvarint_bounds(v);
    lemma_chunk_step(o, p, CHUNK_TYPE_EOF, v, tail);
}

/// The largest block of a stream with blocks of at most `block_size` bytes.
pub open spec fn negotiated(block_size: usize) -> int {
    power2::pow2((layout::indicator_of(block_size as int) + 10) as nat) as int
}

/// The progress behind the start of a stream.
pub open spec fn begun(block_size: usize) -> Progress {
    Progress {
        max_block: negotiated(block_size) as usize,
        header_read: true,
        expect_eof: true,
        total: 0,
    }
}

/// A stream may hold blocks of its block size.
pub proof fn lemma_block_size(block_size: usize)
    requires
        layout::MIN_BLOCK_SIZE <= block_size <= MAX_BLOCK_SIZE,
    ensures
        block_size <= negotiated(block_size) <= MAX_BLOCK_SIZE,
{
    let i = layout::indicator_of(block_size as int);
    layout::lemma_indicator_exists(block_size as int);
    layout::law_indicator_roundtrip(i, block_size as int);
    layout::lemma_size_of_indicator(i);
}

/// A reader takes the start of a stream for it.
pub proof fn lemma_start_step(o: OptionsView, p: Progress, block_size: usize, tail: Seq<u8>)
    requires
        layout::MIN_BLOCK_SIZE <= block_size <= MAX_BLOCK_SIZE,
        o.wf(),
        negotiated(block_size) <= o.max_block_size,
    ensures
        reader::step(
            o,
            p,
            layout::stream_header(layout::indicator_of(block_size as int)) + tail,
        ) == Step::Passed(10, begun(block_size), ItemView::Start),
        block_size <= negotiated(block_size) <= MAX_BLOCK_SIZE,
        begun(block_size).wf(),
{
    let i = layout::indicator_of(block_size as int);
    layout::lemma_indicator_exists(block_size as int);
    layout::law_indicator_roundtrip(i, block_size as int);
    layout::lemma_size_of_indicator(i);
    let body = layout::magic() + seq![i];
    let kind = layout::CHUNK_TYPE_STREAM_IDENTIFIER;
    assert(layout::stream_header(i) =~= layout::chunk_header(kind, 6) + body);
    assert(body.take(5) =~= layout::magic());
    lemma_chunk_step(o, p, kind, body, tail);
}

/// The user chunk that a reader hands to a callback, of a frame.
pub open spec fn handed_of_frame(o: OptionsView, f: Frame) -> Seq<(u8, Seq<u8>)> {
    match f {
        Frame::User(id, b) if o.callback(id) => seq![(id, b)],
        _ => Seq::empty(),
    }
}

/// A reader that has a frame before it takes its data and comes to what follows.
pub proof fn lemma_read_frame(v: ReaderView, f: Frame, rest: Seq<u8>) -> (x: ReaderView)
    requires
        v.wf(),
        v.progress.header_read,
        v.rest() == f.bytes() + rest,
        f.wf(v.progress.max_block as int),
        accepts(v.options, f),
        chunk::accepting_first(v.ahead(), handed_of_frame(v.options, f).len() as int),
    ensures
        x.wf(),
        x.options == v.options,
        x.answers == v.answers,
        x.ahead() == if handed_of_frame(v.options, f).len() > 0 {
            chunk::later_answers(v.ahead())
        } else {
            v.ahead()
        },
        x.progress == (Progress {
            total: chunk::wrapping(v.progress.total, f.data().len() as int),
            ..v.progress
        }),
        x.rest() == rest,
        x.source == v.source,
        x.pending() == f.data(),
        x.chunks == v.chunks + handed_of_frame(v.options, f),
        x.err == v.err,
        reader::drained(v).data == v.pending() + reader::drained(x).data,
        reader::drained(v).err == reader::drained(x).err,
        reader::drained(v).reader == reader::drained(x).reader,
        laws::until_end(v) == v.pending().len() + laws::until_end(x),
{
    reveal(reader::drained);
    let u = v.emptied();
    let n = f.bytes().len() as int;
    let o = v.asked();
    reader::lemma_step(v);
    let (p, item) = match f {
        Frame::Block(d, c) => {
            lemma_block_step(o, v.progress, d, c, rest);
            (
                Progress { total: chunk::wrapping(v.progress.total, d.len() as int), ..v.progress },
                ItemView::Data(d),
            )
        },
        Frame::User(id, b) => {
            lemma_user_step(o, v.progress, id, b, rest);
            (
                v.progress,
                if o.callback(id) {
                    ItemView::User(id, b)
                } else {
                    ItemView::Skipped
                },
            )
        },
    };
    assert(reader::step(o, v.progress, v.rest()) == Step::Passed(n, p, item));
    let x = reader::moved(u, n, p, item);
    laws::lemma_moved_ahead(v, n, p, item);
    assert(x.rest() =~= v.rest().skip(n));
    assert(x.rest() =~= rest);
    assert(x.pending() =~= f.data());
    assert(x.chunks =~= v.chunks + handed_of_frame(o, f));
    x
}

proof fn lemma_assoc<T>(a: Seq<T>, b: Seq<T>, c: Seq<T>)
    ensures
        (a + b) + c == a + (b + c),
{
    assert((a + b) + c =~= a + (b + c));
}

proof fn lemma_wrapping(t: u64, a: int, b: int)
    ensures
        chunk::wrapping(chunk::wrapping(t, a), b) == chunk::wrapping(t, a + b),
{
}

/// A reader that has frames before it reads their data and comes to what follows.
pub proof fn lemma_read_frames(v: ReaderView, fs: Seq<Frame>, tail: Seq<u8>) -> (w: ReaderView)
    requires
        v.wf(),
        v.progress.header_read,
        v.rest() == output::bytes_of(fs) + tail,
        forall|i: int|
            0 <= i < fs.len() ==> (#[trigger] fs[i]).wf(v.progress.max_block as int) && accepts(
                v.options,
                fs[i],
            ),
        chunk::accepting_first(v.ahead(), handed_of(v.options, fs).len() as int),
    ensures
        w.wf(),
        w.options == v.options,
        w.answers == v.answers,
        w.pos == w.block.len(),
        w.progress == (Progress {
            total: chunk::wrapping(v.progress.total, output::data_of(fs).len() as int),
            ..v.progress
        }),
        w.rest() == tail,
        w.source == v.source,
        w.pending() == Seq::<u8>::empty(),
        w.chunks == v.chunks + handed_of(v.options, fs),
        w.err == v.err,
        reader::drained(v).data == v.pending() + output::data_of(fs) + reader::drained(w).data,
        reader::drained(v).err == reader::drained(w).err,
        reader::drained(v).reader == reader::drained(w).reader,
        laws::until_end(v) == v.pending().len() + output::data_of(fs).len() + laws::until_end(w),
    decreases fs.len(),
{
    let u = v.emptied();
    if fs.len() == 0 {
        assert(v.rest() =~= tail);
        reader::lemma_drained_take(v, v.pending().len() as int);
        laws::lemma_until_end_take(v, v.pending().len() as int);
        assert(u =~= ReaderView { pos: v.pos + v.pending().len(), ..v });
        assert(u.pending() =~= Seq::<u8>::empty());
        assert(u.chunks =~= v.chunks + handed_of(v.options, fs));
        assert(reader::drained(v).data =~= v.pending() + output::data_of(fs) + reader::drained(
            u,
        ).data);
        u
    } else {
        let f = fs[0];
        let more = fs.skip(1);
        lemma_frames_first(fs);
        let rest = output::bytes_of(more) + tail;
        lemma_assoc(f.bytes(), output::bytes_of(more), tail);
        assert(accepts(v.options, f) && f.wf(v.progress.max_block as int));
        assert(handed_of(v.options, fs) == handed_of_frame(v.options, f) + handed_of(v.options, more));
        let x = lemma_read_frame(v, f, rest);
        assert forall|i: int|
            0 <= i < x.ahead().len() && i < handed_of(v.options, more).len() implies #[trigger]
        x.ahead()[i] == Ok::<(), Error>(()) by {
            let k = handed_of_frame(v.options, f).len() as int;
            assert(x.ahead()[i] == v.ahead()[i + k]);
        }
        assert forall|i: int| 0 <= i < more.len() implies (#[trigger] more[i]).wf(
            x.progress.max_block as int,
        ) && accepts(v.options, more[i]) by {
            assert(more[i] == fs[i + 1]);
        }
        let w = lemma_read_frames(x, more, tail);
        lemma_assoc(v.chunks, handed_of_frame(v.options, f), handed_of(v.options, more));
        let d = output::data_of(more);
        lemma_assoc(v.pending(), f.data() + d, reader::drained(w).data);
        lemma_wrapping(v.progress.total, f.data().len() as int, d.len() as int);
        w
    }
}

/// The index over frames is in order.
pub proof fn lemma_index_of(block_size: usize, fs: Seq<Frame>)
    requires
        block_size > 0,
    ensures
        output::index_of(block_size, fs).wf(),
    decreases fs.len(),
{
    if fs.len() > 0 {
        let before = fs.drop_last();
        lemma_index_of(block_size, before);
        index::law_add_keeps_order(
            output::index_of(block_size, before),
            (10 + output::bytes_of(before).len()) as u64,
            chunk::wrapping(0, output::data_of(before).len() as int),
        );
    }
}

/// The index chunk of a stream is a chunk.
pub proof fn lemma_index_chunk(w: OutputView, c: Closing)
    requires
        w.wf(),
        c.build_index,
    ensures
        ({
            let b = w.index_bytes(c);
            let len = b.len() - 4;
            &&& 0 <= len < 0x100_0000
            &&& b == layout::chunk_header(index::CHUNK_TYPE_INDEX, len) + b.skip(4)
        }),
{
    lemma_index_of(w.block_size, w.frames);
    index::lemma_reduced(w.index());
    let v = index::finished(w.index(), Some(w.total()), w.stored_size(c));
    index::lemma_payload_len(v);
    let p = wire::payload(v);
    let b = wire::index_chunk(p);
    assert((p.len() as int + 16) % 0x100_0000 == p.len() + 16);
    assert(b =~= layout::chunk_header(index::CHUNK_TYPE_INDEX, b.len() - 4) + b.skip(4));
}

/// A reader that has nothing but a chunk without a meaning before it, or nothing at
/// all, and that waits for no end, comes to what follows.
proof fn lemma_read_skipped(v: ReaderView, kind: u8, b: Seq<u8>, tail: Seq<u8>) -> (x: ReaderView)
    requires
        v.wf(),
        kind == CHUNK_TYPE_PADDING || kind == index::CHUNK_TYPE_INDEX,
        b.len() < 0x100_0000,
        v.rest() == b + tail || v.rest() == layout::chunk_header(kind, b.len() as int) + b + tail,
        v.rest() == b + tail ==> b.len() == 0,
        v.pending() == Seq::<u8>::empty(),
    ensures
        x.wf(),
        x.options == v.options,
        x.progress == v.progress,
        x.rest() == tail,
        x.pending() == Seq::<u8>::empty(),
        x.chunks == v.chunks,
        reader::drained(v).data == reader::drained(x).data,
        reader::drained(v).err == reader::drained(x).err,
        reader::drained(v).reader == reader::drained(x).reader,
{
    if v.rest() == b + tail {
        assert(v.rest() =~= tail);
        v
    } else {
        reveal(reader::drained);
        reader::lemma_step(v);
        lemma_skipped_step(v.asked(), v.progress, kind, b, tail);
        let n = 4 + b.len() as int;
        let x = reader::moved(v.emptied(), n, v.progress, ItemView::Skipped);
        assert(x.rest() =~= v.rest().skip(n));
        assert(x.rest() =~= tail);
        assert(x.pending() =~= Seq::<u8>::empty());
        assert(v.pending() + reader::drained(x).data =~= reader::drained(x).data);
        x
    }
}

/// A reader that has the end of a stream before it comes to what follows.
proof fn lemma_read_end(v: ReaderView, total: u64, tail: Seq<u8>) -> (x: ReaderView)
    requires
        v.wf(),
        v.progress.total == total || v.options.ignore_stream_id,
        v.rest() == output::end_chunk(total) + tail,
        v.pending() == Seq::<u8>::empty(),
    ensures
        x.wf(),
        x.options == v.options,
        x.progress == (Progress { expect_eof: false, header_read: false, ..v.progress }),
        x.rest() == tail,
        x.pending() == Seq::<u8>::empty(),
        x.chunks == v.chunks,
        reader::drained(v).data == reader::drained(x).data,
        reader::drained(v).err == reader::drained(x).err,
        reader::drained(v).reader == reader::drained(x).reader,
{
    reveal(reader::drained);
    reader::lemma_step(v);
    lemma_end_step(v.asked(), v.progress, total, tail);
    let n = output::end_chunk(total).len() as int;
    let p = Progress { expect_eof: false, header_read: false, ..v.progress };
    let x = reader::moved(v.emptied(), n, p, ItemView::End);
    assert(x.rest() =~= v.rest().skip(n));
    assert(x.rest() =~= tail);
    assert(x.pending() =~= Seq::<u8>::empty());
    assert(v.pending() + reader::drained(x).data =~= reader::drained(x).data);
    x
}

/// A reader that has nothing before it and waits for no end is done.
proof fn lemma_read_nothing(v: ReaderView)
    requires
        v.wf(),
        v.rest() == Seq::<u8>::empty(),
        !v.progress.expect_eof,
        v.pending() == Seq::<u8>::empty(),
    ensures
        reader::drained(v).data == Seq::<u8>::empty(),
        reader::drained(v).err is None,
        reader::drained(v).reader.chunks == v.chunks,
{
    reveal(reader::drained);
    reveal(reader::step);
}

/// What stands behind the blocks of a closed stream reads as nothing.
pub proof fn lemma_read_closing(v: ReaderView, w: OutputView, c: Closing)
    requires
        v.wf(),
        w.wf(),
        c.wf(),
        c.append_index ==> c.build_index,
        v.progress.total == w.total() || v.options.ignore_stream_id,
        v.pending() == Seq::<u8>::empty(),
        v.rest() == closing_bytes(w, c),
    ensures
        reader::drained(v).data == Seq::<u8>::empty(),
        reader::drained(v).err is None,
        reader::drained(v).reader.chunks == v.chunks,
        laws::until_end(v) == 0,
{
    let tail = w.appended(c);
    let n = output::padding_len(c.padding, (w.ended().len() + tail.len()) as int);
    let pad = output::padding_chunk(n);
    output::law_padding(c.padding, (w.ended().len() + tail.len()) as int);
    assert(v.rest() =~= output::end_chunk(w.total()) + (pad + tail));
    lemma_end_step(v.asked(), v.progress, w.total(), pad + tail);
    let x = lemma_read_end(v, w.total(), pad + tail);
    let zeros = Seq::new(
        (if n == 0 {
            0
        } else {
            n - 4
        }) as nat,
        |i: int| 0u8,
    );
    if n == 0 {
        assert(pad + tail =~= zeros + tail);
    } else {
        assert(pad + tail == layout::chunk_header(CHUNK_TYPE_PADDING, zeros.len() as int) + zeros
            + tail);
    }
    let y = lemma_read_skipped(x, CHUNK_TYPE_PADDING, zeros, tail);
    if c.append_index {
        lemma_index_chunk(w, c);
        let b = tail.skip(4);
        assert(y.rest() =~= layout::chunk_header(index::CHUNK_TYPE_INDEX, b.len() as int) + b
            + Seq::<u8>::empty());
        let z = lemma_read_skipped(y, index::CHUNK_TYPE_INDEX, b, Seq::empty());
        lemma_read_nothing(z);
    } else {
        lemma_read_nothing(y);
    }
}

/// What stands behind the blocks of a closed stream.
pub open spec fn closing_bytes(w: OutputView, c: Closing) -> Seq<u8> {
    let tail = w.appended(c);
    output::end_chunk(w.total()) + output::padding_chunk(
        output::padding_len(c.padding, (w.ended().len() + tail.len()) as int),
    ) + tail
}

/// A reader with these options takes all that was put out.
pub open spec fn readable(o: OptionsView, w: OutputView) -> bool {
    &&& o.wf()
    &&& negotiated(w.block_size) <= o.max_block_size
    &&& forall|i: int| 0 <= i < w.frames.len() ==> accepts(o, #[trigger] w.frames[i])
}

/// A closed stream reads as the blocks that were put out, all of them before its end.
pub proof fn law_reader_inverts_output(w: OutputView, c: Closing, o: OptionsView)
    requires
        w.wf(),
        w.started,
        c.wf(),
        c.append_index ==> c.build_index,
        readable(o, w),
    ensures
        ({
            let d = reader::drained(reader::fresh(o, w.closed(c)));
            &&& d.data == output::data_of(w.frames)
            &&& d.err is None
            &&& d.reader.chunks == handed_of(o, w.frames)
            &&& laws::until_end(reader::fresh(o, w.closed(c))) == d.data.len()
        }),
{
    let v = reader::fresh(o, w.closed(c));
    law_callbacks_accept(w, c, o, Seq::empty());
    assert(v.told(Seq::empty()) =~= v);
}

/// A reader of a closed stream hands each user chunk for whose type there is a callback
/// to it, once and in their order. Where callbacks accept them, the stream reads as the
/// blocks that were put out, all of them before its end.
pub proof fn law_callbacks_accept(w: OutputView, c: Closing, o: OptionsView, a: Seq<Answer>)
    requires
        w.wf(),
        w.started,
        c.wf(),
        c.append_index ==> c.build_index,
        readable(o, w),
        chunk::accepting(a),
    ensures
        ({
            let v = reader::fresh(o, w.closed(c)).told(a);
            let d = reader::drained(v);
            &&& d.data == output::data_of(w.frames)
            &&& d.err is None
            &&& d.reader.chunks == handed_of(o, w.frames)
            &&& laws::until_end(v) == d.data.len()
        }),
{
    let fs = w.frames;
    let tail = closing_bytes(w, c);
    let v = reader::fresh(o, w.closed(c)).told(a);
    assert(w.closed(c) =~= w.header() + (output::bytes_of(fs) + tail));
    let x = lemma_read_header(w, o, a, w.closed(c), output::bytes_of(fs) + tail);
    let y = lemma_read_frames(x, fs, tail);
    lemma_read_closing(y, w, c);
    assert(x.chunks + handed_of(o, fs) =~= handed_of(o, fs));
    assert(x.pending() + output::data_of(fs) + Seq::<u8>::empty() =~= output::data_of(fs));
}

/// A new reader of a stream reads its start.
proof fn lemma_read_header(
    w: OutputView,
    o: OptionsView,
    a: Seq<Answer>,
    source: Seq<u8>,
    more: Seq<u8>,
) -> (x: ReaderView)
    requires
        w.wf(),
        w.started,
        readable(o, w),
        source == w.header() + more,
    ensures
        ({
            let v = reader::fresh(o, source).told(a);
            let d = reader::drained(v);
            let e = reader::drained(x);
            &&& x.wf()
            &&& x.options == o
            &&& x.answers == a
            &&& x.ahead() == a
            &&& x.progress == begun(w.block_size)
            &&& x.rest() == more
            &&& x.pending() == Seq::<u8>::empty()
            &&& x.chunks == Seq::<(u8, Seq<u8>)>::empty()
            &&& x.err is None
            &&& d.data == e.data
            &&& d.err == e.err
            &&& d.reader == e.reader
            &&& laws::until_end(v) == laws::until_end(x)
        }),
        x.progress.header_read,
        forall|i: int|
            0 <= i < w.frames.len() ==> (#[trigger] w.frames[i]).wf(x.progress.max_block as int)
                && accepts(o, w.frames[i]),
{
    let v = reader::fresh(o, source).told(a);
    let fs = w.frames;
    assert(v.rest() =~= w.header() + more);
    lemma_start_step(v.asked(), v.progress, w.block_size, more);
    reader::lemma_step(v);
    let p = begun(w.block_size);
    let x = reader::moved(v.emptied(), 10, p, ItemView::Start);
    assert(x.rest() =~= v.rest().skip(10));
    assert(x.rest() =~= more);
    assert(x.pending() =~= Seq::<u8>::empty());
    assert(x.ahead() =~= a);
    assert(reader::drained(v).data =~= reader::drained(x).data && reader::drained(v).err
        == reader::drained(x).err && reader::drained(v).reader == reader::drained(x).reader) by {
        reveal(reader::drained);
        assert(v.pending() + reader::drained(x).data =~= reader::drained(x).data);
    }
    assert forall|i: int| 0 <= i < fs.len() implies (#[trigger] fs[i]).wf(p.max_block as int)
        && accepts(o, fs[i]) by {
        assert(fs[i].wf(w.block_size as int));
    }
    x
}

/// A reader that has a user chunk before it that its callback refuses ends there.
proof fn lemma_read_refused(v: ReaderView, f: Frame, rest: Seq<u8>, e: Error)
    requires
        v.wf(),
        v.rest() == f.bytes() + rest,
        v.pending() == Seq::<u8>::empty(),
        f.wf(v.progress.max_block as int),
        handed_of_frame(v.options, f).len() > 0,
        chunk::first_answer(v.ahead()) == Err::<(), Error>(e),
    ensures
        ({
            let d = reader::drained(v);
            &&& d.data == Seq::<u8>::empty()
            &&& d.err == Some(e)
            &&& d.reader.err == Some(e)
            &&& d.reader.chunks == v.chunks + handed_of_frame(v.options, f)
        }),
{
    if let Frame::User(id, b) = f {
        lemma_refused_step(v.asked(), v.progress, id, b, rest, e);
        reveal(reader::drained);
        reader::lemma_step(v);
        assert(v.chunks.push((id, b)) =~= v.chunks + handed_of_frame(v.options, f));
    }
}

/// Frames as those before one of them, that one, and those behind it.
proof fn lemma_frames_around(fs: Seq<Frame>, k: int)
    requires
        0 <= k < fs.len(),
    ensures
        output::bytes_of(fs) == output::bytes_of(fs.take(k)) + (fs[k].bytes() + output::bytes_of(
            fs.skip(k + 1),
        )),
{
    let after = fs.skip(k);
    assert(fs =~= fs.take(k) + after);
    lemma_frames_concat(fs.take(k), after);
    lemma_frames_first(after);
    assert(after.skip(1) =~= fs.skip(k + 1));
}

/// A reader that has frames before it, and behind them a user chunk that its callback
/// refuses, reads their data and ends there.
proof fn lemma_read_to_refused(
    x: ReaderView,
    before: Seq<Frame>,
    f: Frame,
    rest: Seq<u8>,
    e: Error,
)
    requires
        x.wf(),
        x.progress.header_read,
        x.rest() == output::bytes_of(before) + (f.bytes() + rest),
        x.pending() == Seq::<u8>::empty(),
        x.chunks == Seq::<(u8, Seq<u8>)>::empty(),
        forall|i: int|
            0 <= i < before.len() ==> (#[trigger] before[i]).wf(x.progress.max_block as int)
                && accepts(x.options, before[i]),
        f.wf(x.progress.max_block as int),
        handed_of_frame(x.options, f).len() > 0,
        handed_of(x.options, before).len() < x.answers.len(),
        chunk::accepting_first(x.answers, handed_of(x.options, before).len() as int),
        x.answers[handed_of(x.options, before).len() as int] == Err::<(), Error>(e),
    ensures
        ({
            let d = reader::drained(x);
            &&& d.data == output::data_of(before)
            &&& d.err == Some(e)
            &&& d.reader.err == Some(e)
            &&& d.reader.chunks == handed_of(x.options, before) + handed_of_frame(x.options, f)
        }),
{
    let asked = handed_of(x.options, before);
    assert(x.ahead() =~= x.answers);
    let y = lemma_read_frames(x, before, f.bytes() + rest);
    assert(x.chunks + asked =~= asked);
    assert(y.ahead()[0] == x.answers[asked.len() as int]);
    lemma_read_refused(y, f, rest, e);
    assert(x.pending() + output::data_of(before) + Seq::<u8>::empty() =~= output::data_of(before));
}

/// Where a callback refuses the user chunk that is frame `k`, and none before it was
/// refused, reading gives the blocks before that chunk and then fails with the error of
/// the callback, for good. It has asked for each user chunk up to that one.
pub proof fn law_callback_refuses(
    w: OutputView,
    c: Closing,
    o: OptionsView,
    a: Seq<Answer>,
    k: int,
    e: Error,
)
    requires
        w.wf(),
        w.started,
        c.wf(),
        c.append_index ==> c.build_index,
        readable(o, w),
        0 <= k < w.frames.len(),
        handed_of_frame(o, w.frames[k]).len() > 0,
        handed_of(o, w.frames.take(k)).len() < a.len(),
        chunk::accepting_first(a, handed_of(o, w.frames.take(k)).len() as int),
        a[handed_of(o, w.frames.take(k)).len() as int] == Err::<(), Error>(e),
    ensures
        ({
            let d = reader::drained(reader::fresh(o, w.closed(c)).told(a));
            &&& d.data == output::data_of(w.frames.take(k))
            &&& d.err == Some(e)
            &&& d.reader.err == Some(e)
            &&& d.reader.chunks == handed_of(o, w.frames.take(k)) + handed_of_frame(o, w.frames[k])
        }),
{
    let fs = w.frames;
    let before = fs.take(k);
    let rest = output::bytes_of(fs.skip(k + 1)) + closing_bytes(w, c);
    let more = output::bytes_of(before) + (fs[k].bytes() + rest);
    lemma_frames_around(fs, k);
    assert(w.closed(c) =~= w.header() + more);
    let x = lemma_read_header(w, o, a, w.closed(c), more);
    assert forall|i: int| 0 <= i < before.len() implies (#[trigger] before[i]).wf(
        x.progress.max_block as int,
    ) && accepts(x.options, before[i]) by {
        assert(before[i] == fs[i]);
    }
    assert(fs[k].wf(x.progress.max_block as int));
    lemma_read_to_refused(x, before, fs[k], rest, e);
}

/// A stream that was started and not closed reads as the blocks that were put out, and
/// then as malformed.
pub proof fn law_unfinished_stream(w: OutputView, o: OptionsView)
    requires
        w.wf(),
        w.started,
        readable(o, w),
    ensures
        ({
            let d = reader::drained(reader::fresh(o, w.bytes()));
            &&& d.data == output::data_of(w.frames)
            &&& d.err == Some(Error::Corrupt)
        }),
{
    let fs = w.frames;
    let v = reader::fresh(o, w.bytes());
    assert(v.told(Seq::empty()) =~= v);
    assert(w.bytes() =~= w.header() + (output::bytes_of(fs) + Seq::<u8>::empty()));
    let x = lemma_read_header(
        w,
        o,
        Seq::empty(),
        w.bytes(),
        output::bytes_of(fs) + Seq::<u8>::empty(),
    );
    let y = lemma_read_frames(x, fs, Seq::empty());
    assert(reader::drained(y).data == Seq::<u8>::empty() && reader::drained(y).err == Some(
        Error::Corrupt,
    )) by {
        reveal(reader::drained);
        reveal(reader::step);
    }
    assert(x.pending() + output::data_of(fs) + Seq::<u8>::empty() =~= output::data_of(fs));
}

/// Blocks one after the other.
pub open spec fn joined(blocks: Seq<Seq<u8>>) -> Seq<u8>
    decreases blocks.len(),
{
    if blocks.len() == 0 {
        Seq::empty()
    } else {
        joined(blocks.drop_last()) + blocks.last()
    }
}

/// Blocks and then others, one after the other.
pub proof fn lemma_joined_concat(a: Seq<Seq<u8>>, b: Seq<Seq<u8>>)
    ensures
        joined(a + b) == joined(a) + joined(b),
    decreases b.len(),
{
    if b.len() == 0 {
        assert(a + b =~= a);
    } else {
        lemma_joined_concat(a, b.drop_last());
        assert((a + b).drop_last() =~= a + b.drop_last());
    }
}

/// Data that was cut into blocks, joined again.
pub proof fn law_pieces_join(data: Seq<u8>, n: int)
    requires
        n > 0,
    ensures
        joined(writer::pieces(data, n)) == data,
    decreases data.len(),
{
    if data.len() > 0 {
        let first = if data.len() <= n {
            data
        } else {
            data.take(n)
        };
        let a = seq![first];
        assert(a.drop_last() =~= Seq::<Seq<u8>>::empty());
        assert(joined(a.drop_last()) =~= Seq::<u8>::empty());
        assert(joined(a) =~= first);
        if data.len() > n {
            law_pieces_join(data.skip(n), n);
            lemma_joined_concat(a, writer::pieces(data.skip(n), n));
            assert(data =~= data.take(n) + data.skip(n));
        }
    }
}

/// The data of the blocks that were put out.
pub proof fn lemma_emitted_data(v: OutputView, w: OutputView, blocks: Seq<Seq<u8>>, packing: Option<Level>)
    requires
        writer::emitted(v, w, blocks, packing),
        writer::count_new(v, w) == blocks.len(),
    ensures
        output::data_of(w.frames) == output::data_of(v.frames) + joined(blocks),
{
    reveal(writer::emitted);
    let n = v.frames.len() as int;
    let new = w.frames.skip(n);
    assert(w.frames =~= v.frames + new);
    lemma_frames_concat(v.frames, new);
    assert forall|i: int| 0 <= i < new.len() implies #[trigger] new[i].data() == blocks[i] by {
        assert(new[i] == w.frames[n + i]);
    }
    lemma_joined_frames(new, blocks);
}

/// The data of blocks, one after the other.
pub proof fn lemma_joined_frames(fs: Seq<Frame>, blocks: Seq<Seq<u8>>)
    requires
        fs.len() == blocks.len(),
        forall|i: int| 0 <= i < fs.len() ==> #[trigger] fs[i].data() == blocks[i],
    ensures
        output::data_of(fs) == joined(blocks),
    decreases fs.len(),
{
    if fs.len() > 0 {
        let a = fs.drop_last();
        let b = blocks.drop_last();
        assert forall|i: int| 0 <= i < a.len() implies #[trigger] a[i].data() == b[i] by {
            assert(fs[i].data() == blocks[i]);
        }
        lemma_joined_frames(a, b);
        assert(fs[fs.len() - 1].data() == blocks[fs.len() - 1]);
    }
}

/// A write that succeeds adds what was written to the data, and nothing else.
pub proof fn law_write_appends(v: WriterView, w: WriterView, p: Seq<u8>)
    requires
        v.wf(),
        p.len() <= usize::MAX,
        w.options == v.options,
        w.pending == writer::pending_after_write(v, p, Ok(p.len() as usize)),
        ({
            let blocks = writer::blocks_of_write(v, p);
            &&& blocks.len() == 0 ==> w.out == v.out
            &&& blocks.len() > 0 ==> writer::put_all(
                v.out,
                w.out,
                blocks,
                v.options.packing(),
                None,
            )
        }),
    ensures
        w.data() == v.data() + p,
{
    let n = v.options.block_size as int;
    let packing = v.options.packing();
    let blocks = writer::blocks_of_write(v, p);
    let all = if v.options.flush_on_write {
        p
    } else {
        writer::whole(v.pending + p, n)
    };
    law_pieces_join(all, n);
    if blocks.len() == 0 {
        assert(all =~= Seq::<u8>::empty());
        assert(output::data_of(v.out.frames) + all =~= output::data_of(w.out.frames));
    } else {
        lemma_emitted_data(v.out, w.out, blocks, packing);
    }
    assert(output::data_of(w.out.frames) == output::data_of(v.out.frames) + all);
    if v.options.flush_on_write {
        assert(w.data() =~= v.data() + p);
    } else {
        let t = v.pending + p;
        writer::lemma_whole_rest(t, n);
        lemma_assoc(output::data_of(v.out.frames), all, writer::left_over(t, n));
        lemma_assoc(output::data_of(v.out.frames), v.pending, p);
    }
}

/// Putting out what is pending leaves the data as it is.
pub proof fn law_flush_keeps_data(v: WriterView, u: OutputView)
    requires
        v.wf(),
        writer::emitted(v.out, u, writer::as_blocks(v.pending), v.options.packing()),
        writer::count_new(v.out, u) == writer::as_blocks(v.pending).len(),
    ensures
        output::data_of(u.frames) == v.data(),
{
    let blocks = writer::as_blocks(v.pending);
    lemma_emitted_data(v.out, u, blocks, v.options.packing());
    if blocks.len() > 0 {
        assert(blocks.drop_last() =~= Seq::<Seq<u8>>::empty());
        assert(joined(blocks.drop_last()) =~= Seq::<u8>::empty());
        assert(joined(blocks) =~= v.pending);
    } else {
        assert(joined(blocks) =~= v.pending);
    }
}

/// A user chunk leaves the data as it is.
pub proof fn law_user_chunk_keeps_data(v: WriterView, u: OutputView, id: u8, data: Seq<u8>)
    requires
        v.wf(),
        writer::flushed_to(v, u),
    ensures
        writer::with_user(v, u, id, data).data() == v.data(),
{
    law_flush_keeps_data(v, u);
    let fs = u.frames.push(Frame::User(id, data));
    assert(fs.drop_last() =~= u.frames);
    assert(writer::with_user(v, u, id, data).data() =~= v.data());
}

/// What was put out with all that was pending holds all that was written, and is
/// accepted where what was put out before is.
pub proof fn lemma_finished_output(v: WriterView, w: OutputView, o: OptionsView)
    requires
        v.wf(),
        w.wf(),
        writer::emitted(v.out, w, writer::as_blocks(v.pending), v.options.packing()),
        writer::count_new(v.out, w) >= writer::as_blocks(v.pending).len(),
        readable(o, v.out),
    ensures
        w.started,
        w.before == v.out.before,
        output::data_of(w.frames) == v.data(),
        readable(o, w),
        writer::count_new(v.out, w) == writer::as_blocks(v.pending).len(),
{
    reveal(writer::emitted);
    law_flush_keeps_data(v, w);
    assert forall|i: int| 0 <= i < w.frames.len() implies accepts(o, #[trigger] w.frames[i]) by {
        let n = v.out.frames.len() as int;
        if i < n {
            assert(w.frames.take(n)[i] == v.out.frames[i]);
        } else {
            assert(w.frames[i] is Block);
        }
    }
}

/// What a writer that is finished without an error has put in its sink, a reader reads
/// back: all that was written, without an error.
pub proof fn law_reader_inverts_writer(v: WriterView, sink: Seq<u8>, o: OptionsView)
    requires
        v.wf(),
        v.out.before == Seq::<u8>::empty(),
        writer::finishes_to(v, sink, None),
        readable(o, v.out),
    ensures
        reader::drained(reader::fresh(o, sink)).data == v.data(),
        reader::drained(reader::fresh(o, sink)).err is None,
{
    let build = v.options.append_index;
    let c = v.options.closing(build);
    let ib = choose|ib: Seq<u8>| #[trigger] writer::closes_to(v, build, sink, ib, None);
    let w = choose|w: OutputView| #[trigger] writer::closed_from(v, w, build, sink, ib, None);
    lemma_finished_output(v, w, o);
    assert(w.before + w.closed(c) =~= w.closed(c));
    law_reader_inverts_output(w, c, o);
}

/// The user chunks of frames and then of others.
proof fn lemma_handed_concat(o: OptionsView, a: Seq<Frame>, b: Seq<Frame>)
    ensures
        handed_of(o, a + b) == handed_of(o, a) + handed_of(o, b),
    decreases a.len(),
{
    let none = Seq::<(u8, Seq<u8>)>::empty();
    if a.len() == 0 {
        assert(a + b =~= b);
        assert(none + handed_of(o, b) =~= handed_of(o, b));
    } else {
        lemma_handed_concat(o, a.skip(1), b);
        assert((a + b).skip(1) =~= a.skip(1) + b);
        lemma_assoc(handed_of_frame(o, a[0]), handed_of(o, a.skip(1)), handed_of(o, b));
    }
}

/// There are no user chunks among blocks.
proof fn lemma_handed_blocks(o: OptionsView, fs: Seq<Frame>)
    requires
        forall|i: int| 0 <= i < fs.len() ==> (#[trigger] fs[i]) is Block,
    ensures
        handed_of(o, fs) == Seq::<(u8, Seq<u8>)>::empty(),
    decreases fs.len(),
{
    if fs.len() > 0 {
        assert forall|i: int| 0 <= i < fs.skip(1).len() implies (#[trigger] fs.skip(1)[i])
            is Block by {
            assert(fs.skip(1)[i] == fs[i + 1]);
        }
        assert(fs[0] is Block);
        lemma_handed_blocks(o, fs.skip(1));
        assert(handed_of(o, fs) =~= Seq::<(u8, Seq<u8>)>::empty());
    }
}

/// A reader of what a writer that is finished without an error has put in its sink hands
/// the user chunks that were added, of types with a callback, to the callbacks, once and
/// in their order. Where they accept, it reads all that was written.
pub proof fn law_callbacks_get_user_chunks(
    v: WriterView,
    sink: Seq<u8>,
    o: OptionsView,
    a: Seq<Answer>,
)
    requires
        v.wf(),
        v.out.before == Seq::<u8>::empty(),
        writer::finishes_to(v, sink, None),
        readable(o, v.out),
        chunk::accepting(a),
    ensures
        ({
            let d = reader::drained(reader::fresh(o, sink).told(a));
            &&& d.data == v.data()
            &&& d.err is None
            &&& d.reader.chunks == handed_of(o, v.out.frames)
        }),
{
    let build = v.options.append_index;
    let c = v.options.closing(build);
    let ib = choose|ib: Seq<u8>| #[trigger] writer::closes_to(v, build, sink, ib, None);
    let w = choose|w: OutputView| #[trigger] writer::closed_from(v, w, build, sink, ib, None);
    lemma_finished_output(v, w, o);
    assert(w.before + w.closed(c) =~= w.closed(c));
    law_callbacks_accept(w, c, o, a);
    reveal(writer::emitted);
    let n = v.out.frames.len() as int;
    let more = w.frames.skip(n);
    assert(w.frames =~= v.out.frames + more) by {
        assert(w.frames =~= w.frames.take(n) + more);
    }
    assert forall|i: int| 0 <= i < more.len() implies (#[trigger] more[i]) is Block by {
        assert(more[i] == w.frames[n + i]);
    }
    lemma_handed_concat(o, v.out.frames, more);
    lemma_handed_blocks(o, more);
    assert(handed_of(o, v.out.frames) + Seq::<(u8, Seq<u8>)>::empty() =~= handed_of(
        o,
        v.out.frames,
    ));
}

/// The callbacks of a reader that has read to the end what a writer that was finished
/// without an error has put in its sink were called with the user chunks that were added,
/// of types with a callback, each once and in their order, where they accept them.
pub proof fn law_callbacks_called(v: WriterView, sink: Seq<u8>, o: OptionsView, r: Reader)
    requires
        v.wf(),
        v.out.before == Seq::<u8>::empty(),
        writer::finishes_to(v, sink, None),
        readable(o, v.out),
        r.wf(),
        r@ == reader::drained(reader::fresh(o, sink).told(r@.answers)).reader,
        chunk::accepting(r@.answers),
    ensures
        chunk::took(o.callbacks, handed_of(o, v.out.frames), r@.answers, r.callbacks()),
{
    law_callbacks_get_user_chunks(v, sink, o, r@.answers);
    reader::lemma_drained_options(reader::fresh(o, sink).told(r@.answers));
}

} // verus!
