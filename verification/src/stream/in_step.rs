//! A writer with workers and one without that are given the same put out the same.
use crate::block::Level;
use crate::stream::chunk::OptionsView;
use crate::stream::mt_writer;
use crate::stream::mt_writer::{EntryView, MtView};
use crate::stream::output;
use crate::stream::output::{Frame, OutputView};
use crate::stream::reader;
use crate::stream::roundtrip;
use crate::stream::writer;
use crate::stream::writer::{WriterOptions, WriterView};
use vstd::prelude::*;

verus! {

/// Options by which the same blocks and the same chunks are made. Padding and where the
/// index goes may differ.
pub open spec fn same_blocks(a: WriterOptions, b: WriterOptions) -> bool {
    &&& a.block_size == b.block_size
    &&& a.packing() == b.packing()
    &&& a.generate_index == b.generate_index
    &&& a.flush_on_write == b.flush_on_write
}

/// The writer without workers has put out what the other one has been given to put out,
/// and the same is pending.
pub open spec fn in_step(s: WriterView, m: MtView) -> bool {
    &&& same_blocks(s.options, m.options)
    &&& s.out.before == m.out.before
    &&& s.out.frames.len() == m.entries.len()
    &&& mt_writer::are_frames_of(s.out.frames, m.entries, m.options.packing())
    &&& s.pending == m.pending
}

/// Two writers to which nothing was written are in step.
pub proof fn law_fresh_in_step(a: WriterOptions, b: WriterOptions, sink: Seq<u8>)
    requires
        same_blocks(a, mt_writer::settled(b)),
    ensures
        in_step(writer::fresh(a, sink), mt_writer::fresh(b, sink)),
{
}

proof fn lemma_emitted_in_step(
    v: OutputView,
    w: OutputView,
    blocks: Seq<Seq<u8>>,
    es: Seq<EntryView>,
    packing: Option<Level>,
)
    requires
        writer::emitted(v, w, blocks, packing),
        writer::count_new(v, w) == blocks.len(),
        v.frames.len() == es.len(),
        mt_writer::are_frames_of(v.frames, es, packing),
    ensures
        w.before == v.before,
        w.frames.len() == es.len() + blocks.len(),
        mt_writer::are_frames_of(w.frames, es + mt_writer::block_entries(blocks), packing),
{
    reveal(writer::emitted);
    let n = v.frames.len() as int;
    let all = es + mt_writer::block_entries(blocks);
    assert forall|i: int| 0 <= i < w.frames.len() implies mt_writer::is_frame_of(
        #[trigger] w.frames[i],
        all[i],
        packing,
    ) by {
        if i < n {
            assert(w.frames.take(n)[i] == v.frames[i]);
            assert(mt_writer::is_frame_of(v.frames[i], es[i], packing));
        } else {
            assert(all[i] == EntryView::Block(blocks[i - n]));
        }
    }
}

/// `t` is what becomes of `s` by a write of `p` that succeeds.
pub open spec fn wrote(s: WriterView, t: WriterView, p: Seq<u8>) -> bool {
    let blocks = writer::blocks_of_write(s, p);
    &&& t == WriterView {
        out: t.out,
        pending: writer::pending_after_write(s, p, Ok(p.len() as usize)),
        ..s
    }
    &&& blocks.len() == 0 ==> t.out == s.out
    &&& blocks.len() > 0 ==> writer::put_all(s.out, t.out, blocks, s.options.packing(), None)
}

/// Writers stay in step when the same is written to both.
pub proof fn law_write_in_step(s: WriterView, t: WriterView, m: MtView, k: MtView, p: Seq<u8>)
    requires
        s.wf(),
        m.wf(),
        in_step(s, m),
        wrote(s, t, p),
        mt_writer::given(
            m,
            k,
            mt_writer::written_entries(m, p),
            mt_writer::kept_after(m, p),
            None,
        ),
    ensures
        in_step(t, k),
{
    let blocks = writer::blocks_of_write(s, p);
    if blocks.len() > 0 {
        lemma_emitted_in_step(s.out, t.out, blocks, m.entries, m.options.packing());
    } else {
        assert(k.entries =~= m.entries);
    }
}

/// Writers stay in step when both put out what is pending.
pub proof fn law_flush_in_step(s: WriterView, t: WriterView, m: MtView, k: MtView)
    requires
        in_step(s, m),
        t == (WriterView { out: t.out, pending: Seq::empty(), ..s }),
        s.pending.len() == 0 ==> t == s,
        s.pending.len() > 0 ==> writer::put_all(
            s.out,
            t.out,
            seq![s.pending],
            s.options.packing(),
            None,
        ),
        mt_writer::given(m, k, mt_writer::pending_entries(m), Seq::empty(), None),
    ensures
        in_step(t, k),
{
    if s.pending.len() > 0 {
        lemma_emitted_in_step(s.out, t.out, seq![s.pending], m.entries, m.options.packing());
    } else {
        assert(k.entries =~= m.entries);
    }
}

/// Writers stay in step when the same user chunk is added to both.
pub proof fn law_user_chunk_in_step(
    s: WriterView,
    u: OutputView,
    m: MtView,
    k: MtView,
    id: u8,
    data: Seq<u8>,
)
    requires
        in_step(s, m),
        writer::flushed_to(s, u),
        mt_writer::given(
            m,
            k,
            mt_writer::pending_entries(m) + seq![EntryView::User(id, data)],
            Seq::empty(),
            None,
        ),
    ensures
        in_step(writer::with_user(s, u, id, data), k),
{
    let packing = m.options.packing();
    let blocks = writer::as_blocks(s.pending);
    lemma_emitted_in_step(s.out, u, blocks, m.entries, packing);
    let es = m.entries + mt_writer::block_entries(blocks);
    assert(k.entries =~= es.push(EntryView::User(id, data)));
    let fs = u.frames.push(Frame::User(id, data));
    assert forall|i: int| 0 <= i < fs.len() implies mt_writer::is_frame_of(
        #[trigger] fs[i],
        k.entries[i],
        packing,
    ) by {
        if i < u.frames.len() {
            assert(mt_writer::is_frame_of(u.frames[i], es[i], packing));
        }
    }
}

/// Entries become the same frames whoever puts them out.
pub proof fn law_same_frames(
    a: Seq<Frame>,
    b: Seq<Frame>,
    es: Seq<EntryView>,
    packing: Option<Level>,
)
    requires
        a.len() == es.len(),
        b.len() == es.len(),
        mt_writer::are_frames_of(a, es, packing),
        mt_writer::are_frames_of(b, es, packing),
    ensures
        a == b,
{
    assert forall|i: int| 0 <= i < a.len() implies a[i] == b[i] by {
        assert(mt_writer::is_frame_of(a[i], es[i], packing));
        assert(mt_writer::is_frame_of(b[i], es[i], packing));
    }
    assert(a =~= b);
}

/// What is put out with all that was pending is the same for both.
proof fn lemma_same_output(s: WriterView, w: OutputView, m: MtView, x: OutputView)
    requires
        s.wf(),
        m.wf(),
        in_step(s, m),
        writer::emitted(s.out, w, writer::as_blocks(s.pending), s.options.packing()),
        writer::count_new(s.out, w) == writer::as_blocks(s.pending).len(),
        mt_writer::grown(m.out, x),
        mt_writer::are_frames_of(
            x.frames,
            m.entries + mt_writer::pending_entries(m),
            m.options.packing(),
        ),
        x.frames.len() == (m.entries + mt_writer::pending_entries(m)).len(),
    ensures
        w == (OutputView { started: true, ..x }),
{
    reveal(writer::emitted);
    let packing = m.options.packing();
    lemma_emitted_in_step(s.out, w, writer::as_blocks(s.pending), m.entries, packing);
    law_same_frames(
        w.frames,
        x.frames,
        m.entries + mt_writer::pending_entries(m),
        packing,
    );
}

/// Writers in step that are finished without an error leave the same stream, byte for
/// byte.
pub proof fn law_same_stream(s: WriterView, m: MtView, a: Seq<u8>, b: Seq<u8>)
    requires
        s.wf(),
        m.wf(),
        s.options == m.options,
        in_step(s, m),
        writer::finishes_to(s, a, None),
        mt_writer::finishes_to(m, b, None),
    ensures
        a == b,
{
    let build = s.options.append_index;
    let ib = choose|ib: Seq<u8>| #[trigger] writer::closes_to(s, build, a, ib, None);
    let w = choose|w: OutputView| #[trigger] writer::closed_from(s, w, build, a, ib, None);
    let x = choose|x: OutputView| #[trigger] mt_writer::closed_from(m, x, b, None);
    assert(writer::count_new(s.out, w) == writer::as_blocks(s.pending).len()) by {
        reveal(writer::emitted);
    }
    lemma_same_output(s, w, m, x);
    let c = s.options.closing(build);
    let d = m.options.closing(m.options.generate_index);
    assert(w.closed(c) == w.closed(d));
}

/// The index of a writer without workers is the one that stands at the end of the
/// stream of one with workers that is in step, where they pad alike.
pub proof fn law_same_index(s: WriterView, m: MtView, a: Seq<u8>, ib: Seq<u8>, b: Seq<u8>)
    requires
        s.wf(),
        m.wf(),
        s.options.generate_index,
        m.options.append_index,
        s.options.padding == m.options.padding,
        in_step(s, m),
        writer::closes_to(s, true, a, ib, None),
        mt_writer::finishes_to(m, b, None),
    ensures
        ib.len() <= b.len(),
        b.skip(b.len() - ib.len()) == ib,
{
    let w = choose|w: OutputView| #[trigger] writer::closed_from(s, w, true, a, ib, None);
    let x = choose|x: OutputView| #[trigger] mt_writer::closed_from(m, x, b, None);
    assert(writer::count_new(s.out, w) == writer::as_blocks(s.pending).len()) by {
        reveal(writer::emitted);
    }
    lemma_same_output(s, w, m, x);
    let d = m.options.closing(true);
    let tail = w.appended(d);
    assert(tail == ib);
    assert(b.skip(b.len() - tail.len()) =~= tail);
}

/// Whole blocks before more data.
pub proof fn lemma_whole_prefix(a: Seq<u8>, b: Seq<u8>, n: int)
    requires
        n > 0,
        a.len() as int % n == 0,
    ensures
        writer::pieces(writer::whole(a + b, n), n) == writer::pieces(a, n) + writer::pieces(
            writer::whole(b, n),
            n,
        ),
        writer::left_over(a + b, n) == writer::left_over(b, n),
    decreases a.len(),
{
    if a.len() == 0 {
        assert(a + b =~= b);
        assert(writer::pieces(a, n) + writer::pieces(writer::whole(b, n), n) =~= writer::pieces(
            writer::whole(b, n),
            n,
        ));
    } else {
        assert(a.len() >= n) by {
            if a.len() < n {
                vstd::arithmetic::div_mod::lemma_small_mod(a.len(), n as nat);
            }
        }
        let x = a.take(n);
        let y = a.skip(n);
        assert(y.len() as int % n == 0) by {
            vstd::arithmetic::div_mod::lemma_mod_sub_multiples_vanish(a.len() as int, n);
        }
        assert(a + b =~= x + (y + b));
        writer::lemma_whole_block(x, y + b, n);
        lemma_whole_prefix(y, b, n);
        let rest = writer::pieces(writer::whole(b, n), n);
        assert(writer::pieces(a, n) =~= seq![x] + writer::pieces(y, n)) by {
            if a.len() == n {
                assert(x =~= a);
            }
        }
        assert(seq![x] + (writer::pieces(y, n) + rest) =~= seq![x] + writer::pieces(y, n) + rest);
    }
}

/// Blocks are put out alike.
pub proof fn lemma_emitted_same(
    v: OutputView,
    w: OutputView,
    x: OutputView,
    blocks: Seq<Seq<u8>>,
    packing: Option<Level>,
)
    requires
        writer::emitted(v, w, blocks, packing),
        writer::emitted(v, x, blocks, packing),
        writer::count_new(v, w) == blocks.len(),
        writer::count_new(v, x) == blocks.len(),
    ensures
        w == x,
{
    reveal(writer::emitted);
    let n = v.frames.len() as int;
    assert forall|i: int| 0 <= i < w.frames.len() implies w.frames[i] == x.frames[i] by {
        if i < n {
            assert(w.frames.take(n)[i] == x.frames.take(n)[i]);
        }
    }
    assert(w.frames =~= x.frames);
}

/// Two writes are one of both parts.
pub proof fn lemma_wrote_then(s: WriterView, t: WriterView, u: WriterView, p: Seq<u8>, q: Seq<u8>)
    requires
        s.wf(),
        !s.options.flush_on_write,
        wrote(s, t, p),
        wrote(t, u, q),
    ensures
        wrote(s, u, p + q),
{
    let n = s.options.block_size as int;
    let packing = s.options.packing();
    let all = s.pending + p;
    let head = writer::whole(all, n);
    let a = writer::blocks_of_write(s, p);
    let b = writer::blocks_of_write(t, q);
    writer::lemma_whole_rest(all, n);
    assert(s.pending + (p + q) =~= all + q);
    assert(head + t.pending + q =~= head + (t.pending + q));
    lemma_whole_prefix(head, t.pending + q, n);
    assert(writer::blocks_of_write(s, p + q) == a + b);
    if a.len() == 0 {
        assert(a + b =~= b);
    } else if b.len() == 0 {
        assert(a + b =~= a);
    } else {
        writer::lemma_emitted_then(s.out, t.out, u.out, a, b, Seq::empty(), packing);
        assert(a + b + Seq::<Seq<u8>>::empty() =~= a + b);
    }
}

/// A write gives the same whenever it succeeds.
pub proof fn lemma_wrote_same(s: WriterView, t: WriterView, x: WriterView, p: Seq<u8>)
    requires
        wrote(s, t, p),
        wrote(s, x, p),
    ensures
        t == x,
{
    let blocks = writer::blocks_of_write(s, p);
    if blocks.len() > 0 {
        lemma_emitted_same(s.out, t.out, x.out, blocks, s.options.packing());
    }
}

/// Where writes are not put out at once, it does not matter how what is written is cut
/// into writes.
pub proof fn law_split_write(
    s: WriterView,
    t: WriterView,
    u: WriterView,
    x: WriterView,
    p: Seq<u8>,
    q: Seq<u8>,
)
    requires
        s.wf(),
        !s.options.flush_on_write,
        wrote(s, t, p),
        wrote(t, u, q),
        wrote(s, x, p + q),
    ensures
        u == x,
{
    lemma_wrote_then(s, t, u, p, q);
    lemma_wrote_same(s, u, x, p + q);
}

/// Blocks and their data chunks.
pub open spec fn block_frames(blocks: Seq<Seq<u8>>, packing: Option<Level>) -> Seq<Frame> {
    Seq::new(
        blocks.len(),
        |i: int| Frame::Block(blocks[i], output::data_chunk(blocks[i], packing)),
    )
}

/// What is put out of `data`: its blocks, one after the other.
pub open spec fn output_of(o: WriterOptions, sink: Seq<u8>, data: Seq<u8>) -> OutputView {
    OutputView {
        before: sink,
        block_size: o.block_size,
        indexed: o.generate_index,
        started: true,
        frames: block_frames(writer::pieces(data, o.block_size as int), o.packing()),
    }
}

/// The stream of `data`: the header, the chunks of its blocks, the end, padding, and the
/// index where it is wanted.
pub open spec fn stream_of(o: WriterOptions, data: Seq<u8>) -> Seq<u8> {
    output_of(o, Seq::empty(), data).closed(o.closing(o.append_index))
}

/// Whole blocks and what is left make up all blocks.
proof fn lemma_pieces(data: Seq<u8>, n: int)
    requires
        n > 0,
    ensures
        writer::pieces(data, n) == writer::pieces(writer::whole(data, n), n) + writer::as_blocks(
            writer::left_over(data, n),
        ),
    decreases data.len(),
{
    let blocks = writer::pieces(writer::whole(data, n), n);
    let rest = writer::as_blocks(writer::left_over(data, n));
    if data.len() < n {
        vstd::arithmetic::div_mod::lemma_small_mod(data.len(), n as nat);
        assert(writer::whole(data, n) =~= Seq::<u8>::empty());
        assert(writer::left_over(data, n) =~= data);
        assert(blocks + rest =~= writer::pieces(data, n));
    } else {
        let x = data.take(n);
        let y = data.skip(n);
        assert(data =~= x + y);
        writer::lemma_whole_block(x, y, n);
        lemma_pieces(y, n);
        if data.len() == n {
            assert(x =~= data);
            assert(writer::pieces(y, n) =~= Seq::<Seq<u8>>::empty());
        }
        assert(blocks + rest =~= seq![x] + writer::pieces(y, n));
        assert(writer::pieces(data, n) =~= seq![x] + writer::pieces(y, n));
    }
}

/// A writer to which `data` was written in one piece, and which is finished without an
/// error, leaves the stream of `data` behind what its sink held.
pub proof fn law_stream_of(o: WriterOptions, before: Seq<u8>, t: WriterView, data: Seq<u8>, sink: Seq<
    u8,
>)
    requires
        o.wf(),
        !o.flush_on_write,
        wrote(writer::fresh(o, before), t, data),
        writer::finishes_to(t, sink, None),
    ensures
        sink == before + stream_of(o, data),
{
    reveal(writer::emitted);
    let s = writer::fresh(o, before);
    let n = o.block_size as int;
    let packing = o.packing();
    let build = o.append_index;
    let c = o.closing(build);
    let ib = choose|ib: Seq<u8>| #[trigger] writer::closes_to(t, build, sink, ib, None);
    let w = choose|w: OutputView| #[trigger] writer::closed_from(t, w, build, sink, ib, None);
    let a = writer::blocks_of_write(s, data);
    let b = writer::as_blocks(t.pending);
    assert(s.pending + data =~= data);
    lemma_pieces(data, n);
    let frames = block_frames(a + b, packing);
    assert forall|i: int| 0 <= i < w.frames.len() implies w.frames[i] == frames[i] by {
        if i < a.len() {
            assert(w.frames.take(t.out.frames.len() as int)[i] == t.out.frames[i]);
        }
    }
    assert(w.frames =~= frames);
    let x = output_of(o, Seq::empty(), data);
    assert(w.header() == x.header());
    assert(w.closed(c) == x.closed(c));
}

/// A writer with workers to which `data` was written in one piece, and which is finished
/// without an error, leaves the same stream.
pub proof fn law_mt_stream_of(o: WriterOptions, before: Seq<u8>, k: MtView, data: Seq<u8>, sink: Seq<
    u8,
>)
    requires
        o.wf(),
        !o.flush_on_write,
        ({
            let m = mt_writer::fresh(o, before);
            mt_writer::given(
                m,
                k,
                mt_writer::written_entries(m, data),
                mt_writer::kept_after(m, data),
                None,
            )
        }),
        mt_writer::finishes_to(k, sink, None),
    ensures
        sink == before + stream_of(o, data),
{
    let m = mt_writer::fresh(o, before);
    assert(mt_writer::settled(o) == o);
    let n = o.block_size as int;
    let packing = o.packing();
    let w = choose|w: OutputView| #[trigger] mt_writer::closed_from(k, w, sink, None);
    let u = OutputView { started: true, ..w };
    let blocks = writer::pieces(data, n);
    assert(m.pending + data =~= data);
    lemma_pieces(data, n);
    let es = k.entries + mt_writer::pending_entries(k);
    assert(es =~= mt_writer::block_entries(blocks));
    let frames = block_frames(blocks, packing);
    assert forall|i: int| 0 <= i < w.frames.len() implies w.frames[i] == frames[i] by {
        assert(mt_writer::is_frame_of(w.frames[i], es[i], packing));
        assert(es[i] == EntryView::Block(blocks[i]));
    }
    assert(w.frames =~= frames);
    let x = output_of(o, Seq::empty(), data);
    let c = o.closing(o.append_index);
    let d = o.closing(o.generate_index);
    assert(u.header() == x.header());
    assert(u.closed(d) == x.closed(c));
}

proof fn lemma_pieces_len(data: Seq<u8>, n: int)
    requires
        n > 0,
    ensures
        forall|i: int|
            0 <= i < writer::pieces(data, n).len() ==> 0 < (#[trigger] writer::pieces(
                data,
                n,
            )[i]).len() <= n,
    decreases data.len(),
{
    if data.len() > n {
        let rest = writer::pieces(data.skip(n), n);
        lemma_pieces_len(data.skip(n), n);
        assert forall|i: int| 0 <= i < writer::pieces(data, n).len() implies 0 < (
        #[trigger] writer::pieces(data, n)[i]).len() <= n by {
            if i > 0 {
                assert(writer::pieces(data, n)[i] == rest[i - 1]);
            }
        }
    }
}

/// The stream of any data, with any options that are in range, reads back as the data,
/// without an error, where the reader takes blocks of that size.
pub proof fn law_stream_reads(o: WriterOptions, data: Seq<u8>, r: OptionsView)
    requires
        o.wf(),
        r.wf(),
        roundtrip::negotiated(o.block_size) <= r.max_block_size,
    ensures
        reader::drained(reader::fresh(r, stream_of(o, data))).data == data,
        reader::drained(reader::fresh(r, stream_of(o, data))).err is None,
{
    let n = o.block_size as int;
    let w = output_of(o, Seq::empty(), data);
    let blocks = writer::pieces(data, n);
    lemma_pieces_len(data, n);
    assert forall|i: int| 0 <= i < w.frames.len() implies (#[trigger] w.frames[i]).wf(n) by {
        assert(0 < blocks[i].len() <= n);
        output::law_data_chunk(blocks[i], o.packing());
    }
    assert forall|i: int| 0 <= i < w.frames.len() implies #[trigger] w.frames[i].data()
        == blocks[i] by {}
    roundtrip::lemma_joined_frames(w.frames, blocks);
    roundtrip::law_pieces_join(data, n);
    roundtrip::law_reader_inverts_output(w, o.closing(o.append_index), r);
}

} // verus!
