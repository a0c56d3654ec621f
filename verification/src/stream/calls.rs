//! What a writer does with the calls that are made on it, one after the other.
use crate::block::Level;
use crate::index::parse;
use crate::stream::chunk;
use crate::stream::error::Error;
use crate::stream::format::MAX_USER_CHUNK_SIZE;
use crate::stream::in_step;
use crate::stream::mt_writer;
use crate::stream::mt_writer::MtView;
use crate::stream::output;
use crate::stream::output::OutputView;
use crate::stream::random_access;
use crate::stream::roundtrip;
use crate::stream::success;
use crate::stream::writer;
use crate::stream::writer::{WriterOptions, WriterView};
use vstd::prelude::*;

verus! {

/// A write that succeeds.
proof fn lemma_wrote(s: WriterView, t: WriterView, p: Seq<u8>)
    requires
        s.wf(),
        writer::writes_to(s, t, p, None),
    ensures
        in_step::wrote(s, t, p),
{
    if p.len() == 0 {
        assert(s.pending + p =~= s.pending);
        writer::lemma_whole_short(s.pending, s.options.block_size as int);
    }
}

/// A writer before, between and after writes of `parts` that succeed.
pub open spec fn wrote_parts(ws: Seq<WriterView>, parts: Seq<Seq<u8>>) -> bool {
    &&& ws.len() == parts.len() + 1
    &&& forall|i: int|
        0 <= i < parts.len() ==> writer::writes_to(ws[i], ws[i + 1], #[trigger] parts[i], None)
    &&& forall|i: int| 0 <= i < ws.len() ==> (#[trigger] ws[i]).wf()
}

proof fn lemma_wrote_parts(ws: Seq<WriterView>, parts: Seq<Seq<u8>>)
    requires
        wrote_parts(ws, parts),
        !ws[0].options.flush_on_write,
    ensures
        in_step::wrote(ws[0], ws.last(), roundtrip::joined(parts)),
    decreases parts.len(),
{
    let n = parts.len() as int;
    assert(ws[0].wf());
    if n == 0 {
        lemma_wrote(ws[0], ws[0], Seq::empty());
        assert(roundtrip::joined(parts) =~= Seq::<u8>::empty());
    } else {
        let us = ws.drop_last();
        let ps = parts.drop_last();
        assert forall|i: int| 0 <= i < ps.len() implies writer::writes_to(
            us[i],
            us[i + 1],
            #[trigger] ps[i],
            None,
        ) by {
            assert(writer::writes_to(ws[i], ws[i + 1], parts[i], None));
        }
        assert forall|i: int| 0 <= i < us.len() implies (#[trigger] us[i]).wf() by {
            assert(us[i] == ws[i]);
        }
        lemma_wrote_parts(us, ps);
        assert(ws[n - 1].wf());
        assert(writer::writes_to(ws[n - 1], ws[n - 1 + 1], parts[n - 1], None));
        lemma_wrote(ws[n - 1], ws[n], parts[n - 1]);
        in_step::lemma_wrote_then(ws[0], ws[n - 1], ws[n], roundtrip::joined(ps), parts[n - 1]);
    }
}

/// However many writes there are, a writer that does not put each out at once has in
/// the end what one write of all of it gives.
pub proof fn law_many_writes(ws: Seq<WriterView>, parts: Seq<Seq<u8>>, x: WriterView)
    requires
        wrote_parts(ws, parts),
        !ws[0].options.flush_on_write,
        writer::writes_to(ws[0], x, roundtrip::joined(parts), None),
    ensures
        ws.last() == x,
{
    assert(ws[0].wf());
    lemma_wrote_parts(ws, parts);
    lemma_wrote(ws[0], x, roundtrip::joined(parts));
    in_step::lemma_wrote_same(ws[0], ws.last(), x, roundtrip::joined(parts));
}

/// However many writes there are, the stream of a writer that does not put each out at
/// once is the stream of all that was written.
pub proof fn law_stream_of_parts(
    o: WriterOptions,
    before: Seq<u8>,
    ws: Seq<WriterView>,
    parts: Seq<Seq<u8>>,
    sink: Seq<u8>,
)
    requires
        o.wf(),
        !o.flush_on_write,
        wrote_parts(ws, parts),
        ws[0] == writer::fresh(o, before),
        writer::finishes_to(ws.last(), sink, None),
    ensures
        sink == before + in_step::stream_of(o, roundtrip::joined(parts)),
{
    lemma_wrote_parts(ws, parts);
    in_step::law_stream_of(o, before, ws.last(), roundtrip::joined(parts), sink);
}

/// A writer with workers before, between and after writes of `parts` that succeed.
pub open spec fn gave_parts(ms: Seq<MtView>, parts: Seq<Seq<u8>>) -> bool {
    &&& ms.len() == parts.len() + 1
    &&& forall|i: int|
        0 <= i < parts.len() ==> mt_writer::given(
            ms[i],
            ms[i + 1],
            mt_writer::written_entries(ms[i], #[trigger] parts[i]),
            mt_writer::kept_after(ms[i], parts[i]),
            None,
        )
}

/// However many writes there are, a writer with workers is given in the end what one
/// write of all of it gives.
pub proof fn law_many_mt_writes(ms: Seq<MtView>, parts: Seq<Seq<u8>>)
    requires
        gave_parts(ms, parts),
        ms[0].wf(),
        ms[0].err is None,
    ensures
        mt_writer::given(
            ms[0],
            ms.last(),
            mt_writer::written_entries(ms[0], roundtrip::joined(parts)),
            mt_writer::kept_after(ms[0], roundtrip::joined(parts)),
            None,
        ),
    decreases parts.len(),
{
    let n = parts.len() as int;
    let m = ms[0];
    let size = m.options.block_size as int;
    if n == 0 {
        assert(m.pending + roundtrip::joined(parts) =~= m.pending);
        writer::lemma_whole_short(m.pending, size);
        assert(m.entries + mt_writer::written_entries(m, roundtrip::joined(parts)) =~= m.entries);
    } else {
        let us = ms.drop_last();
        let ps = parts.drop_last();
        assert forall|i: int| 0 <= i < ps.len() implies mt_writer::given(
            us[i],
            us[i + 1],
            mt_writer::written_entries(us[i], #[trigger] ps[i]),
            mt_writer::kept_after(us[i], ps[i]),
            None,
        ) by {
            assert(parts[i] == ps[i]);
        }
        law_many_mt_writes(us, ps);
        let p = roundtrip::joined(ps);
        let q = parts[n - 1];
        let k = ms[n - 1];
        assert(mt_writer::given(
            k,
            ms[n - 1 + 1],
            mt_writer::written_entries(k, q),
            mt_writer::kept_after(k, q),
            None,
        ));
        let all = m.pending + p;
        let head = writer::whole(all, size);
        writer::lemma_whole_rest(all, size);
        assert(m.pending + (p + q) =~= all + q);
        assert(head + k.pending + q =~= head + (k.pending + q));
        in_step::lemma_whole_prefix(head, k.pending + q, size);
        assert(mt_writer::written_entries(m, p + q) =~= mt_writer::written_entries(m, p)
            + mt_writer::written_entries(k, q));
        assert(m.entries + mt_writer::written_entries(m, p + q) =~= ms[n].entries);
    }
}

/// However many writes there are, the stream of a writer with workers is the stream of
/// all that was written.
pub proof fn law_mt_stream_of_parts(
    o: WriterOptions,
    before: Seq<u8>,
    ms: Seq<MtView>,
    parts: Seq<Seq<u8>>,
    sink: Seq<u8>,
)
    requires
        o.wf(),
        !o.flush_on_write,
        gave_parts(ms, parts),
        ms[0] == mt_writer::fresh(o, before),
        mt_writer::finishes_to(ms.last(), sink, None),
    ensures
        sink == before + in_step::stream_of(o, roundtrip::joined(parts)),
{
    law_many_mt_writes(ms, parts);
    in_step::law_mt_stream_of(o, before, ms.last(), roundtrip::joined(parts), sink);
}

/// What becomes of putting out blocks depends on nothing but what was put out before.
proof fn lemma_put_same(
    v: OutputView,
    w: OutputView,
    x: OutputView,
    blocks: Seq<Seq<u8>>,
    packing: Option<Level>,
    e: Option<Error>,
    f: Option<Error>,
)
    requires
        writer::put_all(v, w, blocks, packing, e),
        writer::put_all(v, x, blocks, packing, f),
    ensures
        w == x,
        e == f,
{
    let j = writer::count_new(v, w);
    let k = writer::count_new(v, x);
    lemma_no_fewer(v, w, x, blocks, packing);
    lemma_no_fewer(v, x, w, blocks, packing);
    let some = blocks.take(j);
    assert(writer::emitted(v, w, some, packing) && writer::emitted(v, x, some, packing)) by {
        reveal(writer::emitted);
    }
    in_step::lemma_emitted_same(v, w, x, some, packing);
}

/// Where a block was refused, it is refused always.
proof fn lemma_no_fewer(
    v: OutputView,
    w: OutputView,
    x: OutputView,
    blocks: Seq<Seq<u8>>,
    packing: Option<Level>,
)
    requires
        writer::emitted(v, w, blocks, packing),
        writer::emitted(v, x, blocks, packing),
        writer::count_new(v, w) < blocks.len() ==> w.refusal() is Some,
    ensures
        writer::count_new(v, x) <= writer::count_new(v, w),
{
    reveal(writer::emitted);
    let n = v.frames.len() as int;
    let m = w.frames.len() as int;
    if m < x.frames.len() {
        let y = writer::out_before(x, m);
        assert forall|i: int| 0 <= i < m implies y.frames[i] == w.frames[i] by {
            if i < n {
                assert(w.frames.take(n)[i] == x.frames.take(n)[i]);
            }
        }
        assert(y.frames =~= w.frames);
        assert(y == w);
        assert(y.refusal() is None);
    }
}

/// What a write gives depends on nothing but what the writer holds.
pub proof fn law_write_determined(
    v: WriterView,
    w: WriterView,
    x: WriterView,
    p: Seq<u8>,
    e: Option<Error>,
    f: Option<Error>,
)
    requires
        writer::writes_to(v, w, p, e),
        writer::writes_to(v, x, p, f),
    ensures
        w == x,
        e == f,
{
    let blocks = writer::blocks_of_write(v, p);
    if p.len() > 0 && blocks.len() > 0 {
        lemma_put_same(v.out, w.out, x.out, blocks, v.options.packing(), e, f);
    }
}

/// What putting out all that is pending gives depends on nothing but what the writer
/// holds.
pub proof fn law_flush_determined(
    v: WriterView,
    w: WriterView,
    x: WriterView,
    e: Option<Error>,
    f: Option<Error>,
)
    requires
        writer::flushes_to(v, w, e),
        writer::flushes_to(v, x, f),
    ensures
        w == x,
        e == f,
{
    if v.pending.len() > 0 {
        lemma_put_same(v.out, w.out, x.out, seq![v.pending], v.options.packing(), e, f);
    }
}

/// What adding a user chunk gives depends on nothing but what the writer holds.
pub proof fn law_user_chunk_determined(
    v: WriterView,
    w: WriterView,
    x: WriterView,
    id: u8,
    data: Seq<u8>,
    e: Option<Error>,
    f: Option<Error>,
)
    requires
        writer::added_user(v, w, id, data, e),
        writer::added_user(v, x, id, data, f),
    ensures
        w == x,
        e == f,
{
    let a = lemma_flushed_first(v, w, id, data, e);
    let b = lemma_flushed_first(v, x, id, data, f);
    lemma_flush_same(v, a, b);
    if e is None && f is None {
        assert(a == b);
    } else if e is Some && f is Some {
        lemma_put_same(v.out, w.out, x.out, seq![v.pending], v.options.packing(), e, f);
    }
}

/// `u` is what was put out of what is pending, as far as it goes.
spec fn flushed_as_far(v: WriterView, u: OutputView) -> bool {
    &&& writer::emitted(v.out, u, writer::as_blocks(v.pending), v.options.packing())
    &&& writer::count_new(v.out, u) < writer::as_blocks(v.pending).len() ==> u.refusal() is Some
}

proof fn lemma_flush_same(v: WriterView, a: OutputView, b: OutputView)
    requires
        flushed_as_far(v, a),
        flushed_as_far(v, b),
    ensures
        a == b,
{
    let blocks = writer::as_blocks(v.pending);
    let packing = v.options.packing();
    lemma_no_fewer(v.out, a, b, blocks, packing);
    lemma_no_fewer(v.out, b, a, blocks, packing);
    let some = blocks.take(writer::count_new(v.out, a));
    assert(writer::emitted(v.out, a, some, packing) && writer::emitted(v.out, b, some, packing)
        && 0 <= writer::count_new(v.out, a) <= blocks.len()) by {
        reveal(writer::emitted);
    }
    in_step::lemma_emitted_same(v.out, a, b, some, packing);
}

/// A user chunk comes behind what was pending.
proof fn lemma_flushed_first(
    v: WriterView,
    w: WriterView,
    id: u8,
    data: Seq<u8>,
    e: Option<Error>,
) -> (u: OutputView)
    requires
        writer::added_user(v, w, id, data, e),
    ensures
        flushed_as_far(v, u),
        e is None ==> w == writer::with_user(v, u, id, data) && writer::flushed_to(v, u),
        e is Some ==> u == w.out && writer::count_new(v.out, u) < writer::as_blocks(
            v.pending,
        ).len(),
{
    match e {
        None => choose|u: OutputView| #[trigger]
            writer::flushed_to(v, u) && w == writer::with_user(v, u, id, data),
        Some(_) => w.out,
    }
}

/// What closing a stream gives depends on nothing but what the writer holds.
pub proof fn law_close_determined(
    v: WriterView,
    build_index: bool,
    a: Seq<u8>,
    b: Seq<u8>,
    ia: Seq<u8>,
    ib: Seq<u8>,
    e: Option<Error>,
    f: Option<Error>,
)
    requires
        writer::closes_to(v, build_index, a, ia, e),
        writer::closes_to(v, build_index, b, ib, f),
    ensures
        e == f,
        e is None ==> a == b && ia == ib,
{
    let w = choose|w: OutputView| #[trigger] writer::closed_from(v, w, build_index, a, ia, e);
    let x = choose|x: OutputView| #[trigger] writer::closed_from(v, x, build_index, b, ib, f);
    assert(writer::count_new(v.out, w) <= writer::as_blocks(v.pending).len()) by {
        reveal(writer::emitted);
    }
    lemma_flush_same(v, w, x);
}

/// What finishing a stream gives depends on nothing but what the writer holds.
pub proof fn law_finish_determined(
    v: WriterView,
    a: Seq<u8>,
    b: Seq<u8>,
    e: Option<Error>,
    f: Option<Error>,
)
    requires
        writer::finishes_to(v, a, e),
        writer::finishes_to(v, b, f),
    ensures
        e == f,
        e is None ==> a == b,
{
    let build = v.options.append_index;
    let ia = choose|ia: Seq<u8>| #[trigger] writer::closes_to(v, build, a, ia, e);
    let ib = choose|ib: Seq<u8>| #[trigger] writer::closes_to(v, build, b, ib, f);
    law_close_determined(v, build, a, b, ia, ib, e, f);
}

/// A call on a writer.
pub enum Call {
    /// A write.
    Write(Seq<u8>),
    /// Putting out what is pending.
    Flush,
    /// Adding a user chunk.
    User(u8, Seq<u8>),
}

/// `w` is what a call makes of `v`, with the error that it returns.
pub open spec fn called(v: WriterView, w: WriterView, c: Call, err: Option<Error>) -> bool {
    match c {
        Call::Write(p) => writer::writes_to(v, w, p, err),
        Call::Flush => writer::flushes_to(v, w, err),
        Call::User(id, data) => if !chunk::is_user(id) {
            err == Some(Error::UserChunkId(id)) && w == v
        } else if data.len() > MAX_USER_CHUNK_SIZE {
            err == Some(Error::InvalidInput("user-chunk exceeds maximum size")) && w == v
        } else {
            writer::added_user(v, w, id, data, err)
        },
    }
}

/// A writer before, between and after calls, and the errors that they return.
pub open spec fn called_all(ws: Seq<WriterView>, calls: Seq<Call>, errs: Seq<Option<Error>>) -> bool {
    &&& ws.len() == calls.len() + 1
    &&& errs.len() == calls.len()
    &&& forall|i: int|
        0 <= i < calls.len() ==> called(ws[i], ws[i + 1], #[trigger] calls[i], errs[i])
}

/// A writer that starts over does with any calls that follow what a new writer with the
/// same options and the same sink does: the calls return the same, and the streams are
/// the same, whatever the writer held before.
pub proof fn law_reset_is_new(
    o: WriterOptions,
    sink: Seq<u8>,
    calls: Seq<Call>,
    vs: Seq<WriterView>,
    ws: Seq<WriterView>,
    es: Seq<Option<Error>>,
    fs: Seq<Option<Error>>,
)
    requires
        vs.len() > 0,
        ws.len() > 0,
        vs[0] == writer::fresh(o, sink),
        ws[0] == writer::fresh(o, sink),
        called_all(vs, calls, es),
        called_all(ws, calls, fs),
    ensures
        vs == ws,
        es == fs,
        vs[0].out.total() == 0,
        vs[0].out.bytes().len() == 0,
        vs[0].pending.len() == 0,
    decreases calls.len(),
{
    let n = calls.len() as int;
    if n == 0 {
        assert(vs =~= ws);
        assert(es =~= fs);
    } else {
        let c = calls.drop_last();
        assert forall|i: int| 0 <= i < c.len() implies called(
            vs.drop_last()[i],
            vs.drop_last()[i + 1],
            #[trigger] c[i],
            es.drop_last()[i],
        ) && called(ws.drop_last()[i], ws.drop_last()[i + 1], c[i], fs.drop_last()[i]) by {
            assert(called(vs[i], vs[i + 1], calls[i], es[i]));
            assert(called(ws[i], ws[i + 1], calls[i], fs[i]));
        }
        law_reset_is_new(
            o,
            sink,
            c,
            vs.drop_last(),
            ws.drop_last(),
            es.drop_last(),
            fs.drop_last(),
        );
        assert(vs.drop_last()[n - 1] == ws.drop_last()[n - 1]);
        let v = vs[n - 1];
        assert(called(vs[n - 1], vs[n - 1 + 1], calls[n - 1], es[n - 1]));
        assert(called(ws[n - 1], ws[n - 1 + 1], calls[n - 1], fs[n - 1]));
        match calls[n - 1] {
            Call::Write(p) => {
                law_write_determined(v, vs[n], ws[n], p, es[n - 1], fs[n - 1]);
            },
            Call::Flush => {
                law_flush_determined(v, vs[n], ws[n], es[n - 1], fs[n - 1]);
            },
            Call::User(id, data) => {
                if chunk::is_user(id) && data.len() <= MAX_USER_CHUNK_SIZE {
                    law_user_chunk_determined(v, vs[n], ws[n], id, data, es[n - 1], fs[n - 1]);
                }
            },
        }
        assert(vs =~= vs.drop_last().push(vs[n]));
        assert(ws =~= ws.drop_last().push(ws[n]));
        assert(es =~= es.drop_last().push(es[n - 1]));
        assert(fs =~= fs.drop_last().push(fs[n - 1]));
    }
}

/// A writer that builds an index, does not pad and leaves the index out of the stream
/// closes a stream that is small enough, with an index that loads back and holds the
/// sizes of the data and of the stream; the stream is the one that finishing gives.
pub proof fn law_close_index(
    v: WriterView,
    sink: Seq<u8>,
    index_bytes: Seq<u8>,
    err: Option<Error>,
    finished: Seq<u8>,
    finish_err: Option<Error>,
)
    requires
        v.wf(),
        v.options.generate_index,
        v.options.padding <= 1,
        !v.options.append_index,
        success::roomy(v, 0),
        writer::closes_to(v, true, sink, index_bytes, err),
        writer::finishes_to(v, finished, finish_err),
    ensures
        err is None,
        finish_err is None,
        sink == finished,
        (match parse::parse_index(index_bytes) {
            Ok((idx, rest)) => {
                &&& rest == Seq::<u8>::empty()
                &&& idx.total_uncompressed == Some(v.data().len() as u64)
                &&& idx.total_compressed == Some((sink.len() - v.out.before.len()) as u64)
            },
            Err(_) => false,
        }),
{
    let fb = choose|fb: Seq<u8>| #[trigger]
        writer::closes_to(v, false, finished, fb, finish_err);
    success::law_close_succeeds(v, true, sink, index_bytes, err);
    success::law_close_succeeds(v, false, finished, fb, finish_err);
    let w = choose|w: OutputView| #[trigger]
        writer::closed_from(v, w, true, sink, index_bytes, err);
    let x = choose|x: OutputView| #[trigger]
        writer::closed_from(v, x, false, finished, fb, finish_err);
    let blocks = writer::as_blocks(v.pending);
    assert(w.started && w.before == v.out.before && 0 <= writer::count_new(v.out, w)
        <= blocks.len() && 0 <= writer::count_new(v.out, x) <= blocks.len()) by {
        reveal(writer::emitted);
    }
    in_step::lemma_emitted_same(v.out, w, x, blocks, v.options.packing());
    roundtrip::law_flush_keeps_data(v, w);
    success::lemma_closing_moderate(v, w);
    let c = v.options.closing(true);
    let d = v.options.closing(false);
    assert(w.closed(c) == w.closed(d));
    random_access::law_index_of_stream(w, c, Seq::empty());
    assert(index_bytes + Seq::<u8>::empty() =~= index_bytes);
    assert(output::padding_chunk(output::padding_len(c.padding, w.ended().len() as int)) =~= Seq::<
        u8,
    >::empty());
    assert(w.closed(c) =~= w.ended());
    assert(sink.len() - v.out.before.len() == w.ended().len());
}

} // verus!
