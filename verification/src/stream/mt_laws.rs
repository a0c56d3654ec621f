//! Laws of the writer with workers.
use crate::block::Level;
use crate::stream::chunk::OptionsView;
use crate::stream::mt_writer;
use crate::stream::mt_writer::{EntryView, MtView};
use crate::stream::error::Error;
use crate::stream::output;
use crate::stream::output::{Frame, OutputView};
use crate::stream::random_access;
use crate::stream::reader;
use crate::stream::roundtrip;
use crate::stream::success;
use crate::stream::writer;
use crate::stream::writer::WriterView;
use vstd::prelude::*;

verus! {

proof fn lemma_entries_concat(a: Seq<EntryView>, b: Seq<EntryView>)
    ensures
        mt_writer::entries_data(a + b) == mt_writer::entries_data(a) + mt_writer::entries_data(b),
    decreases b.len(),
{
    if b.len() == 0 {
        assert(a + b =~= a);
    } else {
        lemma_entries_concat(a, b.drop_last());
        assert((a + b).drop_last() =~= a + b.drop_last());
    }
}

proof fn lemma_block_data(blocks: Seq<Seq<u8>>)
    ensures
        mt_writer::entries_data(mt_writer::block_entries(blocks)) == roundtrip::joined(blocks),
    decreases blocks.len(),
{
    let es = mt_writer::block_entries(blocks);
    if blocks.len() > 0 {
        lemma_block_data(blocks.drop_last());
        assert(es.drop_last() =~= mt_writer::block_entries(blocks.drop_last()));
    }
}

proof fn lemma_pending_data(v: MtView)
    ensures
        mt_writer::entries_data(v.entries + mt_writer::pending_entries(v)) == v.data(),
{
    let blocks = writer::as_blocks(v.pending);
    lemma_entries_concat(v.entries, mt_writer::pending_entries(v));
    lemma_block_data(blocks);
    if blocks.len() > 0 {
        assert(blocks.drop_last() =~= Seq::<Seq<u8>>::empty());
        assert(roundtrip::joined(blocks.drop_last()) =~= Seq::<u8>::empty());
        assert(roundtrip::joined(blocks) =~= v.pending);
    } else {
        assert(roundtrip::joined(blocks) =~= v.pending);
    }
}

/// A write that succeeds adds what was written to the data, and nothing else.
pub proof fn law_write_appends(v: MtView, w: MtView, p: Seq<u8>)
    requires
        v.wf(),
        mt_writer::given(
            v,
            w,
            mt_writer::written_entries(v, p),
            mt_writer::kept_after(v, p),
            None,
        ),
    ensures
        w.data() == v.data() + p,
{
    let n = v.options.block_size as int;
    let t = v.pending + p;
    let all = writer::whole(t, n);
    lemma_entries_concat(v.entries, mt_writer::written_entries(v, p));
    lemma_block_data(writer::pieces(all, n));
    roundtrip::law_pieces_join(all, n);
    writer::lemma_whole_rest(t, n);
    let d = mt_writer::entries_data(v.entries);
    assert(d + all + writer::left_over(t, n) =~= d + (all + writer::left_over(t, n)));
    assert(d + v.pending + p =~= d + (v.pending + p));
}

/// Giving what is pending leaves the data as it is.
pub proof fn law_flush_keeps_data(v: MtView, w: MtView)
    requires
        mt_writer::given(v, w, mt_writer::pending_entries(v), Seq::empty(), None),
    ensures
        w.data() == v.data(),
{
    lemma_pending_data(v);
    assert(w.data() =~= v.data());
}

/// A buffer that is given whole is added to the data.
pub proof fn law_encode_buffer_appends(v: MtView, w: MtView, buf: Seq<u8>)
    requires
        v.wf(),
        mt_writer::gives_buffer(v, w, buf, None),
    ensures
        w.data() == v.data() + buf,
{
    if v.err is Some {
        assert(w.pending =~= v.pending);
        assert(v.data() + buf =~= v.data());
    } else {
        let n = v.options.block_size as int;
        let a = mt_writer::pending_entries(v);
        let b = mt_writer::block_entries(writer::pieces(buf, n));
        lemma_pending_data(v);
        assert(v.entries + (a + b) =~= v.entries + a + b);
        lemma_entries_concat(v.entries + a, b);
        lemma_block_data(writer::pieces(buf, n));
        roundtrip::law_pieces_join(buf, n);
        assert(w.data() =~= v.data() + buf);
    }
}

/// A user chunk leaves the data as it is.
pub proof fn law_user_chunk_keeps_data(v: MtView, w: MtView, id: u8, data: Seq<u8>)
    requires
        mt_writer::given(
            v,
            w,
            mt_writer::pending_entries(v) + seq![EntryView::User(id, data)],
            Seq::empty(),
            None,
        ),
    ensures
        w.data() == v.data(),
{
    let a = mt_writer::pending_entries(v);
    let b = seq![EntryView::User(id, data)];
    lemma_pending_data(v);
    assert(v.entries + (a + b) =~= v.entries + a + b);
    lemma_entries_concat(v.entries + a, b);
    assert(b.drop_last() =~= Seq::<EntryView>::empty());
    assert(mt_writer::entries_data(b.drop_last()) =~= Seq::<u8>::empty());
    assert(mt_writer::entries_data(b) =~= Seq::<u8>::empty());
    assert(w.data() =~= v.data());
}

/// With the same options and the same data pending, a writer with workers cuts what is
/// written into the same blocks as one without, and keeps the same rest.
pub proof fn law_same_blocks(s: WriterView, m: MtView, p: Seq<u8>)
    requires
        s.wf(),
        m.wf(),
        p.len() <= usize::MAX,
        s.options == m.options,
        s.pending == m.pending,
    ensures
        mt_writer::written_entries(m, p) == mt_writer::block_entries(
            writer::blocks_of_write(s, p),
        ),
        mt_writer::kept_after(m, p) == writer::pending_after_write(s, p, Ok(p.len() as usize)),
{
}

proof fn lemma_frames_data(fs: Seq<Frame>, es: Seq<EntryView>, packing: Option<Level>)
    requires
        mt_writer::are_frames_of(fs, es, packing),
        fs.len() == es.len(),
    ensures
        output::data_of(fs) == mt_writer::entries_data(es),
    decreases fs.len(),
{
    if fs.len() > 0 {
        let a = fs.drop_last();
        let b = es.drop_last();
        let k = fs.len() - 1;
        assert(mt_writer::is_frame_of(fs[k], es[k], packing));
        assert forall|i: int| 0 <= i < a.len() implies mt_writer::is_frame_of(
            #[trigger] a[i],
            b[i],
            packing,
        ) by {
            assert(a[i] == fs[i]);
        }
        lemma_frames_data(a, b, packing);
    }
}

/// A reader with these options takes all that was given.
pub open spec fn readable(o: OptionsView, v: MtView) -> bool {
    &&& o.wf()
    &&& roundtrip::negotiated(v.options.block_size) <= o.max_block_size
    &&& forall|i: int|
        0 <= i < v.entries.len() ==> (#[trigger] v.entries[i] matches EntryView::User(id, b)
            ==> roundtrip::accepts(o, Frame::User(id, b)))
}

/// What a writer with workers that is finished without an error has put in its sink, a
/// reader reads back: all that was written, without an error.
pub proof fn law_reader_inverts_mt_writer(v: MtView, sink: Seq<u8>, o: OptionsView)
    requires
        v.wf(),
        v.out.before == Seq::<u8>::empty(),
        mt_writer::finishes_to(v, sink, None),
        readable(o, v),
    ensures
        reader::drained(reader::fresh(o, sink)).data == v.data(),
        reader::drained(reader::fresh(o, sink)).err is None,
{
    let c = v.options.closing(v.options.generate_index);
    let w = choose|w: OutputView| #[trigger] mt_writer::closed_from(v, w, sink, None);
    let x = OutputView { started: true, ..w };
    let es = v.entries + mt_writer::pending_entries(v);
    let packing = v.options.packing();
    assert(x.before + x.closed(c) =~= x.closed(c));
    lemma_frames_data(w.frames, es, packing);
    lemma_pending_data(v);
    assert forall|i: int| 0 <= i < w.frames.len() implies roundtrip::accepts(
        o,
        #[trigger] w.frames[i],
    ) by {
        assert(mt_writer::is_frame_of(w.frames[i], es[i], packing));
        if i < v.entries.len() {
            assert(es[i] == v.entries[i]);
        } else {
            assert(es[i] == mt_writer::pending_entries(v)[i - v.entries.len()]);
            assert(w.frames[i] is Block);
        }
    }
    roundtrip::law_reader_inverts_output(x, c, o);
}

/// There are no user chunks among the entries.
pub open spec fn only_blocks(es: Seq<EntryView>) -> bool {
    forall|i: int| 0 <= i < es.len() ==> (#[trigger] es[i]) is Block
}

proof fn lemma_entries_take(es: Seq<EntryView>, k: int)
    requires
        0 <= k <= es.len(),
    ensures
        mt_writer::entries_data(es.take(k)).len() <= mt_writer::entries_data(es).len(),
    decreases es.len(),
{
    if k < es.len() {
        lemma_entries_take(es.drop_last(), k);
        assert(es.drop_last().take(k) =~= es.take(k));
    } else {
        assert(es.take(k) =~= es);
    }
}

proof fn lemma_out_small(w: OutputView, es: Seq<EntryView>, packing: Option<Level>)
    requires
        w.wf(),
        mt_writer::are_frames_of(w.frames, es, packing),
        only_blocks(es),
        mt_writer::entries_data(es).len() < 0x200_0000_0000_0000,
    ensures
        random_access::moderate(w),
{
    let k = w.frames.len() as int;
    let a = es.take(k);
    assert forall|i: int| 0 <= i < k implies mt_writer::is_frame_of(
        #[trigger] w.frames[i],
        a[i],
        packing,
    ) by {
        assert(a[i] == es[i]);
    }
    lemma_frames_data(w.frames, a, packing);
    lemma_entries_take(es, k);
    assert forall|i: int| 0 <= i < k implies (#[trigger] w.frames[i]) is Block by {
        assert(mt_writer::is_frame_of(w.frames[i], es[i], packing));
        assert(es[i] is Block);
    }
    success::law_small_data(w);
}

/// A writer with workers whose stream is small enough does not fail.
pub proof fn law_give_succeeds(w: MtView)
    requires
        w.wf(),
        only_blocks(w.entries),
        mt_writer::entries_data(w.entries).len() < 0x200_0000_0000_0000,
    ensures
        w.err is None,
{
    lemma_out_small(w.out, w.entries, w.options.packing());
    success::law_no_refusal(w.out);
}

/// A writer with workers whose stream is small enough closes it.
pub proof fn law_close_succeeds(v: MtView, sink: Seq<u8>, err: Option<Error>)
    requires
        v.wf(),
        only_blocks(v.entries),
        v.data().len() < 0x200_0000_0000_0000,
        mt_writer::finishes_to(v, sink, err),
    ensures
        err is None,
{
    law_give_succeeds(v);
    let w = choose|w: OutputView| #[trigger] mt_writer::closed_from(v, w, sink, err);
    let es = v.entries + mt_writer::pending_entries(v);
    lemma_pending_data(v);
    lemma_out_small(w, es, v.options.packing());
    success::law_no_refusal(w);
    let x = OutputView { started: true, ..w };
    random_access::lemma_closes(x, v.options.closing(v.options.generate_index));
}

/// A write gives only blocks.
pub proof fn lemma_only_blocks(v: MtView, w: MtView, p: Seq<u8>)
    requires
        only_blocks(v.entries),
        w.entries == v.entries + mt_writer::written_entries(v, p),
    ensures
        only_blocks(w.entries),
{
    assert forall|i: int| 0 <= i < w.entries.len() implies (#[trigger] w.entries[i]) is Block by {
        if i < v.entries.len() {
            assert(v.entries[i] is Block);
        }
    }
}

/// A write succeeds where the stream stays small enough.
pub proof fn law_write_succeeds(v: MtView, w: MtView, p: Seq<u8>, err: Option<Error>)
    requires
        v.wf(),
        w.wf(),
        only_blocks(v.entries),
        v.data().len() + p.len() < 0x200_0000_0000_0000,
        mt_writer::given(
            v,
            w,
            mt_writer::written_entries(v, p),
            mt_writer::kept_after(v, p),
            err,
        ),
    ensures
        err is None,
        only_blocks(w.entries),
{
    let n = v.options.block_size as int;
    let es = mt_writer::written_entries(v, p);
    let all = v.entries + es;
    let whole = writer::whole(v.pending + p, n);
    lemma_entries_concat(v.entries, es);
    lemma_block_data(writer::pieces(whole, n));
    roundtrip::law_pieces_join(whole, n);
    writer::lemma_whole_rest(v.pending + p, n);
    assert forall|i: int| 0 <= i < all.len() implies (#[trigger] all[i]) is Block by {
        if i < v.entries.len() {
            assert(v.entries[i] is Block);
        }
    }
    if err is Some {
        let k = w.entries.len() as int;
        assert(w.entries =~= all.take(k)) by {
            assert(w.entries =~= all.subrange(0, k));
        }
        lemma_entries_take(all, k);
        law_give_succeeds(w);
    }
}

} // verus!
