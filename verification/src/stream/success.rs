//! When writing a stream succeeds.
use crate::block::Level;
use crate::index;
use crate::index::IndexView;
use crate::stream::error::Error;
use crate::stream::output;
use crate::stream::output::{Frame, OutputView};
use crate::stream::random_access;
use crate::stream::roundtrip;
use crate::stream::writer;
use crate::stream::writer::WriterView;
use vstd::prelude::*;

verus! {

proof fn lemma_bytes_take(fs: Seq<Frame>, k: int)
    requires
        0 <= k <= fs.len(),
    ensures
        output::bytes_of(fs.take(k)).len() <= output::bytes_of(fs).len(),
        output::data_of(fs.take(k)).len() <= output::data_of(fs).len(),
    decreases fs.len(),
{
    if k < fs.len() {
        let before = fs.drop_last();
        lemma_bytes_take(before, k);
        assert(before.take(k) =~= fs.take(k));
    } else {
        assert(fs.take(k) =~= fs);
    }
}

proof fn lemma_added(v: IndexView, compressed: u64, uncompressed: u64)
    requires
        compressed <= i64::MAX,
        uncompressed <= i64::MAX,
        v.offsets.len() > 0 ==> v.offsets.last().compressed <= compressed,
    ensures
        index::added(v, compressed, uncompressed) is Ok,
{
}

proof fn lemma_last_entry(block_size: usize, fs: Seq<Frame>)
    requires
        block_size > 0,
        10 + output::bytes_of(fs).len() <= u64::MAX,
        output::data_of(fs).len() <= u64::MAX,
    ensures
        ({
            let s = output::index_of(block_size, fs).offsets;
            s.len() > 0 ==> s.last().compressed <= 10 + output::bytes_of(fs).len()
        }),
{
    let s = output::index_of(block_size, fs).offsets;
    random_access::law_index_marks(block_size, fs);
    if s.len() > 0 {
        let e = s[s.len() - 1];
        assert(random_access::marks(fs, e));
        let k = choose|k: int| 0 <= k <= fs.len() && #[trigger] random_access::marks_at(fs, e, k);
        lemma_bytes_take(fs, k);
    }
}

/// A stream that is small enough takes another block: its place fits in the index.
pub proof fn law_no_refusal(w: OutputView)
    requires
        w.wf(),
        random_access::moderate(w),
    ensures
        w.refusal() is None,
{
    let started = OutputView { started: true, ..w };
    let n = started.bytes().len();
    assert(n == 10 + output::bytes_of(w.frames).len());
    lemma_last_entry(w.block_size, w.frames);
    lemma_added(w.index(), n as u64, w.total());
}

/// Blocks go out where the stream stays small enough.
pub proof fn law_put_succeeds(
    v: OutputView,
    w: OutputView,
    blocks: Seq<Seq<u8>>,
    packing: Option<Level>,
    err: Option<Error>,
)
    requires
        w.wf(),
        random_access::moderate(w),
        writer::put_all(v, w, blocks, packing, err),
    ensures
        err is None,
        writer::count_new(v, w) == blocks.len(),
{
    law_no_refusal(w);
}

/// There are no user chunks among the frames.
pub open spec fn only_blocks(fs: Seq<Frame>) -> bool {
    forall|i: int| 0 <= i < fs.len() ==> (#[trigger] fs[i]) is Block
}

/// Chunks are not much larger than the blocks that they hold.
pub proof fn law_bytes_bound(fs: Seq<Frame>, block_size: int)
    requires
        only_blocks(fs),
        forall|i: int| 0 <= i < fs.len() ==> (#[trigger] fs[i]).wf(block_size),
    ensures
        output::bytes_of(fs).len() <= 9 * output::data_of(fs).len(),
    decreases fs.len(),
{
    if fs.len() > 0 {
        let before = fs.drop_last();
        assert forall|i: int| 0 <= i < before.len() implies (#[trigger] before[i]).wf(block_size)
            && before[i] is Block by {
            assert(before[i] == fs[i]);
        }
        law_bytes_bound(before, block_size);
        let f = fs[fs.len() - 1];
        assert(f.wf(block_size) && f is Block);
        if let Frame::Block(d, c) = f {
            output::lemma_chunk_len(c, d);
        }
    }
}

/// A stream of blocks that hold less than so much data is small enough.
pub proof fn law_small_data(w: OutputView)
    requires
        w.wf(),
        only_blocks(w.frames),
        output::data_of(w.frames).len() < 0x200_0000_0000_0000,
    ensures
        random_access::moderate(w),
{
    law_bytes_bound(w.frames, w.block_size as int);
}

/// What was written, with `more` bytes behind it, makes a stream that is small enough.
pub open spec fn roomy(v: WriterView, more: int) -> bool {
    &&& output::bytes_of(v.out.frames).len() + 9 * (v.pending.len() + more)
        < 0x1fff_ffff_ffff_ffff
    &&& v.data().len() + more < 0x1fff_ffff_ffff_ffff
}

/// Without user chunks, it is so where there is less than so much data.
pub proof fn law_roomy(v: WriterView, more: int)
    requires
        v.wf(),
        only_blocks(v.out.frames),
        0 <= more,
        v.data().len() + more < 0x200_0000_0000_0000,
    ensures
        roomy(v, more),
{
    law_bytes_bound(v.out.frames, v.out.block_size as int);
}

/// The blocks that were put out take not much more space than they hold data.
proof fn lemma_emitted_bytes(
    v: OutputView,
    w: OutputView,
    blocks: Seq<Seq<u8>>,
    packing: Option<Level>,
)
    requires
        w.wf(),
        writer::emitted(v, w, blocks, packing),
        0 <= writer::count_new(v, w) <= blocks.len(),
    ensures
        output::bytes_of(w.frames).len() <= output::bytes_of(v.frames).len() + 9
            * roundtrip::joined(blocks).len(),
{
    let n = v.frames.len() as int;
    let new = w.frames.skip(n);
    assert(w.frames =~= v.frames + new && only_blocks(new)) by {
        reveal(writer::emitted);
        assert(w.frames =~= w.frames.take(n) + new);
        assert forall|i: int| 0 <= i < new.len() implies (#[trigger] new[i]) is Block by {
            assert(new[i] == w.frames[n + i]);
        }
    }
    assert forall|i: int| 0 <= i < new.len() implies (#[trigger] new[i]).wf(
        w.block_size as int,
    ) by {
        assert(new[i] == w.frames[n + i]);
    }
    law_bytes_bound(new, w.block_size as int);
    roundtrip::lemma_frames_concat(v.frames, new);
    lemma_emitted_bound(v, w, blocks, packing);
}

/// A writer whose stream is small enough closes it.
pub proof fn law_close_succeeds(
    v: WriterView,
    build_index: bool,
    sink: Seq<u8>,
    index_bytes: Seq<u8>,
    err: Option<Error>,
)
    requires
        v.wf(),
        roomy(v, 0),
        writer::closes_to(v, build_index, sink, index_bytes, err),
    ensures
        err is None,
{
    let w = choose|w: OutputView| #[trigger]
        writer::closed_from(v, w, build_index, sink, index_bytes, err);
    reveal(writer::emitted);
    lemma_closing_moderate(v, w);
    law_no_refusal(w);
    random_access::lemma_closes(w, v.options.closing(build_index));
}

/// What is put out when a stream is closed makes it no larger than expected.
pub proof fn lemma_closing_moderate(v: WriterView, w: OutputView)
    requires
        v.wf(),
        w.wf(),
        roomy(v, 0),
        writer::emitted(v.out, w, writer::as_blocks(v.pending), v.options.packing()),
        0 <= writer::count_new(v.out, w) <= writer::as_blocks(v.pending).len(),
    ensures
        random_access::moderate(w),
{
    let blocks = writer::as_blocks(v.pending);
    assert(roundtrip::joined(blocks) =~= v.pending) by {
        if v.pending.len() > 0 {
            assert(blocks.drop_last() =~= Seq::<Seq<u8>>::empty());
            assert(roundtrip::joined(blocks.drop_last()) =~= Seq::<u8>::empty());
            assert(blocks.last() == v.pending);
        }
    }
    lemma_emitted_bytes(v.out, w, blocks, v.options.packing());
    lemma_emitted_bound(v.out, w, blocks, v.options.packing());
}

/// Blocks that were put out leave only blocks.
pub proof fn lemma_only_blocks(v: OutputView, w: OutputView, blocks: Seq<Seq<u8>>, packing: Option<Level>)
    requires
        only_blocks(v.frames),
        writer::emitted(v, w, blocks, packing),
    ensures
        only_blocks(w.frames),
{
    reveal(writer::emitted);
    let n = v.frames.len() as int;
    assert forall|i: int| 0 <= i < w.frames.len() implies (#[trigger] w.frames[i]) is Block by {
        if i < n {
            assert(w.frames.take(n)[i] == v.frames[i]);
        }
    }
}

/// The blocks that were put out hold no more data than all of them.
proof fn lemma_emitted_bound(v: OutputView, w: OutputView, blocks: Seq<Seq<u8>>, packing: Option<Level>)
    requires
        writer::emitted(v, w, blocks, packing),
        0 <= writer::count_new(v, w) <= blocks.len(),
    ensures
        output::data_of(w.frames).len() <= output::data_of(v.frames).len() + roundtrip::joined(
            blocks,
        ).len(),
{
    let k = writer::count_new(v, w);
    let a = blocks.take(k);
    assert(writer::emitted(v, w, a, packing)) by {
        reveal(writer::emitted);
    }
    roundtrip::lemma_emitted_data(v, w, a, packing);
    assert(blocks =~= a + blocks.skip(k));
    roundtrip::lemma_joined_concat(a, blocks.skip(k));
}

/// A write succeeds where the stream stays small enough.
pub proof fn law_write_succeeds(v: WriterView, w: OutputView, p: Seq<u8>, err: Option<Error>)
    requires
        v.wf(),
        w.wf(),
        roomy(v, p.len() as int),
        writer::put_all(
            v.out,
            w,
            writer::blocks_of_write(v, p),
            v.options.packing(),
            err,
        ),
    ensures
        err is None,
{
    let n = v.options.block_size as int;
    let blocks = writer::blocks_of_write(v, p);
    let all = if v.options.flush_on_write {
        p
    } else {
        writer::whole(v.pending + p, n)
    };
    roundtrip::law_pieces_join(all, n);
    if !v.options.flush_on_write {
        writer::lemma_whole_rest(v.pending + p, n);
    }
    lemma_emitted_bytes(v.out, w, blocks, v.options.packing());
    lemma_emitted_bound(v.out, w, blocks, v.options.packing());
    law_no_refusal(w);
}

} // verus!
