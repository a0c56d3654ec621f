//! What a stream is made of: how large its blocks and chunks are, and how near its index leads.
use crate::block;
use crate::block::Level;
use crate::index;
use crate::index::near;
use crate::stream::chunk;
use crate::stream::format::{MAX_BLOCK_SIZE, MIN_BLOCK_SIZE};
use crate::stream::output;
use crate::stream::output::Frame;
use crate::stream::reader;
use crate::stream::roundtrip;
use crate::stream::writer;
use vstd::prelude::*;

verus! {

/// The blocks that data is cut into all have the size asked for, but for the last one, which
/// has what is left.
pub proof fn law_piece_sizes(data: Seq<u8>, n: int)
    requires
        n > 0,
    ensures
        ({
            let ps = writer::pieces(data, n);
            &&& data.len() == 0 <==> ps.len() == 0
            &&& forall|i: int| 0 <= i < ps.len() - 1 ==> (#[trigger] ps[i]).len() == n
            &&& ps.len() > 0 ==> 0 < ps.last().len() <= n
            &&& ps.len() > 0 ==> data.len() == (ps.len() - 1) * n + ps.last().len()
            &&& forall|i: int, j: int|
                0 <= i < ps.len() && 0 <= j < ps[i].len() ==> #[trigger] ps[i][j] == data[i * n + j]
        }),
    decreases data.len(),
{
    let ps = writer::pieces(data, n);
    if data.len() > n {
        let rest = writer::pieces(data.skip(n), n);
        law_piece_sizes(data.skip(n), n);
        assert(ps =~= seq![data.take(n)] + rest);
        assert forall|i: int| 0 <= i < ps.len() - 1 implies (#[trigger] ps[i]).len() == n by {
            if i > 0 {
                assert(ps[i] == rest[i - 1]);
            }
        }
        assert(ps.last() == rest.last());
        assert((rest.len() - 1) * n + n == rest.len() * n) by (nonlinear_arith);
        assert forall|i: int, j: int|
            0 <= i < ps.len() && 0 <= j < ps[i].len() implies #[trigger] ps[i][j] == data[i * n
            + j] by {
            if i > 0 {
                assert(ps[i] == rest[i - 1]);
                assert(rest[i - 1][j] == data.skip(n)[(i - 1) * n + j]);
                assert((i - 1) * n + n == i * n) by (nonlinear_arith);
                lemma_within(rest.len() as int, n, i - 1, j, rest.last().len() as int);
                assert(rest[i - 1].len() <= n);
                if i - 1 < rest.len() - 1 {
                    assert(rest[i - 1].len() == n);
                }
            } else {
                assert(0 * n == 0);
            }
        }
    } else {
        assert(0 * n == 0);
        assert(data.len() > 0 ==> ps =~= seq![data]);
    }
}

/// A place in one of several pieces is a place in all of them together.
proof fn lemma_within(count: int, n: int, i: int, j: int, last: int)
    requires
        0 <= i < count,
        0 <= j,
        n > 0,
        0 < last <= n,
        i < count - 1 ==> j < n,
        i == count - 1 ==> j < last,
    ensures
        0 <= i * n + j < (count - 1) * n + last,
{
    assert(0 <= i * n) by (nonlinear_arith)
        requires
            0 <= i,
            n > 0,
    ;
    if i < count - 1 {
        assert(i * n + n <= (count - 1) * n) by (nonlinear_arith)
            requires
                i + 1 <= count - 1,
                n > 0,
        ;
    }
}

/// A data chunk is no larger than it need be: eight bytes and the data; and where the data
/// gets smaller as a block, seven bytes more than that.
pub proof fn law_data_chunk_size(data: Seq<u8>, level: Level)
    requires
        data.len() <= MAX_BLOCK_SIZE,
    ensures
        output::data_chunk(data, None).len() == 8 + data.len(),
        output::data_chunk(data, Some(level)).len() <= 8 + data.len(),
        block::encoded(data, level).len() < data.len() ==> output::data_chunk(
            data,
            Some(level),
        ).len() == block::encoded(data, level).len() + 7,
{
    reveal(output::data_chunk);
    block::lemma_block_varint_len(data.len());
}

/// What holds of the index over frames.
spec fn in_reach(block_size: usize, fs: Seq<Frame>) -> bool {
    let v = output::index_of(block_size, fs);
    &&& v.offsets.len() > 0 ==> v.offsets.last().uncompressed < output::data_of(fs).len()
    &&& v.offsets.len() > 0 ==> v.offsets.last().compressed <= 10 + output::bytes_of(fs).len()
    &&& v.est_block_uncomp >= index::spacing(block_size as int)
    &&& v.offsets.len() <= fs.len()
    &&& fs.len() < 65536 ==> v.est_block_uncomp == index::spacing(block_size as int)
    &&& near::leads_near(
        v.offsets,
        output::data_of(fs).len() as int,
        2 * v.est_block_uncomp + block_size,
    )
}

/// The index of a stream leads near every offset in its data: to less than twice its distance
/// and a block before it. Up to 65535 blocks and user chunks that distance is the size of a
/// block, doubled as long as it is below 1 MiB.
pub proof fn law_index_leads_near(block_size: usize, fs: Seq<Frame>)
    requires
        MIN_BLOCK_SIZE <= block_size <= MAX_BLOCK_SIZE,
        forall|i: int| 0 <= i < fs.len() ==> (#[trigger] fs[i]).wf(block_size as int),
        10 + output::bytes_of(fs).len() <= i64::MAX,
        output::data_of(fs).len() <= i64::MAX,
    ensures
        ({
            let v = output::index_of(block_size, fs);
            let est = v.est_block_uncomp;
            &&& near::leads_near(
                v.offsets,
                output::data_of(fs).len() as int,
                2 * est + block_size,
            )
            &&& fs.len() < 65536 ==> est == index::spacing(block_size as int)
        }),
{
    lemma_in_reach(block_size, fs);
}

proof fn lemma_in_reach(block_size: usize, fs: Seq<Frame>)
    requires
        MIN_BLOCK_SIZE <= block_size <= MAX_BLOCK_SIZE,
        forall|i: int| 0 <= i < fs.len() ==> (#[trigger] fs[i]).wf(block_size as int),
        10 + output::bytes_of(fs).len() <= i64::MAX,
        output::data_of(fs).len() <= i64::MAX,
    ensures
        in_reach(block_size, fs),
    decreases fs.len(),
{
    near::law_spacing(block_size as int);
    if fs.len() > 0 {
        let before = fs.drop_last();
        assert forall|i: int| 0 <= i < before.len() implies (#[trigger] before[i]).wf(
            block_size as int,
        ) by {
            assert(before[i] == fs[i]);
        }
        lemma_in_reach(block_size, before);
        roundtrip::lemma_index_of(block_size, before);
        let v = output::index_of(block_size, before);
        let w = output::index_of(block_size, fs);
        assert(fs.last().wf(block_size as int));
        if let Frame::Block(d, c) = fs.last() {
            let at = (10 + output::bytes_of(before).len()) as u64;
            let u = output::data_of(before).len() as u64;
            assert(chunk::wrapping(0, u as int) == u);
            near::law_added(v, at, u);
            near::law_added_near(v, at, u, block_size as int);
            lemma_last(v, at, u);
        }
    }
}

/// The last entry of an index is not behind the one that was added.
proof fn lemma_last(v: index::IndexView, compressed: u64, uncompressed: u64)
    requires
        v.wf(),
        v.offsets.len() > 0 ==> v.offsets.last().uncompressed < uncompressed
            && v.offsets.last().compressed <= compressed,
    ensures
        index::added(v, compressed, uncompressed) matches Ok(w) ==> {
            &&& w.offsets.len() <= v.offsets.len() + 1
            &&& w.offsets.len() > 0 ==> w.offsets.last().uncompressed <= uncompressed
                && w.offsets.last().compressed <= compressed
            &&& w.est_block_uncomp >= v.est_block_uncomp
        },
{
    index::law_add_keeps_order(v, compressed, uncompressed);
    if let Ok(w) = index::added(v, compressed, uncompressed) {
        let t = v.offsets.push(index::OffsetPair { compressed, uncompressed });
        if w.offsets != v.offsets && w.offsets != t {
            assert(index::in_order(t));
            index::lemma_thinned(t, 2 * v.est_block_uncomp);
            assert(t.contains(w.offsets[w.offsets.len() - 1]));
            let i = choose|i: int| 0 <= i < t.len() && t[i] == w.offsets.last();
            if i < t.len() - 1 {
                assert(t[i].uncompressed < t[t.len() - 1].uncompressed);
            }
        }
    }
}

/// What holds where nothing is asked for: a writer makes blocks of 2 MiB at the balanced
/// level, without padding, builds an index and does not append it, and collects whole blocks;
/// a reader accepts blocks of up to 8 MiB, wants the start of a stream, compares checksums,
/// and has no callbacks.
pub proof fn law_defaults()
    ensures
        ({
            let w = writer::default_options();
            let r = reader::default_options();
            &&& w.block_size == 2097152 && w.level == Level::Balanced && !w.uncompressed
            &&& w.padding == 0 && w.generate_index && !w.append_index && !w.flush_on_write
            &&& r.max_block_size == 8388608 && !r.ignore_stream_id && !r.ignore_crc
            &&& r.callbacks.len() == 126
            &&& forall|i: int| 0 <= i < 126 ==> (#[trigger] r.callbacks[i]) is None
        }),
{
}

} // verus!
