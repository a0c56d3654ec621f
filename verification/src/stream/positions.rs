//! Where a reader stands in its stream.
use crate::index;
use crate::stream::chunk;
use crate::stream::chunk::{Answer, ItemView, OptionsView, Progress};
use crate::stream::error::Error;
use crate::stream::format as layout;
use crate::stream::format::CHUNK_TYPE_PADDING;
use crate::stream::laws;
use crate::stream::output;
use crate::stream::output::{Closing, Frame, OutputView};
use crate::stream::reader;
use crate::stream::reader::{ReaderView, Step};
use crate::stream::roundtrip;
use crate::stream::writer;
use crate::stream::writer::WriterView;
use vstd::prelude::*;

verus! {

/// The offset in the uncompressed stream of the next byte that is read.
pub open spec fn offset_of(v: ReaderView) -> u64 {
    chunk::wrapping(v.block_start, v.pos)
}

/// Nothing follows but chunks without a meaning.
pub open spec fn quiet(o: OptionsView, p: Progress, s: Seq<u8>) -> bool
    decreases s.len(),
{
    match reader::step(o, p, s) {
        Step::Ended => true,
        Step::Passed(n, p2, ItemView::Skipped) => 0 < n <= s.len() && p2 == p && quiet(
            o,
            p,
            s.skip(n),
        ),
        _ => false,
    }
}

/// The stream before the reader goes on to its end without a fault; no other stream
/// starts before that or behind it, and blocks of `least` bytes are accepted throughout.
#[verifier::opaque]
pub open spec fn sound(v: ReaderView, least: int) -> bool
    decreases v.source.len() - v.at,
{
    if !v.wf() {
        false
    } else {
        proof {
            reader::lemma_step(v);
        }
        match reader::step(v.asked(), v.progress, v.rest()) {
            Step::Passed(n, p, item) => if item is End {
                quiet(v.asked(), p, v.rest().skip(n))
            } else {
                &&& item is Start ==> {
                    &&& v.progress.total == 0
                    &&& p.header_read
                    &&& least <= p.max_block
                }
                &&& sound(reader::moved(v.emptied(), n, p, item), least)
            },
            _ => false,
        }
    }
}

/// `w` is a reader of the same stream as `v`, and accepts what `v` accepts of it.
pub open spec fn same_stream(v: ReaderView, w: ReaderView, least: int) -> bool {
    &&& w.source == v.source
    &&& w.options == v.options
    &&& w.answers == v.answers
    &&& w.err == v.err
    &&& v.progress.header_read && least <= v.progress.max_block ==> w.progress.header_read && least
        <= w.progress.max_block
}

/// Only the start and the end of a stream change what is accepted.
proof fn lemma_progress(v: ReaderView)
    requires
        v.wf(),
    ensures
        reader::step(v.asked(), v.progress, v.rest()) matches Step::Passed(_, p, item) ==> item
            is Start || item is End || p == (Progress { total: p.total, ..v.progress }),
        reader::step(v.asked(), v.progress, v.rest()) matches Step::Passed(_, p, item) ==> (match item {
            ItemView::Data(b) => p.total == chunk::wrapping(v.progress.total, b.len() as int),
            ItemView::Start => p.total == 0,
            ItemView::End => !p.header_read && p.total == v.progress.total,
            _ => p.total == v.progress.total,
        }),
{
    reveal(reader::step);
}

/// Readers that have the same before them are sound alike.
pub proof fn lemma_sound_alike(v: ReaderView, w: ReaderView, least: int)
    requires
        v.wf(),
        w.wf(),
        v.options == w.options,
        v.progress == w.progress,
        v.rest() == w.rest(),
        laws::same_answers(v, w),
    ensures
        sound(v, least) == sound(w, least),
    decreases v.source.len() - v.at,
{
    reveal(sound);
    reader::lemma_step(v);
    reader::lemma_step(w);
    assert(v.asked() == w.asked());
    if let Step::Passed(n, p, item) = reader::step(v.asked(), v.progress, v.rest()) {
        laws::lemma_same_answers(v, w, n, p, item);
        if !(item is End) {
            let v2 = reader::moved(v.emptied(), n, p, item);
            let w2 = reader::moved(w.emptied(), n, p, item);
            assert(v2.rest() =~= v.rest().skip(n));
            assert(w2.rest() =~= w.rest().skip(n));
            lemma_sound_alike(v2, w2, least);
        }
    }
}

/// Reading on to the next data.
pub proof fn lemma_filled(v: ReaderView, least: int)
    requires
        sound(v, least),
        v.pos == v.block.len(),
        laws::until_end(v) > 0,
    ensures
        ({
            let (u, f) = reader::filled(v);
            &&& f == Ok::<bool, Error>(true)
            &&& u.wf()
            &&& sound(u, least)
            &&& laws::until_end(u) == laws::until_end(v)
            &&& u.pos == 0
            &&& u.block.len() > 0
            &&& u.block_start == v.progress.total
            &&& same_stream(v, u, least)
        }),
    decreases v.source.len() - v.at,
{
    reveal(sound);
    reader::lemma_step(v);
    lemma_progress(v);
    assert(v.emptied() =~= v);
    if let Step::Passed(n, p, item) = reader::step(v.asked(), v.progress, v.rest()) {
        let w = reader::moved(v, n, p, item);
        if w.pos == w.block.len() {
            lemma_filled(w, least);
        }
    }
}

proof fn lemma_wrapping(t: u64, a: int, b: int)
    ensures
        chunk::wrapping(chunk::wrapping(t, a), b) == chunk::wrapping(t, a + b),
{
}

/// A reader that finds its stream sound is in order.
pub proof fn lemma_sound_wf(v: ReaderView, least: int)
    requires
        sound(v, least),
    ensures
        v.wf(),
{
    reveal(sound);
}

/// Reading on to the next data, where there may be some at hand.
proof fn lemma_filled_here(v: ReaderView, least: int)
    requires
        sound(v, least),
        laws::until_end(v) > 0,
    ensures
        ({
            let (u, f) = reader::filled(v);
            &&& f == Ok::<bool, Error>(true)
            &&& sound(u, least)
            &&& u.pending().len() > 0
            &&& laws::until_end(u) == laws::until_end(v)
            &&& offset_of(u) == offset_of(v)
            &&& same_stream(v, u, least)
            &&& reader::drained(u).data == reader::drained(v).data
            &&& reader::drained(u).err == reader::drained(v).err
        }),
{
    lemma_sound_wf(v, least);
    reader::lemma_drained_filled(v);
    if v.pos == v.block.len() {
        lemma_filled(v, least);
    }
}

/// Handing out some of the current block.
proof fn lemma_take(v: ReaderView, m: int, least: int)
    requires
        sound(v, least),
        0 <= m <= v.pending().len(),
    ensures
        ({
            let w = ReaderView { pos: v.pos + m, ..v };
            &&& v.wf()
            &&& sound(w, least)
            &&& same_stream(v, w, least)
            &&& laws::until_end(w) == laws::until_end(v) - m
            &&& offset_of(w) == chunk::wrapping(offset_of(v), m)
            &&& reader::drained(w).data == reader::drained(v).data.skip(m)
            &&& reader::drained(w).err == reader::drained(v).err
        }),
{
    let w = ReaderView { pos: v.pos + m, ..v };
    lemma_sound_wf(v, least);
    reader::lemma_drained_take(v, m);
    laws::lemma_until_end_take(v, m);
    assert(w.rest() =~= v.rest());
    lemma_sound_alike(v, w, least);
}

/// Reading `k` bytes that the stream has before its end moves the reader on by that
/// much, and leaves the rest to be read.
pub proof fn law_read_moves(v: ReaderView, k: int, least: int)
    requires
        sound(v, least),
        0 <= k <= laws::until_end(v),
    ensures
        ({
            let t = reader::taken(v, k);
            &&& t.wf()
            &&& sound(t, least)
            &&& same_stream(v, t, least)
            &&& laws::until_end(t) == laws::until_end(v) - k
            &&& offset_of(t) == chunk::wrapping(offset_of(v), k)
            &&& reader::drained(t).data == reader::drained(v).data.skip(k)
            &&& reader::drained(t).err == reader::drained(v).err
        }),
    decreases k,
{
    let all = reader::drained(v).data;
    lemma_sound_wf(v, least);
    if k == 0 {
        assert(all.skip(0) =~= all);
    } else {
        let (u, _) = reader::filled(v);
        lemma_filled_here(v, least);
        let have = u.pending().len() as int;
        let m = if have < k {
            have
        } else {
            k
        };
        lemma_take(u, m, least);
        let w = ReaderView { pos: u.pos + m, ..u };
        law_read_moves(w, k - m, least);
        lemma_wrapping(offset_of(v), m, k - m);
        lemma_until_end(v, least);
        assert(all.skip(m).skip(k - m) =~= all.skip(k));
    }
}

proof fn lemma_until_end(v: ReaderView, least: int)
    requires
        sound(v, least),
    ensures
        laws::until_end(v) <= reader::drained(v).data.len(),
{
    lemma_sound_wf(v, least);
    laws::lemma_until_end_len(v);
}

/// The reader is at the start of its current block, or behind it with more to skip.
pub open spec fn at_block(v: ReaderView, n: int) -> bool {
    v.pos == 0 || (v.pos == v.block.len() && n > 0)
}

/// Skipping `n` bytes that the stream has before its end moves the reader on by that
/// much.
pub proof fn law_skip_moves(v: ReaderView, n: int, least: int)
    requires
        sound(v, least),
        0 <= n <= laws::until_end(v),
    ensures
        ({
            let (q, e) = reader::skipped(v, n);
            &&& e is None
            &&& q.wf()
            &&& sound(q, least)
            &&& same_stream(v, q, least)
            &&& offset_of(q) == chunk::wrapping(offset_of(v), n)
        }),
        ({
            let (q, _) = reader::skipped(v, n);
            let d = reader::drained(ReaderView { pos: 0, ..q });
            at_block(v, n) ==> {
                &&& 0 <= q.pos <= n
                &&& d.data == reader::drained(v).data.skip(n - q.pos)
                &&& d.err == reader::drained(v).err
            }
        }),
    decreases v.source.len() - v.at, 1int,
{
    let have = v.pending().len() as int;
    let all = reader::drained(v).data;
    if n <= have {
        lemma_take(v, n, least);
        assert(ReaderView { pos: v.pos + 0, ..v } =~= v);
        assert(ReaderView { pos: 0, ..ReaderView { pos: v.pos + n, ..v } } =~= ReaderView {
            pos: 0,
            ..v
        });
        if at_block(v, n) {
            assert(ReaderView { pos: 0, ..v } =~= v);
            assert(all.skip(0) =~= all);
        }
    } else {
        lemma_skip_on(v, n, least);
    }
}

/// Where a skip goes on behind the next chunk, and how many bytes of it are skipped
/// without being decoded.
proof fn lemma_skip_next(v: ReaderView, n: int, least: int) -> (r: (ReaderView, int))
    requires
        sound(v, least),
        v.pending().len() < n,
        !(reader::step(v.asked(), v.progress, v.rest()) matches Step::Passed(_, _, ItemView::End)),
    ensures
        ({
            let (x, d) = r;
            let have = v.pending().len() as int;
            let m = n - have;
            &&& reader::skipped(v, n) == reader::skipped(x, m - d)
            &&& 0 <= d <= m
            &&& x.wf()
            &&& sound(x, least)
            &&& same_stream(v, x, least)
            &&& laws::until_end(x) == laws::until_end(v) - have - d
            &&& offset_of(x) == chunk::wrapping(offset_of(v), have + d)
            &&& at_block(x, m - d)
            &&& have + d <= reader::drained(v).data.len()
            &&& reader::drained(x).data == reader::drained(v).data.skip(have + d)
            &&& reader::drained(x).err == reader::drained(v).err
            &&& x.at > v.at
        }),
{
    reveal(sound);
    let have = v.pending().len() as int;
    let u = v.emptied();
    let m = n - have;
    lemma_take(v, have, least);
    assert(u =~= ReaderView { pos: v.pos + have, ..v });
    reader::lemma_step(v);
    reader::lemma_skip_step(v, m);
    lemma_progress(v);
    match reader::step(v.asked(), v.progress, v.rest()) {
        Step::Passed(k, p, item) => {
            let w = reader::moved(u, k, p, item);
            lemma_drained_step(v, k, p, item);
            match reader::droppable(v.asked(), v.progress, v.rest()) {
                Some(len) if len <= m => {
                    laws::lemma_droppable(v.asked(), v.progress, v.rest());
                    let x = reader::passed_over(u, k, len);
                    let y = ReaderView { pos: w.pos + len, ..w };
                    lemma_take(w, len, least);
                    lemma_until_end(w, least);
                    assert(x.rest() =~= y.rest());
                    assert(x.pending() =~= y.pending());
                    laws::lemma_alike(x, y);
                    lemma_sound_alike(x, y, least);
                    lemma_wrapping(offset_of(v), have, len);
                    lemma_skips(reader::drained(v).data, reader::drained(w).data, have, len);
                    (x, len)
                },
                _ => (w, 0),
            }
        },
        _ => (v, 0),
    }
}

proof fn lemma_skip_on(v: ReaderView, n: int, least: int)
    requires
        sound(v, least),
        v.pending().len() < n <= laws::until_end(v),
    ensures
        ({
            let (q, e) = reader::skipped(v, n);
            &&& e is None
            &&& q.wf()
            &&& sound(q, least)
            &&& same_stream(v, q, least)
            &&& offset_of(q) == chunk::wrapping(offset_of(v), n)
        }),
        ({
            let (q, _) = reader::skipped(v, n);
            let d = reader::drained(ReaderView { pos: 0, ..q });
            &&& 0 <= q.pos <= n
            &&& d.data == reader::drained(v).data.skip(n - q.pos)
            &&& d.err == reader::drained(v).err
        }),
    decreases v.source.len() - v.at, 0int,
{
    let (x, d) = lemma_skip_next(v, n, least);
    let a = v.pending().len() + d;
    law_skip_moves(x, n - a, least);
    lemma_wrapping(offset_of(v), a, n - a);
    lemma_until_end(x, least);
    let q = reader::skipped(x, n - a).0;
    lemma_skips(reader::drained(v).data, reader::drained(x).data, a, n - a - q.pos);
}

proof fn lemma_skips(all: Seq<u8>, rest: Seq<u8>, a: int, c: int)
    requires
        0 <= a <= all.len(),
        rest == all.skip(a),
        0 <= c <= rest.len(),
    ensures
        rest.skip(c) == all.skip(a + c),
{
    assert(rest.skip(c) =~= all.skip(a + c));
}

/// What is read behind the next chunk.
proof fn lemma_drained_step(v: ReaderView, k: int, p: Progress, item: ItemView)
    requires
        v.wf(),
        reader::step(v.asked(), v.progress, v.rest()) == Step::Passed(k, p, item),
    ensures
        ({
            let w = reader::moved(v.emptied(), k, p, item);
            &&& reader::drained(w).data == reader::drained(v).data.skip(v.pending().len() as int)
            &&& reader::drained(w).err == reader::drained(v).err
            &&& v.pending().len() <= reader::drained(v).data.len()
        }),
{
    reveal(reader::drained);
    let w = reader::moved(v.emptied(), k, p, item);
    assert(reader::drained(v).data.skip(v.pending().len() as int) =~= reader::drained(w).data);
}

/// Skipping more than the stream has before its end is an error that stays. The reader
/// then stands behind the end.
pub proof fn law_skip_past_end_moves(v: ReaderView, n: int, least: int)
    requires
        sound(v, least),
        n > laws::until_end(v),
    ensures
        ({
            let (q, e) = reader::skipped(v, n);
            &&& e == Some(Error::UnexpectedEof)
            &&& q.err == Some(Error::UnexpectedEof)
            &&& q.wf()
            &&& q.source == v.source
            &&& q.options == v.options
            &&& q.answers == v.answers
            &&& q.pos == q.block.len()
            &&& !q.progress.header_read
            &&& offset_of(q) == chunk::wrapping(offset_of(v), laws::until_end(v) as int)
        }),
    decreases v.source.len() - v.at,
{
    let have = v.pending().len() as int;
    if reader::step(v.asked(), v.progress, v.rest()) matches Step::Passed(_, _, ItemView::End) {
        lemma_skip_to_end(v, n, least);
    } else {
        let (x, d) = lemma_skip_next(v, n, least);
        law_skip_past_end_moves(x, n - have - d, least);
        lemma_wrapping(offset_of(v), have + d, laws::until_end(x) as int);
    }
}

proof fn lemma_skip_to_end(v: ReaderView, n: int, least: int)
    requires
        sound(v, least),
        n > v.pending().len(),
        reader::step(v.asked(), v.progress, v.rest()) matches Step::Passed(_, _, ItemView::End),
    ensures
        ({
            let (q, e) = reader::skipped(v, n);
            &&& e == Some(Error::UnexpectedEof)
            &&& q.err == Some(Error::UnexpectedEof)
            &&& q.wf()
            &&& q.source == v.source
            &&& q.options == v.options
            &&& q.answers == v.answers
            &&& q.pos == q.block.len()
            &&& !q.progress.header_read
            &&& offset_of(q) == chunk::wrapping(offset_of(v), v.pending().len() as int)
        }),
{
    reveal(sound);
    let have = v.pending().len() as int;
    lemma_take(v, have, least);
    assert(v.emptied() =~= ReaderView { pos: v.pos + have, ..v });
    reader::lemma_step(v);
    lemma_progress(v);
    assert(reader::droppable(v.asked(), v.progress, v.rest()) is None) by {
        reveal(reader::step);
        reveal(reader::droppable);
    }
}

/// Behind the end of a stream, `tail` is nothing but chunks without a meaning.
pub open spec fn ends_quietly(o: OptionsView, tail: Seq<u8>) -> bool {
    forall|p: Progress| !p.expect_eof ==> #[trigger] quiet(o, p, tail)
}

/// What stands behind the end of a closed stream.
pub open spec fn behind_end(w: OutputView, c: Closing) -> Seq<u8> {
    output::padding_chunk(
        output::padding_len(c.padding, (w.ended().len() + w.appended(c).len()) as int),
    ) + w.appended(c)
}

/// A chunk without a meaning leaves it quiet.
proof fn lemma_quiet_chunk(o: OptionsView, p: Progress, kind: u8, b: Seq<u8>, tail: Seq<u8>)
    requires
        kind == CHUNK_TYPE_PADDING || kind == index::CHUNK_TYPE_INDEX,
        b.len() < 0x100_0000,
        quiet(o, p, tail),
    ensures
        quiet(o, p, layout::chunk_header(kind, b.len() as int) + b + tail),
{
    let s = layout::chunk_header(kind, b.len() as int) + b + tail;
    roundtrip::lemma_skipped_step(o, p, kind, b, tail);
    assert(s.skip(4 + b.len() as int) =~= tail);
}

/// What stands behind the end of a closed stream is without a meaning.
pub proof fn lemma_ends_quietly(o: OptionsView, w: OutputView, c: Closing)
    requires
        w.wf(),
        c.wf(),
        c.append_index ==> c.build_index,
    ensures
        ends_quietly(o, behind_end(w, c)),
{
    let tail = w.appended(c);
    let n = output::padding_len(c.padding, (w.ended().len() + tail.len()) as int);
    output::law_padding(c.padding, (w.ended().len() + tail.len()) as int);
    let pad = output::padding_chunk(n);
    assert forall|p: Progress| !p.expect_eof implies #[trigger] quiet(o, p, pad + tail) by {
        assert(quiet(o, p, Seq::empty())) by {
            reveal(reader::step);
        }
        if c.append_index {
            roundtrip::lemma_index_chunk(w, c);
            let b = tail.skip(4);
            lemma_quiet_chunk(o, p, index::CHUNK_TYPE_INDEX, b, Seq::empty());
            assert(layout::chunk_header(index::CHUNK_TYPE_INDEX, b.len() as int) + b + Seq::<
                u8,
            >::empty() =~= tail);
        }
        if n == 0 {
            assert(pad + tail =~= tail);
        } else {
            let zeros = Seq::new((n - 4) as nat, |i: int| 0u8);
            lemma_quiet_chunk(o, p, CHUNK_TYPE_PADDING, zeros, tail);
        }
    }
}

/// Where nothing follows that has a meaning, reading to the end only moves the reader on
/// in its source.
proof fn lemma_quiet(v: ReaderView)
    requires
        v.wf(),
        v.pos == v.block.len(),
        quiet(v.asked(), v.progress, v.rest()),
    ensures
        ({
            let d = reader::drained(v);
            &&& d.data == Seq::<u8>::empty()
            &&& d.err is None
            &&& d.reader == v.at_end()
        }),
    decreases v.source.len() - v.at,
{
    reveal(reader::drained);
    reader::lemma_step(v);
    assert(v.emptied() =~= v);
    assert(v.pending() =~= Seq::<u8>::empty());
    if let Step::Passed(n, p, item) = reader::step(v.asked(), v.progress, v.rest()) {
        let w = reader::moved(v, n, p, item);
        assert(w.rest() =~= v.rest().skip(n));
        lemma_quiet(w);
        assert(v.pending() + reader::drained(w).data =~= reader::drained(w).data);
        assert(w.at_end() =~= v.at_end());
    }
}

/// Reading to the end gives all that comes before the end of the stream, without an
/// error. The reader then stands behind the end.
pub proof fn law_read_to_end_moves(v: ReaderView, least: int)
    requires
        sound(v, least),
    ensures
        ({
            let d = reader::drained(v);
            let q = d.reader;
            &&& d.err is None
            &&& d.data.len() == laws::until_end(v)
            &&& q.wf()
            &&& q.source == v.source
            &&& q.options == v.options
            &&& q.answers == v.answers
            &&& q.err == v.err
            &&& q.pos == q.block.len()
            &&& !q.progress.header_read
            &&& offset_of(q) == chunk::wrapping(offset_of(v), laws::until_end(v) as int)
        }),
    decreases v.source.len() - v.at,
{
    reveal(sound);
    reveal(reader::drained);
    let have = v.pending().len() as int;
    let u = v.emptied();
    lemma_take(v, have, least);
    assert(u =~= ReaderView { pos: v.pos + have, ..v });
    reader::lemma_step(v);
    lemma_progress(v);
    if let Step::Passed(n, p, item) = reader::step(v.asked(), v.progress, v.rest()) {
        let w = reader::moved(u, n, p, item);
        assert(w.rest() =~= v.rest().skip(n));
        if item is End {
            lemma_quiet(w);
        } else {
            law_read_to_end_moves(w, least);
        }
        lemma_wrapping(offset_of(v), have, laws::until_end(v) - have);
    }
}

/// Reading to the end of a stream without data brings up no block.
pub proof fn lemma_no_data(v: ReaderView, least: int)
    requires
        sound(v, least),
        laws::until_end(v) == 0,
        v.block.len() == 0,
        v.block_start == 0,
    ensures
        reader::filled(v) == (reader::drained(v).reader, Ok::<bool, Error>(false)),
        reader::drained(v).reader.block.len() == 0,
        reader::drained(v).reader.block_start == 0,
    decreases v.source.len() - v.at,
{
    reveal(sound);
    reveal(reader::drained);
    reader::lemma_step(v);
    lemma_progress(v);
    assert(v.emptied() =~= v);
    law_read_to_end_moves(v, least);
    reader::lemma_drained_filled(v);
    let (u, f) = reader::filled(v);
    if f == Ok::<bool, Error>(true) {
        reader::lemma_drained_take(u, 0);
    }
    if let Step::Passed(n, p, item) = reader::step(v.asked(), v.progress, v.rest()) {
        let w = reader::moved(v, n, p, item);
        assert(w.rest() =~= v.rest().skip(n));
        if item is End {
            lemma_quiet(w);
        } else {
            laws::lemma_until_end_take(w, w.pending().len() as int);
            assert(w.pending().len() <= laws::until_end(w));
            lemma_no_data(w, least);
        }
    }
}

/// Frames with the end of the stream behind them are sound.
pub proof fn lemma_frames_sound(v: ReaderView, fs: Seq<Frame>, tail: Seq<u8>, least: int)
    requires
        v.wf(),
        v.progress.header_read,
        v.rest() == output::bytes_of(fs) + (output::end_chunk(
            chunk::wrapping(v.progress.total, output::data_of(fs).len() as int),
        ) + tail),
        ends_quietly(v.options.answering(Ok(())), tail),
        chunk::accepting(v.answers),
        forall|i: int|
            0 <= i < fs.len() ==> (#[trigger] fs[i]).wf(v.progress.max_block as int)
                && roundtrip::accepts(v.options, fs[i]),
    ensures
        sound(v, least),
    decreases fs.len(),
{
    reveal(sound);
    reader::lemma_step(v);
    let end = output::end_chunk(
        chunk::wrapping(v.progress.total, output::data_of(fs).len() as int),
    );
    if fs.len() == 0 {
        assert(v.rest() =~= output::end_chunk(v.progress.total) + tail);
        roundtrip::lemma_end_step(v.asked(), v.progress, v.progress.total, tail);
        let n = output::end_chunk(v.progress.total).len() as int;
        assert(v.rest().skip(n) =~= tail);
    } else {
        let f = fs[0];
        let more = fs.skip(1);
        let n = f.bytes().len() as int;
        roundtrip::lemma_frames_first(fs);
        let rest = output::bytes_of(more) + (end + tail);
        assert(v.rest() =~= f.bytes() + rest);
        assert(f.wf(v.progress.max_block as int) && roundtrip::accepts(v.options, f));
        match f {
            Frame::Block(d, c) => {
                roundtrip::lemma_block_step(v.asked(), v.progress, d, c, rest);
            },
            Frame::User(id, b) => {
                roundtrip::lemma_user_step(v.asked(), v.progress, id, b, rest);
            },
        }
        lemma_progress(v);
        if let Step::Passed(k, p, item) = reader::step(v.asked(), v.progress, v.rest()) {
            let x = reader::moved(v.emptied(), k, p, item);
            assert(x.rest() =~= v.rest().skip(n));
            assert(x.rest() =~= rest);
            assert forall|i: int| 0 <= i < more.len() implies (#[trigger] more[i]).wf(
                x.progress.max_block as int,
            ) && roundtrip::accepts(v.options, more[i]) by {
                assert(more[i] == fs[i + 1]);
            }
            lemma_wrapping(
                v.progress.total,
                f.data().len() as int,
                output::data_of(more).len() as int,
            );
            lemma_frames_sound(x, more, tail, least);
        }
    }
}

/// A new reader of a closed stream finds it sound.
pub proof fn law_closed_stream_sound(o: OptionsView, w: OutputView, c: Closing)
    requires
        w.wf(),
        w.started,
        c.wf(),
        c.append_index ==> c.build_index,
        roundtrip::readable(o, w),
    ensures
        sound(reader::fresh(o, w.closed(c)), w.block_size as int),
{
    reveal(sound);
    let v = reader::fresh(o, w.closed(c));
    let fs = w.frames;
    let end = output::end_chunk(w.total());
    let tail = behind_end(w, c);
    lemma_ends_quietly(o.answering(Ok(())), w, c);
    let more = output::bytes_of(fs) + (end + tail);
    assert(v.rest() =~= w.header() + more);
    roundtrip::lemma_start_step(v.asked(), v.progress, w.block_size, more);
    reader::lemma_step(v);
    let p = roundtrip::begun(w.block_size);
    let x = reader::moved(v.emptied(), 10, p, ItemView::Start);
    assert(x.rest() =~= v.rest().skip(10));
    assert(x.rest() =~= more);
    assert forall|i: int| 0 <= i < fs.len() implies (#[trigger] fs[i]).wf(p.max_block as int)
        && roundtrip::accepts(o, fs[i]) by {
        assert(fs[i].wf(w.block_size as int));
    }
    lemma_frames_sound(x, fs, tail, w.block_size as int);
}

/// What reading `k` bytes of a stream that holds `data` and then skipping `n` gives:
/// the offset is how much was read and skipped, and the rest of the data follows; a skip
/// past the end is an error that stays.
pub open spec fn reads_and_skips(v: ReaderView, data: Seq<u8>, k: int, n: int) -> bool {
    let t = reader::taken(v, k);
    let (q, e) = reader::skipped(t, n);
    &&& t.wf()
    &&& t.err is None
    &&& offset_of(t) == chunk::wrapping(0, k)
    &&& reader::drained(t).data == data.skip(k)
    &&& n == 0 ==> q == t
    &&& k + n <= data.len() ==> {
        &&& e is None
        &&& q.err is None
        &&& offset_of(q) == chunk::wrapping(0, k + n)
        &&& reader::drained(q).data == data.skip(k + n)
        &&& reader::drained(q).err is None
    }
    &&& k + n > data.len() ==> {
        &&& e == Some(Error::UnexpectedEof)
        &&& q.err == Some(Error::UnexpectedEof)
    }
}

/// After `k` bytes of a closed stream were read, a skip by `n` goes on to the data from
/// `k + n` on; where there is not so much, it is an error that stays.
pub proof fn law_read_then_skip(o: OptionsView, w: OutputView, c: Closing, k: int, n: int)
    requires
        w.wf(),
        w.started,
        c.wf(),
        c.append_index ==> c.build_index,
        roundtrip::readable(o, w),
        0 <= k <= output::data_of(w.frames).len(),
        0 <= n,
    ensures
        reads_and_skips(reader::fresh(o, w.closed(c)), output::data_of(w.frames), k, n),
{
    let v = reader::fresh(o, w.closed(c));
    let least = w.block_size as int;
    let data = output::data_of(w.frames);
    roundtrip::law_reader_inverts_output(w, c, o);
    law_closed_stream_sound(o, w, c);
    law_read_moves(v, k, least);
    let t = reader::taken(v, k);
    if k + n <= data.len() {
        law_skip_moves(t, n, least);
        laws::law_skip_then_read(t, n);
        lemma_wrapping(0, k, n);
        assert(data.skip(k).skip(n) =~= data.skip(k + n));
    } else {
        law_skip_past_end_moves(t, n, least);
    }
}

/// After `k` bytes of the stream of a writer that was finished without an error were
/// read, a skip by `n` goes on to what was written from `k + n` on; where there is not
/// so much, it is an error that stays.
pub proof fn law_read_then_skip_written(v: WriterView, sink: Seq<u8>, o: OptionsView, k: int, n: int)
    requires
        v.wf(),
        v.out.before == Seq::<u8>::empty(),
        writer::finishes_to(v, sink, None),
        roundtrip::readable(o, v.out),
        0 <= k <= v.data().len(),
        0 <= n,
    ensures
        reads_and_skips(reader::fresh(o, sink), v.data(), k, n),
{
    let build = v.options.append_index;
    let c = v.options.closing(build);
    let ib = choose|ib: Seq<u8>| #[trigger] writer::closes_to(v, build, sink, ib, None);
    let w = choose|w: OutputView| #[trigger] writer::closed_from(v, w, build, sink, ib, None);
    roundtrip::lemma_finished_output(v, w, o);
    assert(w.before + w.closed(c) =~= w.closed(c));
    law_read_then_skip(o, w, c, k, n);
}

/// Behind what has no meaning the source ends.
proof fn lemma_quiet_ends(o: OptionsView, p: Progress, s: Seq<u8>)
    requires
        quiet(o, p, s),
    ensures
        reader::step(o, p, Seq::empty()) is Ended,
    decreases s.len(),
{
    match reader::step(o, p, s) {
        Step::Ended => {
            reveal(reader::step);
        },
        Step::Passed(n, _, _) => {
            lemma_quiet_ends(o, p, s.skip(n));
        },
        _ => {},
    }
}

/// A reader that has no data before it, and all of its block handed out, reads on to the
/// end of the source. It stands at the same offset then.
proof fn lemma_to_end(v: ReaderView, least: int)
    requires
        sound(v, least),
        laws::until_end(v) == 0,
        v.pos == v.block.len(),
        v.block_start + v.block.len() <= u64::MAX,
    ensures
        ({
            let q = reader::drained(v).reader;
            &&& reader::filled(v) == (q, Ok::<bool, Error>(false))
            &&& q.wf()
            &&& q.err == v.err
            &&& q.pos == q.block.len()
            &&& q.block_start + q.block.len() == v.block_start + v.block.len()
            &&& reader::step(q.asked(), q.progress, q.rest()) is Ended
        }),
    decreases v.source.len() - v.at,
{
    reveal(sound);
    reveal(reader::drained);
    reader::lemma_step(v);
    lemma_progress(v);
    assert(v.emptied() =~= v);
    law_read_to_end_moves(v, least);
    reader::lemma_drained_filled(v);
    let (u, f) = reader::filled(v);
    if f == Ok::<bool, Error>(true) {
        reader::lemma_drained_take(u, 0);
    }
    if let Step::Passed(n, p, item) = reader::step(v.asked(), v.progress, v.rest()) {
        let w = reader::moved(v, n, p, item);
        assert(w.rest() =~= v.rest().skip(n));
        if item is End {
            lemma_quiet(w);
            lemma_quiet_ends(w.asked(), w.progress, w.rest());
            assert(w.at_end().rest() =~= Seq::<u8>::empty());
        } else {
            laws::lemma_until_end_take(w, w.pending().len() as int);
            assert(w.pending().len() <= laws::until_end(w));
            lemma_to_end(w, least);
        }
    }
}

/// A call that moves a reader on.
pub enum Move {
    /// A read into a buffer of these bytes, which then holds those; so many bytes were
    /// read.
    Read(Seq<u8>, Seq<u8>, usize),
    /// A skip by so many bytes.
    Skip(u64),
}

impl Move {
    /// How many bytes it moves the reader on.
    pub open spec fn length(self) -> int {
        match self {
            Move::Read(_, _, n) => n as int,
            Move::Skip(n) => n as int,
        }
    }
}

/// The call succeeded, and the reader `v` is then `w`.
pub open spec fn moved_by(v: ReaderView, m: Move, w: ReaderView) -> bool {
    match m {
        Move::Read(p, q, n) => reader::read_some(v, p, w, q, Ok::<usize, Error>(n)),
        Move::Skip(n) => v.err is None && reader::skipped(v, n as int) == (w, None::<Error>),
    }
}

/// How many bytes the calls move a reader on, all together.
pub open spec fn length_of(ms: Seq<Move>) -> int
    decreases ms.len(),
{
    if ms.len() == 0 {
        0
    } else {
        length_of(ms.drop_last()) + ms.last().length()
    }
}

/// The reader stands at `offset`, with `left` bytes before the end of its stream, or at the
/// end of its source.
spec fn stands(v: ReaderView, offset: int, left: int, least: int) -> bool {
    &&& v.wf()
    &&& v.err is None
    &&& v.block_start + v.pos == offset
    &&& 0 <= left
    &&& offset + left <= u64::MAX
    &&& v.block_start + v.block.len() <= u64::MAX
    &&& if sound(v, least) {
        laws::until_end(v) == left
    } else {
        &&& left == 0
        &&& v.pos == v.block.len()
        &&& reader::step(v.asked(), v.progress, v.rest()) is Ended
    }
}

/// What is pending comes before the end.
proof fn lemma_pending_left(v: ReaderView)
    requires
        v.wf(),
    ensures
        v.pending().len() <= laws::until_end(v),
{
    laws::lemma_until_end_take(v, v.pending().len() as int);
}

/// Where a read leads.
proof fn lemma_stands_read(
    v: ReaderView,
    p: Seq<u8>,
    w: ReaderView,
    q: Seq<u8>,
    n: usize,
    offset: int,
    left: int,
    least: int,
)
    requires
        stands(v, offset, left, least),
        p.len() <= usize::MAX,
        reader::read_some(v, p, w, q, Ok::<usize, Error>(n)),
    ensures
        stands(w, offset + n, left - n, least),
{
    if p.len() > 0 {
        let (u, f) = reader::filled(v);
        reader::lemma_drained_filled(v);
        reader::lemma_filled_moves(v);
        if !sound(v, least) {
            assert(v.at_end() =~= v) by {
                reveal(reader::step);
            }
        } else if laws::until_end(v) == 0 {
            lemma_pending_left(v);
            lemma_to_end(v, least);
            let e = u;
            if sound(e, least) {
                reveal(sound);
            }
        } else {
            lemma_filled_here(v, least);
            if v.pos == v.block.len() {
                lemma_filled(v, least);
            }
            lemma_pending_left(u);
            lemma_take(u, n as int, least);
        }
    }
}

/// Where a skip leads that goes on behind the current block.
proof fn lemma_stands_far(v: ReaderView, w: ReaderView, n: u64, offset: int, left: int, least: int)
    requires
        stands(v, offset, left, least),
        sound(v, least),
        v.pending().len() < n <= left,
        reader::skipped(v, n as int) == (w, None::<Error>),
    ensures
        stands(w, offset + n, left - n, least),
{
    lemma_skip_on(v, n as int, least);
    laws::law_skip_then_read(v, n as int);
    law_read_to_end_moves(v, least);
    law_read_to_end_moves(w, least);
    lemma_pending_left(w);
    assert(offset_of(v) == offset);
    assert(offset_of(w) == offset + n);
    assert(w.block_start + w.pos == offset + n);
}

/// At the end of the source there is nothing to be skipped.
proof fn lemma_skip_at_end(v: ReaderView, n: int)
    requires
        v.wf(),
        v.pos == v.block.len(),
        n > 0,
        reader::step(v.asked(), v.progress, v.rest()) is Ended,
    ensures
        reader::skipped(v, n).1 is Some,
{
    reveal(reader::step);
    reveal(reader::droppable);
}

/// Where a skip leads.
proof fn lemma_stands_skip(v: ReaderView, w: ReaderView, n: u64, offset: int, left: int, least: int)
    requires
        stands(v, offset, left, least),
        reader::skipped(v, n as int) == (w, None::<Error>),
    ensures
        stands(w, offset + n, left - n, least),
{
    if n == 0 {
        assert(w == v);
    } else if !sound(v, least) {
        lemma_skip_at_end(v, n as int);
    } else if n > left {
        law_skip_past_end_moves(v, n as int, least);
    } else if n <= v.pending().len() {
        lemma_pending_left(v);
        lemma_take(v, n as int, least);
    } else {
        lemma_stands_far(v, w, n, offset, left, least);
    }
}

/// A new reader of a closed stream, whose callbacks accept, that was moved on by any reads
/// and skips, in any order, stands at the sum of their lengths, and its block starts no
/// later.
pub proof fn law_offset_is_sum(
    o: OptionsView,
    w: OutputView,
    c: Closing,
    a: Seq<Answer>,
    ms: Seq<Move>,
    vs: Seq<ReaderView>,
)
    requires
        w.wf(),
        w.started,
        c.wf(),
        c.append_index ==> c.build_index,
        roundtrip::readable(o, w),
        output::data_of(w.frames).len() <= u64::MAX,
        vs.len() == ms.len() + 1,
        chunk::accepting(a),
        vs[0] == reader::fresh(o, w.closed(c)).told(a),
        forall|i: int| 0 <= i < ms.len() ==> moved_by(vs[i], #[trigger] ms[i], vs[i + 1]),
        forall|i: int|
            0 <= i < ms.len() ==> ((#[trigger] ms[i]) matches Move::Read(p, _, _) ==> p.len()
                <= usize::MAX),
    ensures
        offset_of(vs.last()) == length_of(ms),
        vs.last().block_start <= offset_of(vs.last()),
        length_of(ms) <= output::data_of(w.frames).len(),
{
    let least = w.block_size as int;
    law_closed_stream_sound(o, w, c);
    roundtrip::law_reader_inverts_output(w, c, o);
    let v = reader::fresh(o, w.closed(c));
    laws::law_accepted(v, a);
    lemma_sound_alike(v, v.told(a), least);
    let left = output::data_of(w.frames).len() as int;
    assert(stands(vs[0], 0, left, least));
    lemma_stands_all(ms, vs, left, least);
}

proof fn lemma_stands_all(ms: Seq<Move>, vs: Seq<ReaderView>, left: int, least: int)
    requires
        vs.len() == ms.len() + 1,
        stands(vs[0], 0, left, least),
        forall|i: int| 0 <= i < ms.len() ==> moved_by(vs[i], #[trigger] ms[i], vs[i + 1]),
        forall|i: int|
            0 <= i < ms.len() ==> ((#[trigger] ms[i]) matches Move::Read(p, _, _) ==> p.len()
                <= usize::MAX),
    ensures
        stands(vs.last(), length_of(ms), left - length_of(ms), least),
    decreases ms.len(),
{
    if ms.len() > 0 {
        let n = ms.len() - 1;
        let before = ms.drop_last();
        let us = vs.drop_last();
        assert forall|i: int| 0 <= i < before.len() implies moved_by(
            us[i],
            #[trigger] before[i],
            us[i + 1],
        ) && (before[i] matches Move::Read(p, _, _) ==> p.len() <= usize::MAX) by {
            assert(before[i] == ms[i]);
            assert(moved_by(vs[i], ms[i], vs[i + 1]));
        }
        lemma_stands_all(before, us, left, least);
        let v = vs[n];
        let m = ms[n];
        assert(us.last() == v);
        assert(moved_by(vs[n], m, vs[n + 1]));
        let at = length_of(before);
        match m {
            Move::Read(p, q, k) => {
                lemma_stands_read(v, p, vs[n + 1], q, k, at, left - at, least);
            },
            Move::Skip(k) => {
                lemma_stands_skip(v, vs[n + 1], k, at, left - at, least);
            },
        }
    }
}

} // verus!
