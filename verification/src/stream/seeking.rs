//! Where seeks lead in a closed stream, from wherever a reader stands in it.
use crate::index;
use crate::index::OffsetPair;
use crate::error::ErrorKind;
use crate::stream::chunk;
use crate::stream::chunk::{Answer, OptionsView};
use crate::stream::error::Error;
use crate::stream::laws;
use crate::stream::output;
use crate::stream::output::{Closing, Frame, OutputView};
use crate::stream::positions;
use crate::stream::positions::offset_of;
use crate::stream::random_access;
use crate::stream::random_access::{final_index, moderate};
use crate::stream::reader;
use crate::stream::reader::ReaderView;
use crate::stream::roundtrip;
use crate::stream::seek;
use crate::stream::seek::SeekFrom;
use vstd::prelude::*;

verus! {

/// The reader stands in a closed stream: before its start was seen or behind its end,
/// or in its data, where the current block is what the stream holds there.
pub open spec fn placed(v: ReaderView, w: OutputView, c: Closing) -> bool {
    &&& v.wf()
    &&& w.wf()
    &&& w.started
    &&& c.wf()
    &&& c.append_index ==> c.build_index
    &&& v.source == w.closed(c)
    &&& roundtrip::readable(v.options, w)
    &&& chunk::accepting(v.answers)
    &&& moderate(w)
    &&& offset_of(v) <= output::data_of(w.frames).len()
    &&& v.progress.header_read ==> in_data(v, w, c)
    &&& !v.progress.header_read ==> v.pos == v.block.len()
}

/// The reader stands in the data of a closed stream.
pub open spec fn in_data(v: ReaderView, w: OutputView, c: Closing) -> bool {
    &&& random_access::within(v, w, c)
    &&& random_access::on_track(v, w)
    &&& positions::sound(v, w.block_size as int)
}

/// The reader stands before the start of its stream.
pub open spec fn before_start(v: ReaderView) -> bool {
    &&& v.at == 0
    &&& v.block.len() == 0
    &&& v.block_start == 0
}

/// The offset that a seek means.
pub open spec fn meant(v: ReaderView, w: OutputView, pos: SeekFrom) -> int {
    match pos {
        SeekFrom::Start(o) => o as int,
        SeekFrom::Current(d) => offset_of(v) + d,
        SeekFrom::End(d) => output::data_of(w.frames).len() + d,
    }
}

/// A new reader of a closed stream stands in it.
pub proof fn law_new_reader_placed(o: OptionsView, w: OutputView, c: Closing)
    requires
        w.wf(),
        w.started,
        c.wf(),
        c.append_index ==> c.build_index,
        roundtrip::readable(o, w),
        moderate(w),
    ensures
        placed(reader::fresh(o, w.closed(c)), w, c),
{
    let v = reader::fresh(o, w.closed(c));
    if v.progress.header_read {
        roundtrip::lemma_block_size(w.block_size);
        roundtrip::law_reader_inverts_output(w, c, o);
        positions::law_closed_stream_sound(o, w, c);
        assert(ReaderView { pos: 0, ..v } =~= v);
        let data = output::data_of(w.frames);
        assert(data.skip(0) =~= data);
    }
}

/// A reader that stands in a closed stream stands in it whatever callbacks are known to
/// have answered, as long as they accept.
pub proof fn law_answers_keep_place(v: ReaderView, w: OutputView, c: Closing, a: Seq<Answer>)
    requires
        placed(v, w, c),
        chunk::accepting(a),
    ensures
        placed(v.told(a), w, c),
{
    let u = v.told(a);
    assert(u.rest() == v.rest());
    if v.progress.header_read {
        let v0 = ReaderView { pos: 0, ..v };
        assert(ReaderView { pos: 0, ..u } =~= v0.told(a));
        laws::law_accepted(v, a);
        laws::law_accepted(v0, a);
        positions::lemma_sound_alike(v, u, w.block_size as int);
    }
}

/// A reader at the place before frame `k` finds the stream sound.
proof fn lemma_sound_at(x: ReaderView, w: OutputView, c: Closing, k: int)
    requires
        random_access::within(x, w, c),
        0 <= k <= w.frames.len(),
        x.at == 10 + output::bytes_of(w.frames.take(k)).len(),
        x.progress.total == output::data_of(w.frames.take(k)).len(),
    ensures
        positions::sound(x, w.block_size as int),
{
    let fs = w.frames;
    let a = fs.take(k);
    let b = fs.skip(k);
    assert(fs =~= a + b);
    roundtrip::lemma_frames_concat(a, b);
    let end = output::end_chunk(w.total());
    let tail = positions::behind_end(w, c);
    positions::lemma_ends_quietly(x.options.answering(Ok(())), w, c);
    assert(w.header().len() == 10);
    assert(x.source =~= w.header() + output::bytes_of(a) + (output::bytes_of(b) + (end + tail)));
    assert(x.rest() =~= output::bytes_of(b) + (end + tail));
    assert forall|i: int| 0 <= i < b.len() implies (#[trigger] b[i]).wf(
        x.progress.max_block as int,
    ) && roundtrip::accepts(x.options, b[i]) by {
        assert(b[i] == fs[k + i]);
        assert(fs[k + i].wf(w.block_size as int));
    }
    assert(chunk::wrapping(x.progress.total, output::data_of(b).len() as int) == w.total());
    positions::lemma_frames_sound(x, b, tail, w.block_size as int);
}

/// A reader before the start of a closed stream finds it sound. What it reads is what
/// it reads behind the start.
proof fn lemma_sound_start(x: ReaderView, w: OutputView, c: Closing) -> (y: ReaderView)
    requires
        x.wf(),
        w.wf(),
        w.started,
        c.wf(),
        c.append_index ==> c.build_index,
        x.source == w.closed(c),
        roundtrip::readable(x.options, w),
        chunk::accepting(x.answers),
        moderate(w),
        before_start(x),
    ensures
        positions::sound(x, w.block_size as int),
        in_data(y, w, c),
        y.pos == y.block.len(),
        y.block.len() == 0,
        y.block_start == 0,
        y.err == x.err,
        y.answers == x.answers,
        reader::filled(x) == reader::filled(y),
        reader::drained(x).data == reader::drained(y).data,
        reader::drained(x).err == reader::drained(y).err,
        reader::drained(x).reader == reader::drained(y).reader,
        laws::until_end(x) == output::data_of(w.frames).len(),
        laws::until_end(y) == output::data_of(w.frames).len(),
{
    let data = output::data_of(w.frames);
    assert(x.pending() =~= Seq::<u8>::empty());
    let y = random_access::lemma_read_start(x, w, c);
    assert(w.frames.take(0) =~= Seq::<Frame>::empty());
    assert(random_access::within(y, w, c));
    random_access::lemma_read_from(y, w, c, 0);
    lemma_sound_at(y, w, c, 0);
    assert(data.skip(0) =~= data);
    reader::lemma_step(x);
    assert(x.emptied() =~= x);
    assert(ReaderView { pos: 0, ..y } =~= y);
    reveal(positions::sound);
    y
}

/// A reader that jumps to where an entry stands, or to the start, finds the stream
/// sound.
proof fn lemma_jump_sound(v: ReaderView, w: OutputView, c: Closing, e: OffsetPair)
    requires
        random_access::within(v, w, c),
        random_access::marks(w.frames, e) || e == (OffsetPair { compressed: 0, uncompressed: 0 }),
    ensures
        positions::sound(
            reader::jumped(v, e.compressed as int, e.uncompressed),
            w.block_size as int,
        ),
{
    let x = reader::jumped(v, e.compressed as int, e.uncompressed);
    assert(x.pending() =~= Seq::<u8>::empty());
    if random_access::marks(w.frames, e) {
        let k = choose|k: int|
            0 <= k <= w.frames.len() && #[trigger] random_access::marks_at(w.frames, e, k);
        random_access::lemma_place(w, c, k);
        lemma_sound_at(x, w, c, k);
    } else {
        let y = random_access::lemma_read_start(x, w, c);
        assert(w.frames.take(0) =~= Seq::<Frame>::empty());
        lemma_sound_at(y, w, c, 0);
        reveal(positions::sound);
    }
}

/// A reader that has not seen the start of the stream goes to the data.
proof fn lemma_primed(v: ReaderView, w: OutputView, c: Closing)
    requires
        placed(v, w, c),
        !v.progress.header_read,
        0 < output::data_of(w.frames).len(),
    ensures
        ({
            let (u, e) = seek::primed(v);
            &&& e is None
            &&& in_data(u, w, c)
            &&& u.err == v.err
        }),
{
    let z = ReaderView { at: 0, ..v };
    let data = output::data_of(w.frames);
    assert(z.pending() =~= Seq::<u8>::empty());
    let x = random_access::lemma_read_start(z, w, c);
    assert(w.frames.take(0) =~= Seq::<Frame>::empty());
    assert(random_access::within(x, w, c));
    random_access::lemma_read_from(x, w, c, 0);
    lemma_sound_at(x, w, c, 0);
    assert(data.skip(0) =~= data);
    reader::lemma_step(z);
    assert(z.emptied() =~= z);
    assert(reader::filled(z) == reader::filled(x));
    positions::lemma_filled(x, w.block_size as int);
    reader::lemma_drained_filled(x);
    let u = reader::filled(x).0;
    assert(ReaderView { pos: 0, ..u } =~= u);
}

/// A stream without data has an index without entries.
proof fn lemma_no_entries(block_size: usize, fs: Seq<Frame>)
    requires
        output::data_of(fs).len() == 0,
        forall|i: int| 0 <= i < fs.len() ==> (#[trigger] fs[i]).wf(block_size as int),
    ensures
        output::index_of(block_size, fs).offsets.len() == 0,
    decreases fs.len(),
{
    if fs.len() > 0 {
        let before = fs.drop_last();
        assert(fs.last() == fs[fs.len() - 1]);
        assert(fs.last().wf(block_size as int));
        assert forall|i: int| 0 <= i < before.len() implies (#[trigger] before[i]).wf(
            block_size as int,
        ) by {
            assert(before[i] == fs[i]);
        }
        lemma_no_entries(block_size, before);
    }
}

/// Where the stream holds no data and the start of it was not seen, a seek goes to the
/// start of the source, and on from there.
proof fn lemma_seek_start(v: ReaderView, w: OutputView, c: Closing, offset: u64) -> (x: ReaderView)
    requires
        placed(v, w, c),
        v.err is None,
        !v.progress.header_read,
        output::data_of(w.frames).len() == 0,
    ensures
        ({
            let (u, e) = seek::primed(v);
            &&& e is None
            &&& seek::located(u, final_index(w, c), offset) == reader::skipped(x, offset as int)
            &&& placed(x, w, c)
            &&& before_start(x)
            &&& x.err is None
        }),
{
    let least = w.block_size as int;
    let z = ReaderView { at: 0, ..v };
    assert(z.pending() =~= Seq::<u8>::empty());
    let y = random_access::lemma_read_start(z, w, c);
    assert(w.frames.take(0) =~= Seq::<Frame>::empty());
    assert(random_access::within(y, w, c));
    random_access::lemma_read_from(y, w, c, 0);
    lemma_sound_at(y, w, c, 0);
    reader::lemma_step(z);
    assert(z.emptied() =~= z);
    assert(reader::filled(z) == reader::filled(y));
    positions::lemma_no_data(y, least);
    positions::law_read_to_end_moves(y, least);
    let u = seek::primed(v).0;
    lemma_no_entries(w.block_size, w.frames);
    let x = reader::jumped(u, 0, 0);
    assert(x.block =~= Seq::<u8>::empty());
    x
}

/// The current block of a reader in the data lies in it.
proof fn lemma_block_within(v: ReaderView, w: OutputView, c: Closing)
    requires
        in_data(v, w, c),
    ensures
        v.block_start + v.block.len() <= output::data_of(w.frames).len(),
{
    let v0 = ReaderView { pos: 0, ..v };
    reader::lemma_drained_take(v0, 0);
}

/// The entry of the index before an offset, and the reader there.
proof fn lemma_jump(v: ReaderView, w: OutputView, c: Closing, offset: u64) -> (x: ReaderView)
    requires
        in_data(v, w, c),
        moderate(w),
    ensures
        ({
            let e = index::entry_before(final_index(w, c).offsets, offset as int);
            let data = output::data_of(w.frames);
            &&& x == reader::jumped(v, e.compressed as int, e.uncompressed)
            &&& e.uncompressed <= offset
            &&& e.uncompressed <= data.len()
            &&& positions::sound(x, w.block_size as int)
            &&& laws::until_end(x) == data.len() - e.uncompressed
            &&& reader::drained(x).data == data.skip(e.uncompressed as int)
            &&& reader::drained(x).err is None
        }),
{
    let s = final_index(w, c).offsets;
    let e = index::entry_before(s, offset as int);
    random_access::lemma_final_index(w, c);
    index::law_entry_before(s, offset as int);
    random_access::lemma_entry_cases(s, offset as int);
    if s.contains(e) {
        let i = choose|i: int| 0 <= i < s.len() && s[i] == e;
        assert(random_access::marks(w.frames, s[i]));
    }
    random_access::lemma_jump_reads(v, w, c, e);
    lemma_jump_sound(v, w, c, e);
    reader::jumped(v, e.compressed as int, e.uncompressed)
}

/// A reader in the data goes to an offset in the data.
proof fn lemma_located(v: ReaderView, w: OutputView, c: Closing, offset: u64)
    requires
        placed(v, w, c),
        v.progress.header_read,
        v.err is None,
        offset <= output::data_of(w.frames).len(),
    ensures
        ({
            let (q, e) = seek::located(v, final_index(w, c), offset);
            &&& e is None
            &&& placed(q, w, c)
            &&& q.progress.header_read
            &&& q.err is None
            &&& offset_of(q) == offset
            &&& reader::drained(q).data == output::data_of(w.frames).skip(offset as int)
            &&& reader::drained(q).err is None
        }),
{
    let idx = final_index(w, c);
    let data = output::data_of(w.frames);
    let least = w.block_size as int;
    let (q, _) = seek::located(v, idx, offset);
    random_access::lemma_final_index(w, c);
    random_access::law_seek_reads_from_offset(v, w, c, idx, offset);
    if v.block_start <= offset < v.block_start + v.block.len() {
        assert(ReaderView { pos: 0, ..q } =~= ReaderView { pos: 0, ..v });
        assert(q.rest() =~= v.rest());
        positions::lemma_sound_alike(v, q, least);
    } else {
        let x = lemma_jump(v, w, c, offset);
        let e = index::entry_before(idx.offsets, offset as int);
        let m = offset - e.uncompressed;
        positions::law_skip_moves(x, m, least);
        lemma_on_track(x, q, w, e.uncompressed as int, m, offset);
    }
}

/// A reader that skipped to `offset` is where it should be.
proof fn lemma_on_track(x: ReaderView, q: ReaderView, w: OutputView, a: int, m: int, offset: u64)
    requires
        q.wf(),
        0 <= a <= output::data_of(w.frames).len(),
        a + m == offset,
        offset <= output::data_of(w.frames).len(),
        output::data_of(w.frames).len() < 0x1fff_ffff_ffff_ffff,
        reader::drained(x).data == output::data_of(w.frames).skip(a),
        reader::drained(x).err is None,
        0 <= q.pos <= m,
        offset_of(q) == offset,
        reader::drained(ReaderView { pos: 0, ..q }).data == reader::drained(x).data.skip(m - q.pos),
        reader::drained(ReaderView { pos: 0, ..q }).err == reader::drained(x).err,
    ensures
        random_access::on_track(q, w),
{
    let data = output::data_of(w.frames);
    assert(q.block_start == offset - q.pos);
    assert(data.skip(a).skip(m - q.pos) =~= data.skip(q.block_start as int));
}

/// A reader that stands in a closed stream, by the index of the stream, goes to every
/// offset in the data, however it is given, and reads the data from there on. It then
/// stands in the stream again, so that another seek may follow; so does a reader that
/// could not go past the end before.
pub proof fn law_seek(v: ReaderView, w: OutputView, c: Closing, pos: SeekFrom)
    requires
        placed(v, w, c),
        v.err is None || (v.err->0).kind_of() == ErrorKind::UnexpectedEof,
        0 <= meant(v, w, pos) <= output::data_of(w.frames).len(),
    ensures
        ({
            let (q, r) = seek::sought(v, final_index(w, c), pos);
            &&& r == Ok::<u64, Error>(meant(v, w, pos) as u64)
            &&& placed(q, w, c)
            &&& q.progress.header_read || before_start(q)
            &&& q.err is None
            &&& offset_of(q) == meant(v, w, pos)
            &&& reader::drained(q).data == output::data_of(w.frames).skip(meant(v, w, pos))
            &&& reader::drained(q).err is None
        }),
{
    lemma_target(v, w, c, pos);
    if v.progress.header_read || 0 < output::data_of(w.frames).len() {
        let u = lemma_ready(v, w, c);
        lemma_located(u, w, c, meant(v, w, pos) as u64);
    } else {
        let x = lemma_seek_start(ReaderView { err: None, ..v }, w, c, 0);
        let y = lemma_sound_start(x, w, c);
        lemma_rest(y, w, c);
    }
}

/// What a seek starts from.
proof fn lemma_ready(v: ReaderView, w: OutputView, c: Closing) -> (u: ReaderView)
    requires
        placed(v, w, c),
        v.progress.header_read || 0 < output::data_of(w.frames).len(),
    ensures
        seek::primed(ReaderView { err: None, ..v }) == (u, None::<Error>),
        placed(u, w, c),
        u.progress.header_read,
        u.err is None,
{
    let r = ReaderView { err: None, ..v };
    if v.progress.header_read {
        assert(ReaderView { pos: 0, ..r } =~= ReaderView { err: None, ..ReaderView { pos: 0, ..v } });
        assert(r.rest() =~= v.rest());
        positions::lemma_sound_alike(v, r, w.block_size as int);
        let r0 = ReaderView { pos: 0, ..r };
        let v0 = ReaderView { pos: 0, ..v };
        assert(r0.rest() =~= v0.rest());
        laws::lemma_alike(r0, v0);
        r
    } else {
        lemma_primed(r, w, c);
        let u = seek::primed(r).0;
        lemma_block_within(u, w, c);
        u
    }
}

/// The offset that is meant is the target of the seek.
proof fn lemma_target(v: ReaderView, w: OutputView, c: Closing, pos: SeekFrom)
    requires
        placed(v, w, c),
        0 <= meant(v, w, pos) <= i64::MAX,
    ensures
        seek::target(ReaderView { err: None, ..v }, final_index(w, c), pos) == Ok::<u64, Error>(
            meant(v, w, pos) as u64,
        ),
{
    random_access::lemma_final_index(w, c);
}

/// A seek past the end fails. The reader then stands in the stream, so that another seek
/// may follow.
pub proof fn law_seek_past_end(v: ReaderView, w: OutputView, c: Closing, pos: SeekFrom)
    requires
        placed(v, w, c),
        v.err is None || (v.err->0).kind_of() == ErrorKind::UnexpectedEof,
        output::data_of(w.frames).len() < meant(v, w, pos) <= i64::MAX,
    ensures
        ({
            let (q, r) = seek::sought(v, final_index(w, c), pos);
            &&& r == Err::<u64, Error>(Error::UnexpectedEof)
            &&& placed(q, w, c)
            &&& q.err == Some(Error::UnexpectedEof)
        }),
{
    let offset = meant(v, w, pos) as u64;
    let least = w.block_size as int;
    lemma_target(v, w, c, pos);
    if v.progress.header_read || 0 < output::data_of(w.frames).len() {
        let u = lemma_ready(v, w, c);
        lemma_block_within(u, w, c);
        let x = lemma_jump(u, w, c, offset);
        let e = index::entry_before(final_index(w, c).offsets, offset as int);
        positions::law_skip_past_end_moves(x, offset - e.uncompressed, least);
    } else {
        let x = lemma_seek_start(ReaderView { err: None, ..v }, w, c, offset);
        lemma_sound_start(x, w, c);
        positions::law_skip_past_end_moves(x, offset as int, least);
    }
}

/// A seek to before the start fails, and leaves the reader where it was.
pub proof fn law_seek_before_start(v: ReaderView, w: OutputView, c: Closing, pos: SeekFrom)
    requires
        placed(v, w, c),
        v.err is None || (v.err->0).kind_of() == ErrorKind::UnexpectedEof,
        i64::MIN <= meant(v, w, pos) < 0,
    ensures
        ({
            let (q, r) = seek::sought(v, final_index(w, c), pos);
            &&& r is Err
            &&& (r->Err_0).kind_of() == ErrorKind::InvalidInput
            &&& q == ReaderView { err: None, ..v }
        }),
{
    random_access::lemma_final_index(w, c);
}

/// Reading on in the data leaves the reader in it.
proof fn lemma_read_in_data(v: ReaderView, w: OutputView, c: Closing, k: int)
    requires
        in_data(v, w, c),
        moderate(w),
        0 <= k <= laws::until_end(v),
    ensures
        in_data(reader::taken(v, k), w, c),
    decreases k,
{
    if k > 0 {
        let data = output::data_of(w.frames);
        let least = w.block_size as int;
        let (u, _) = reader::filled(v);
        lemma_block_within(v, w, c);
        if v.pos == v.block.len() {
            positions::lemma_filled(v, least);
            reader::lemma_drained_filled(v);
            let v0 = ReaderView { pos: 0, ..v };
            reader::lemma_drained_take(v0, v.pos);
            assert(ReaderView { pos: v0.pos + v.pos, ..v0 } =~= v);
            assert(data.skip(v.block_start as int).skip(v.pos) =~= data.skip(u.block_start as int));
            assert(ReaderView { pos: 0, ..u } =~= u);
        }
        let have = u.pending().len() as int;
        let m = if have < k {
            have
        } else {
            k
        };
        let x = ReaderView { pos: u.pos + m, ..u };
        assert(ReaderView { pos: 0, ..x } =~= ReaderView { pos: 0, ..u });
        assert(x.rest() =~= u.rest());
        positions::lemma_sound_alike(u, x, least);
        laws::lemma_until_end_take(u, m);
        lemma_read_in_data(x, w, c, k - m);
    }
}

/// Reading on in a closed stream, from its start or from where a seek led, leaves the
/// reader standing in it: a seek may follow.
pub proof fn law_read_keeps_place(v: ReaderView, w: OutputView, c: Closing, k: int)
    requires
        placed(v, w, c),
        v.progress.header_read || before_start(v),
        0 <= k <= laws::until_end(v),
    ensures
        placed(reader::taken(v, k), w, c),
{
    if v.progress.header_read {
        lemma_read_in_data(v, w, c, k);
        positions::law_read_moves(v, k, w.block_size as int);
        lemma_block_within(reader::taken(v, k), w, c);
    } else if k > 0 {
        let x = lemma_sound_start(v, w, c);
        lemma_read_in_data(x, w, c, k);
        positions::law_read_moves(x, k, w.block_size as int);
        assert(reader::taken(v, k) == reader::taken(x, k));
        lemma_block_within(reader::taken(x, k), w, c);
    }
}

/// What is read to the end from where the reader stands in the data.
proof fn lemma_rest(v: ReaderView, w: OutputView, c: Closing)
    requires
        in_data(v, w, c),
        moderate(w),
    ensures
        offset_of(v) == v.block_start + v.pos,
        offset_of(v) <= output::data_of(w.frames).len(),
        reader::drained(v).data == output::data_of(w.frames).skip(offset_of(v) as int),
        reader::drained(v).err is None,
        laws::until_end(v) == output::data_of(w.frames).len() - offset_of(v),
{
    let data = output::data_of(w.frames);
    lemma_block_within(v, w, c);
    let v0 = ReaderView { pos: 0, ..v };
    reader::lemma_drained_take(v0, v.pos);
    assert(ReaderView { pos: v0.pos + v.pos, ..v0 } =~= v);
    assert(data.skip(v.block_start as int).skip(v.pos) =~= data.skip(offset_of(v) as int));
    positions::law_read_to_end_moves(v, w.block_size as int);
}

/// A reader in a closed stream that reads to the end reads the rest of the data. It then stands in the stream, behind its end: a seek may follow.
pub proof fn law_read_to_end_keeps_place(v: ReaderView, w: OutputView, c: Closing)
    requires
        placed(v, w, c),
        v.progress.header_read || before_start(v),
    ensures
        ({
            let d = reader::drained(v);
            &&& d.data == output::data_of(w.frames).skip(offset_of(v) as int)
            &&& d.err is None
            &&& placed(d.reader, w, c)
            &&& offset_of(d.reader) == output::data_of(w.frames).len()
            &&& d.reader.err == v.err
        }),
{
    let least = w.block_size as int;
    if v.progress.header_read {
        lemma_rest(v, w, c);
        positions::law_read_to_end_moves(v, least);
    } else {
        let y = lemma_sound_start(v, w, c);
        lemma_rest(y, w, c);
        positions::law_read_to_end_moves(y, least);
    }
}

/// What a read of `n` bytes at `offset` makes of a reader that stands in a closed stream:
/// it gives the data from there on, as much as there is, and the reader stands behind it.
pub open spec fn reads_at(v: ReaderView, w: OutputView, c: Closing, offset: u64, n: int) -> bool {
    let data = output::data_of(w.frames);
    let (q, r) = seek::sought(v, final_index(w, c), SeekFrom::Start(offset));
    let d = reader::drained(q);
    &&& r == Ok::<u64, Error>(offset)
    &&& d.err is None
    &&& offset + n <= data.len() ==> {
        &&& n <= d.data.len()
        &&& d.data.take(n) == data.subrange(offset as int, offset + n)
        &&& placed(reader::taken(q, n), w, c)
        &&& offset_of(reader::taken(q, n)) == offset + n
    }
    &&& offset + n > data.len() ==> {
        &&& n > d.data.len()
        &&& d.data == data.skip(offset as int)
        &&& placed(d.reader, w, c)
        &&& offset_of(d.reader) == data.len()
    }
}

/// A read at an offset in the data gives the data from there on, as much as there is,
/// from wherever the reader stood before. It then stands behind what was read.
pub proof fn law_read_at(v: ReaderView, w: OutputView, c: Closing, offset: u64, n: int)
    requires
        placed(v, w, c),
        v.err is None || (v.err->0).kind_of() == ErrorKind::UnexpectedEof,
        offset <= output::data_of(w.frames).len(),
        0 <= n,
    ensures
        reads_at(v, w, c, offset, n),
{
    let data = output::data_of(w.frames);
    law_seek(v, w, c, SeekFrom::Start(offset));
    let q = seek::sought(v, final_index(w, c), SeekFrom::Start(offset)).0;
    if q.progress.header_read {
        lemma_rest(q, w, c);
    } else {
        lemma_sound_start(q, w, c);
    }
    if offset + n <= data.len() {
        law_read_keeps_place(q, w, c, n);
        positions::law_read_moves(q, n, w.block_size as int);
        assert(data.skip(offset as int).take(n) =~= data.subrange(offset as int, offset + n));
    } else {
        law_read_to_end_keeps_place(q, w, c);
    }
}

/// A reader of a closed stream, with the index of the stream, goes to every offset in the
/// data and reads the data from there on.
pub proof fn law_random_access(o: OptionsView, w: OutputView, c: Closing, offset: u64)
    requires
        w.wf(),
        w.started,
        c.wf(),
        c.append_index ==> c.build_index,
        roundtrip::readable(o, w),
        moderate(w),
        offset <= output::data_of(w.frames).len(),
    ensures
        ({
            let (v, r) = seek::sought(
                reader::fresh(o, w.closed(c)),
                final_index(w, c),
                SeekFrom::Start(offset),
            );
            &&& r == Ok::<u64, Error>(offset)
            &&& reader::drained(v).data == output::data_of(w.frames).skip(offset as int)
            &&& reader::drained(v).err is None
        }),
{
    law_new_reader_placed(o, w, c);
    law_seek(reader::fresh(o, w.closed(c)), w, c, SeekFrom::Start(offset));
}

} // verus!
