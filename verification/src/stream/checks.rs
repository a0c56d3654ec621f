//! What a stream of any bytes reads as, and what of it is checked.
use crate::block;
use crate::error as block_error;
use crate::stream::chunk;
use crate::stream::chunk::{OptionsView, Progress};
use crate::stream::crc;
use crate::stream::error::Error;
use crate::stream::format as layout;
use crate::stream::laws;
use crate::stream::reader;
use crate::stream::reader::{ReaderView, Step};
use vstd::arithmetic::power2;
use vstd::prelude::*;

verus! {

/// What is known of a stream before one of its chunks.
pub struct Place {
    /// Largest block that may come.
    pub max: int,
    /// Data bytes since the stream began.
    pub total: int,
    /// Whether data may come.
    pub begun: bool,
    /// Whether the stream has to be ended.
    pub open: bool,
}

/// How strict a reader is.
pub struct Care {
    /// Largest block that it accepts.
    pub limit: int,
    /// Whether it compares checksums.
    pub sums: bool,
    /// Whether it compares the size at the end.
    pub sizes: bool,
}

/// The length of the chunk body that the header at the head of `s` gives.
pub open spec fn body_len(s: Seq<u8>) -> int {
    s[1] + 256 * s[2] + 65536 * s[3]
}

/// The number in the first four bytes of a chunk body.
pub open spec fn sum_in(body: Seq<u8>) -> int {
    body[0] + 256 * body[1] + 65536 * body[2] + 0x100_0000 * body[3]
}

/// The data in the body of a data chunk of type `kind`: one that holds it as it is (1), or a
/// compressed one with a checksum of the data (2) or of the compressed bytes behind the
/// length (3).
pub open spec fn data_in(kind: u8, body: Seq<u8>, max: int, sums: bool) -> Option<Seq<u8>> {
    if body.len() < 4 {
        None
    } else if kind == 1 {
        let data = body.skip(4);
        if data.len() <= max && (sums ==> sum_in(body) == crc::masked_crc_of(data)) {
            Some(data)
        } else {
            None
        }
    } else if body.len() > max + 6 {
        None
    } else {
        match (block::chunk_decoded(body.skip(4)), block::format::parse_uvarint(body.skip(4))) {
            (Ok(data), Some((_, k))) => {
                let covered = if kind == 3 {
                    body.skip(4 + k as int)
                } else {
                    data
                };
                if data.len() <= max && (sums ==> sum_in(body) == crc::masked_crc_of(covered)) {
                    Some(data)
                } else {
                    None
                }
            },
            _ => None,
        }
    }
}

/// Whether `body` starts a stream that a reader accepts.
pub open spec fn starts(body: Seq<u8>, limit: int) -> bool {
    &&& body.len() == 6
    &&& body[0] == 0x4d && body[1] == 0x69 && body[2] == 0x6e && body[3] == 0x4c && body[4] == 0x7a
    &&& body[5] < 64
    &&& body[5] % 16 <= 13
    &&& power2::pow2((body[5] % 16 + 10) as nat) <= limit
}

/// Whether `body` ends a stream of `total` bytes of data.
pub open spec fn ends(body: Seq<u8>, total: int, sizes: bool) -> bool {
    ||| body.len() == 0
    ||| body.len() <= 10 && !sizes
    ||| body.len() <= 10 && block::format::parse_uvarint(body) == Some((total as nat, body.len()))
}

/// The data in the chunk at the head of `s`, and the place behind it; nothing where it is
/// damaged or is one that a reader without callbacks must not pass over.
#[verifier::opaque]
pub open spec fn next_chunk(s: Seq<u8>, p: Place, c: Care) -> Option<(Seq<u8>, Place)> {
    let kind = s[0];
    let body = s.subrange(4, 4 + body_len(s));
    if 1 <= kind <= 3 {
        match data_in(kind, body, p.max, c.sums) {
            Some(data) if p.begun => {
                let total = (p.total + data.len()) % 0x1_0000_0000_0000_0000;
                Some((data, Place { total, ..p }))
            },
            _ => None,
        }
    } else if kind == 0x20 {
        if ends(body, p.total, c.sizes) {
            Some((Seq::empty(), Place { begun: false, open: false, ..p }))
        } else {
            None
        }
    } else if kind == 0xff {
        if starts(body, c.limit) {
            let max = power2::pow2((body[5] % 16 + 10) as nat) as int;
            Some((Seq::empty(), Place { max, total: 0, begun: true, open: true }))
        } else {
            None
        }
    } else if kind < 0x40 || 0xc0 <= kind <= 0xfd {
        None
    } else {
        Some((Seq::empty(), p))
    }
}

/// The data in `s`, from `p` on; nothing where `s` is damaged or holds what a reader without
/// callbacks must not pass over.
pub open spec fn content(s: Seq<u8>, p: Place, c: Care) -> Option<Seq<u8>>
    decreases s.len(),
{
    if s.len() == 0 {
        if p.open {
            None
        } else {
            Some(Seq::empty())
        }
    } else if s.len() < 4 || s.len() < 4 + body_len(s) {
        None
    } else {
        match next_chunk(s, p, c) {
            None => None,
            Some((data, q)) => match content(s.skip(4 + body_len(s)), q, c) {
                None => None,
                Some(more) => Some(data + more),
            },
        }
    }
}

/// The place of a reader.
pub open spec fn place(p: Progress) -> Place {
    Place {
        max: p.max_block as int,
        total: p.total as int,
        begun: p.header_read,
        open: p.expect_eof,
    }
}

/// The care of a reader.
pub open spec fn care(o: OptionsView) -> Care {
    Care { limit: o.max_block_size as int, sums: !o.ignore_crc, sizes: !o.ignore_stream_id }
}

/// There are no callbacks.
pub open spec fn no_callbacks(o: OptionsView) -> bool {
    forall|i: int| 0 <= i < o.callbacks.len() ==> (#[trigger] o.callbacks[i]) is None
}

proof fn lemma_data_in(o: OptionsView, p: Progress, kind: u8, body: Seq<u8>)
    requires
        1 <= kind <= 3,
        p.wf(),
        p.header_read,
    ensures
        (match data_in(kind, body, p.max_block as int, !o.ignore_crc) {
            Some(data) => chunk::planned(o, p, false, kind, body.len() as int) matches Ok(plan) && {
                &&& chunk::finished(o, p, plan, kind, body) == Ok::<(Progress, chunk::ItemView), Error>(
                    (
                        Progress {
                            total: chunk::wrapping(p.total, data.len() as int),
                            ..p
                        },
                        chunk::ItemView::Data(data),
                    ),
                )
            },
            None => (match chunk::planned(o, p, false, kind, body.len() as int) {
                Ok(plan) => chunk::finished(o, p, plan, kind, body) is Err,
                Err(_) => true,
            }),
        }),
{
    if body.len() >= 4 {
        let c = body.skip(4);
        if block::chunk_decoded(c) is Ok {
            block::law_chunk_declared_length(c);
            if let Some((v, k)) = block::format::parse_uvarint(c) {
                block::format::lemma_parse_uvarint_bounds(c);
                assert(c.skip(k as int) =~= body.skip(4 + k as int));
            }
        }
        assert(sum_in(body) == crc::word_of(body));
    }
}

proof fn lemma_starts(o: OptionsView, p: Progress, body: Seq<u8>)
    requires
        body.len() == 6,
        o.wf(),
    ensures
        (match chunk::started(o, p, body) {
            Ok(q) => starts(body, o.max_block_size as int) && q == (Progress {
                max_block: power2::pow2((body[5] % 16 + 10) as nat) as usize,
                header_read: true,
                expect_eof: true,
                total: 0,
            }) && q.max_block == power2::pow2((body[5] % 16 + 10) as nat),
            Err(_) => !starts(body, o.max_block_size as int),
        }),
{
    let b = body.take(5);
    let m = layout::magic();
    assert(b[0] == body[0] && b[1] == body[1] && b[2] == body[2] && b[3] == body[3] && b[4]
        == body[4]);
    if body[0] == 0x4d && body[1] == 0x69 && body[2] == 0x6e && body[3] == 0x4c && body[4] == 0x7a {
        assert(b =~= m);
    } else {
        assert(m[0] == 0x4d && m[1] == 0x69 && m[2] == 0x6e && m[3] == 0x4c && m[4] == 0x7a);
    }
}

/// The next chunk is taken where it is in order.
proof fn lemma_next_chunk(v: ReaderView)
    requires
        v.wf(),
        no_callbacks(v.options),
        4 <= v.rest().len(),
        4 + body_len(v.rest()) <= v.rest().len(),
    ensures
        (match next_chunk(v.rest(), place(v.progress), care(v.options)) {
            Some((data, q)) => reader::step(v.asked(), v.progress, v.rest()) matches Step::Passed(
                n,
                p,
                item,
            ) && {
                &&& n == 4 + body_len(v.rest())
                &&& place(p) == q
                &&& item is Data ==> item == chunk::ItemView::Data(data)
                &&& !(item is Data) ==> data == Seq::<u8>::empty()
            },
            None => reader::step(v.asked(), v.progress, v.rest()) is Failed,
        }),
{
    reveal(next_chunk);
    reveal(reader::step);
    let s = v.rest();
    let o = v.asked();
    let p = v.progress;
    let kind = s[0];
    let n = body_len(s);
    let t = s.skip(1);
    assert(t[0] == s[1] && t[1] == s[2] && t[2] == s[3]);
    assert(layout::chunk_len_of(t) == n);
    let body = s.subrange(4, 4 + n);
    if 1 <= kind <= 3 {
        if p.header_read {
            lemma_data_in(o, p, kind, body);
        }
    } else if kind == 0xff {
        if n == 6 {
            lemma_starts(o, p, body);
        }
    } else if chunk::is_user(kind) {
        assert(o.callbacks[kind - layout::MIN_USER_SKIPPABLE_CHUNK] is None);
    }
}

/// What a reader without callbacks makes of any bytes, whether a writer made them or not: it
/// reads their data where they are in order, and fails where they are not.
pub proof fn law_reads_content(v: ReaderView)
    requires
        v.wf(),
        no_callbacks(v.options),
    ensures
        (match content(v.rest(), place(v.progress), care(v.options)) {
            Some(data) => reader::drained(v).err is None && reader::drained(v).data == v.pending()
                + data,
            None => reader::drained(v).err is Some,
        }),
    decreases v.source.len() - v.at,
{
    reveal(reader::drained);
    let s = v.rest();
    reader::lemma_step(v);
    if s.len() < 4 || s.len() < 4 + body_len(s) {
        lemma_short(v);
        assert(v.pending() + Seq::<u8>::empty() =~= v.pending());
    } else {
        lemma_next_chunk(v);
        if let Step::Passed(k, q, item) = reader::step(v.asked(), v.progress, s) {
            let w = reader::moved(v.emptied(), k, q, item);
            let data = (next_chunk(s, place(v.progress), care(v.options))->0).0;
            assert(w.rest() =~= s.skip(k));
            assert(w.pending() =~= data);
            law_reads_content(w);
            if let Some(more) = content(w.rest(), place(q), care(v.options)) {
                assert(v.pending() + (data + more) =~= v.pending() + (w.pending() + more));
            }
        }
    }
}

/// Less than a chunk is the end, if it is nothing and the end may come, or else an error.
proof fn lemma_short(v: ReaderView)
    requires
        v.rest().len() < 4 || v.rest().len() < 4 + body_len(v.rest()),
    ensures
        ({
            let s = reader::step(v.asked(), v.progress, v.rest());
            if v.rest().len() == 0 && !v.progress.expect_eof {
                s is Ended
            } else {
                s is Short || s is Failed
            }
        }),
{
    reveal(reader::step);
    let s = v.rest();
    if s.len() >= 4 {
        let t = s.skip(1);
        assert(t[0] == s[1] && t[1] == s[2] && t[2] == s[3]);
    }
}

/// A data chunk whose checksum is not that of its data is not read, whatever its size and
/// wherever it stands: reading fails there, and gives nothing of it. So does skipping to
/// within it.
pub proof fn law_bad_checksum(v: ReaderView, out: Seq<u8>, skip: int)
    requires
        v.wf(),
        v.progress.header_read,
        !v.options.ignore_crc,
        ({
            let s = v.rest();
            let body = s.subrange(4, 4 + body_len(s));
            &&& s.len() >= 4 + body_len(s)
            &&& body.len() >= 4
            &&& s[0] == 1 || s[0] == 2
            &&& s[0] == 1 ==> out == body.skip(4)
            &&& s[0] == 2 ==> block::chunk_decoded(body.skip(4)) == Ok::<Seq<u8>, block_error::Error>(
                out,
            ) && body.len() <= v.progress.max_block + 6
            &&& out.len() <= v.progress.max_block
            &&& sum_in(body) != crc::masked_crc_of(out)
        }),
    ensures
        reader::drained(v).err == Some(Error::Crc),
        reader::drained(v).data == v.pending(),
        v.pending().len() == 0 ==> reader::filled(v).1 == Err::<bool, Error>(Error::Crc),
        v.pending().len() < skip < v.pending().len() + out.len() ==> reader::skipped(v, skip).1
            == Some(Error::Crc),
{
    reveal(reader::drained);
    reveal(reader::step);
    reveal(reader::droppable);
    let s = v.rest();
    let n = body_len(s);
    let body = s.subrange(4, 4 + n);
    let t = s.skip(1);
    assert(t[0] == s[1] && t[1] == s[2] && t[2] == s[3]);
    assert(layout::chunk_len_of(t) == n);
    assert(sum_in(body) == crc::word_of(body));
    assert(s.subrange(8, 4 + n) =~= body.skip(4));
    if s[0] == 2 {
        block::law_chunk_declared_length(body.skip(4));
    }
    assert(v.pos == v.block.len() <==> v.pending().len() == 0);
}

/// Where a data chunk is in order, one that gives its data with up to four bytes in a row
/// damaged is refused, however long it is: its checksum is that of other data.
pub proof fn law_damaged_data(
    v: ReaderView,
    head: Seq<u8>,
    was: Seq<u8>,
    is_now: Seq<u8>,
    tail: Seq<u8>,
)
    requires
        v.wf(),
        v.progress.header_read,
        !v.options.ignore_crc,
        was != is_now,
        was.len() == 4,
        is_now.len() == 4,
        ({
            let s = v.rest();
            let body = s.subrange(4, 4 + body_len(s));
            let out = head + is_now + tail;
            &&& s.len() >= 4 + body_len(s)
            &&& body.len() >= 4
            &&& s[0] == 1 || s[0] == 2
            &&& s[0] == 1 ==> out == body.skip(4)
            &&& s[0] == 2 ==> block::chunk_decoded(body.skip(4)) == Ok::<Seq<u8>, block_error::Error>(
                out,
            ) && body.len() <= v.progress.max_block + 6
            &&& out.len() <= v.progress.max_block
            &&& sum_in(body) == crc::masked_crc_of(head + was + tail)
        }),
    ensures
        reader::drained(v).err == Some(Error::Crc),
        reader::drained(v).data == v.pending(),
{
    crc::law_damage_changes_checksum(head, was, is_now, tail);
    law_bad_checksum(v, head + is_now + tail, 0);
}

/// What a read gives is the next of the data, whatever the stream: as many bytes as are asked
/// for or are at hand, at least one, and nothing only at the end. What is left to read is the
/// rest.
pub proof fn law_read(
    v: ReaderView,
    p: Seq<u8>,
    w: ReaderView,
    q: Seq<u8>,
    n: usize,
)
    requires
        v.wf(),
        v.err is None,
        0 < p.len() <= usize::MAX,
        reader::read_some(v, p, w, q, Ok(n)),
    ensures
        n <= p.len(),
        q.len() == p.len(),
        reader::drained(v).data == q.take(n as int) + reader::drained(w).data,
        reader::drained(w).err == reader::drained(v).err || n == 0,
        n == 0 ==> reader::drained(v).data == Seq::<u8>::empty() && reader::drained(v).err is None,
        n == p.len() || n == 0 || w.pending().len() == 0,
{
    reader::lemma_drained_filled(v);
    let (u, f) = reader::filled(v);
    let d = reader::drained(v).data;
    if f == Ok::<bool, Error>(true) {
        reader::lemma_drained_take(u, n as int);
        assert(q.take(n as int) =~= d.take(n as int)) by {
            assert(d.take(u.pending().len() as int) == u.pending());
            assert(q.take(n as int) =~= u.pending().take(n as int));
            assert(u.pending().take(n as int) =~= d.take(n as int));
        }
        assert(d =~= d.take(n as int) + d.skip(n as int));
        if n < p.len() {
            assert(w.pending().len() == 0);
        }
    } else {
        laws::law_end_is_end(v);
        assert(q.take(0) + reader::drained(w).data =~= reader::drained(w).data);
    }
}

} // verus!
