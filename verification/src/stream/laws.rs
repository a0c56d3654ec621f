//! What holds of streams as a whole.
use crate::block;
use crate::stream::chunk;
use crate::stream::chunk::{Answer, ItemView, OptionsView, Progress};
use crate::stream::error::Error;
use crate::stream::format as layout;
use crate::stream::reader;
use crate::stream::reader::{ReaderView, Step};
use vstd::prelude::*;

verus! {

/// How many bytes can be read before the next end of a stream or error.
pub open spec fn until_end(v: ReaderView) -> nat
    decreases v.source.len() - v.at,
{
    if !v.wf() {
        v.pending().len()
    } else {
        proof {
            reader::lemma_step(v);
        }
        match reader::step(v.asked(), v.progress, v.rest()) {
            Step::Passed(n, p, item) if !(item is End) => v.pending().len() + until_end(
                reader::moved(v.emptied(), n, p, item),
            ),
            _ => v.pending().len(),
        }
    }
}

/// Two readers have the same before them.
pub open spec fn alike(v: ReaderView, w: ReaderView) -> bool {
    &&& v.options == w.options
    &&& v.progress == w.progress
    &&& v.rest() == w.rest()
    &&& v.pending() == w.pending()
    &&& same_answers(v, w)
}

/// Callbacks answer the same to two readers, or accept all that is to come.
pub open spec fn same_answers(v: ReaderView, w: ReaderView) -> bool {
    v.ahead() == w.ahead() || (chunk::accepting(v.ahead()) && chunk::accepting(w.ahead()))
}

/// The answers that are left behind a chunk.
pub proof fn lemma_moved_ahead(v: ReaderView, n: int, p: Progress, item: ItemView)
    ensures
        reader::moved(v.emptied(), n, p, item).ahead() == if item is User {
            chunk::later_answers(v.ahead())
        } else {
            v.ahead()
        },
{
    let w = reader::moved(v.emptied(), n, p, item);
    assert(w.ahead() =~= if item is User {
        chunk::later_answers(v.ahead())
    } else {
        v.ahead()
    });
}

/// Answers that are the same stay so behind a chunk.
pub proof fn lemma_same_answers(
    v: ReaderView,
    w: ReaderView,
    n: int,
    p: Progress,
    item: ItemView,
)
    requires
        same_answers(v, w),
    ensures
        same_answers(
            reader::moved(v.emptied(), n, p, item),
            reader::moved(w.emptied(), n, p, item),
        ),
        chunk::first_answer(v.ahead()) == chunk::first_answer(w.ahead()),
{
    lemma_moved_ahead(v, n, p, item);
    lemma_moved_ahead(w, n, p, item);
}

/// Where callbacks accept all user chunks, reading gives the same whatever else there is
/// to be said of them.
pub proof fn law_accepted(v: ReaderView, a: Seq<Answer>)
    requires
        v.wf(),
        chunk::accepting(v.answers),
        chunk::accepting(a),
    ensures
        alike(v, v.told(a)),
        reader::drained(v.told(a)).data == reader::drained(v).data,
        reader::drained(v.told(a)).err == reader::drained(v).err,
        until_end(v.told(a)) == until_end(v),
{
    let w = v.told(a);
    assert(w.rest() == v.rest());
    assert(w.pending() == v.pending());
    lemma_alike(v, w);
}

/// Readers that have the same before them read the same.
pub proof fn lemma_alike(v: ReaderView, w: ReaderView)
    requires
        v.wf(),
        w.wf(),
        alike(v, w),
    ensures
        reader::drained(v).data == reader::drained(w).data,
        reader::drained(v).err == reader::drained(w).err,
        reader::drained(v).reader.progress == reader::drained(w).reader.progress,
        until_end(v) == until_end(w),
    decreases v.source.len() - v.at,
{
    reveal(reader::drained);
    reader::lemma_step(v);
    reader::lemma_step(w);
    assert(v.asked() == w.asked());
    if let Step::Passed(n, p, item) = reader::step(v.asked(), v.progress, v.rest()) {
        let v2 = reader::moved(v.emptied(), n, p, item);
        let w2 = reader::moved(w.emptied(), n, p, item);
        assert(v2.rest() =~= v.rest().skip(n));
        assert(w2.rest() =~= w.rest().skip(n));
        assert(v2.pending() =~= w2.pending());
        lemma_same_answers(v, w, n, p, item);
        lemma_alike(v2, w2);
    }
}

/// A data chunk that can be passed over, and that is accepted, holds as many bytes as
/// its header says.
pub proof fn lemma_droppable(o: OptionsView, p: Progress, s: Seq<u8>)
    requires
        reader::droppable(o, p, s) is Some,
        reader::step(o, p, s) is Passed,
    ensures
        (match reader::step(o, p, s) {
            Step::Passed(n, p2, item) => {
                let d = reader::droppable(o, p, s)->0;
                &&& n == 4 + layout::chunk_len_of(s.skip(1))
                &&& item is Data
                &&& (item->Data_0).len() == d
                &&& p2 == (Progress { total: chunk::wrapping(p.total, d), ..p })
            },
            _ => true,
        }),
{
    reveal(reader::step);
    reveal(reader::droppable);
    let len = layout::chunk_len_of(s.skip(1));
    let body = s.subrange(4, 4 + len);
    assert(body.skip(4) =~= s.subrange(8, 4 + len));
    if chunk::is_compressed(s[0]) {
        block::law_chunk_declared_length(body.skip(4));
    }
}

/// Skipping some bytes and then reading gives what reading everything gives, without
/// those bytes, as long as the stream does not end before.
pub proof fn law_skip_then_read(v: ReaderView, n: int)
    requires
        v.wf(),
        0 <= n <= until_end(v),
    ensures
        reader::skipped(v, n).1 is None,
        reader::drained(reader::skipped(v, n).0).data == reader::drained(v).data.skip(n),
        reader::drained(reader::skipped(v, n).0).err == reader::drained(v).err,
    decreases v.source.len() - v.at,
{
    reveal(reader::drained);
    let have = v.pending().len() as int;
    if n <= have {
        reader::lemma_drained_take(v, n);
        assert(ReaderView { pos: v.pos + 0, ..v } =~= v);
    } else {
        let u = v.emptied();
        let m = n - have;
        reader::lemma_step(v);
        reader::lemma_drained_take(v, have);
        lemma_until_end_len(v);
        if let Step::Passed(k, p, item) = reader::step(v.asked(), v.progress, v.rest()) {
            let w = reader::moved(u, k, p, item);
            let d = reader::drained(w).data;
            lemma_until_end_len(w);
            assert(reader::drained(v).data.skip(n) =~= d.skip(m));
            match reader::droppable(v.asked(), v.progress, v.rest()) {
                Some(len) if len <= m => {
                    lemma_droppable(v.asked(), v.progress, v.rest());
                    let x = reader::passed_over(u, k, len);
                    reader::lemma_drained_take(w, len);
                    let y = ReaderView { pos: w.pos + len, ..w };
                    assert(x.rest() =~= y.rest());
                    assert(x.pending() =~= y.pending());
                    lemma_alike(x, y);
                    lemma_until_end_take(w, len);
                    law_skip_then_read(x, m - len);
                    assert(d.skip(len).skip(m - len) =~= d.skip(m));
                },
                _ => {
                    law_skip_then_read(w, m);
                },
            }
        }
    }
}

/// Skipping more bytes than a sound stream has left ends in an error, which stays.
pub proof fn law_skip_past_end(v: ReaderView, n: int)
    requires
        v.wf(),
        n > until_end(v),
        reader::drained(v).err is None,
    ensures
        reader::skipped(v, n).1 == Some(Error::UnexpectedEof),
        reader::skipped(v, n).0.err == Some(Error::UnexpectedEof),
    decreases v.source.len() - v.at,
{
    reveal(reader::drained);
    let have = v.pending().len() as int;
    let u = v.emptied();
    let m = n - have;
    reader::lemma_step(v);
    reader::lemma_skip_step(v, m);
    if let Step::Passed(k, p, item) = reader::step(v.asked(), v.progress, v.rest()) {
        let w = reader::moved(u, k, p, item);
        match reader::droppable(v.asked(), v.progress, v.rest()) {
            Some(len) if len <= m => {
                lemma_droppable(v.asked(), v.progress, v.rest());
                let x = reader::passed_over(u, k, len);
                reader::lemma_drained_take(w, len);
                let y = ReaderView { pos: w.pos + len, ..w };
                assert(x.rest() =~= y.rest());
                assert(x.pending() =~= y.pending());
                lemma_alike(x, y);
                lemma_until_end_take(w, len);
                law_skip_past_end(x, m - len);
            },
            _ => {
                if !(item is End) {
                    law_skip_past_end(w, m);
                }
            },
        }
    } else {
        lemma_not_droppable(v.asked(), v.progress, v.rest());
    }
}

/// At the end of a stream there is no chunk to pass over.
proof fn lemma_not_droppable(o: OptionsView, p: Progress, s: Seq<u8>)
    requires
        reader::step(o, p, s) is Ended,
    ensures
        reader::droppable(o, p, s) is None,
{
    reveal(reader::step);
    reveal(reader::droppable);
}

/// What follows a chunk does not change what the chunk is.
proof fn lemma_step_prefix(o: OptionsView, p: Progress, s: Seq<u8>, t: Seq<u8>)
    requires
        reader::step(o, p, s) is Passed,
    ensures
        reader::step(o, p, s + t) == reader::step(o, p, s),
{
    reveal(reader::step);
    let r = s + t;
    assert(layout::chunk_len_of(r.skip(1)) == layout::chunk_len_of(s.skip(1)));
    let len = layout::chunk_len_of(s.skip(1));
    assert(r.subrange(4, 4 + len) =~= s.subrange(4, 4 + len));
}

/// The chunk that starts a stream means the same wherever it stands.
proof fn lemma_start_anywhere(o: OptionsView, p: Progress, q: Progress, s: Seq<u8>)
    requires
        reader::step(o, p, s) matches Step::Passed(_, _, ItemView::Start),
    ensures
        reader::step(o, q, s) == reader::step(o, p, s),
{
    reveal(reader::step);
}

/// A reader that comes to the end of `v.source` in good order goes on with `t`, as the
/// reader `f` reads it.
proof fn lemma_drained_append(v: ReaderView, w: ReaderView, f: ReaderView, t: Seq<u8>)
    requires
        v.wf(),
        w.wf(),
        f.wf(),
        v.options == w.options,
        v.options == f.options,
        v.progress == w.progress,
        w.rest() == v.rest() + t,
        v.pending() == w.pending(),
        v.ahead() == w.ahead(),
        f.rest() == t,
        f.pending() == Seq::<u8>::empty(),
        reader::drained(v).err is None,
        f.ahead() == reader::drained(v).reader.ahead(),
        reader::step(f.asked(), f.progress, t) matches Step::Passed(_, _, ItemView::Start),
    ensures
        reader::drained(w).data == reader::drained(v).data + reader::drained(f).data,
        reader::drained(w).err == reader::drained(f).err,
    decreases v.source.len() - v.at,
{
    reveal(reader::drained);
    let o = v.asked();
    reader::lemma_step(v);
    reader::lemma_step(w);
    if let Step::Passed(n, p, item) = reader::step(o, v.progress, v.rest()) {
        lemma_step_prefix(o, v.progress, v.rest(), t);
        let v2 = reader::moved(v.emptied(), n, p, item);
        let w2 = reader::moved(w.emptied(), n, p, item);
        assert(v2.rest() =~= v.rest().skip(n));
        assert(w2.rest() =~= w.rest().skip(n));
        assert(w2.rest() =~= v2.rest() + t);
        assert(v2.pending() =~= w2.pending());
        lemma_moved_ahead(v, n, p, item);
        lemma_moved_ahead(w, n, p, item);
        lemma_drained_append(v2, w2, f, t);
        assert(v.pending() + (reader::drained(v2).data + reader::drained(f).data) =~= v.pending()
            + reader::drained(v2).data + reader::drained(f).data);
    } else {
        lemma_ended(o, v.progress, v.rest());
        assert(w.rest() =~= t);
        assert(reader::drained(v).reader.ahead() =~= v.ahead());
        lemma_start_over(w, f, t);
    }
}

/// A reader that has a stream before it goes on as a reader that has nothing else.
proof fn lemma_start_over(w: ReaderView, f: ReaderView, t: Seq<u8>)
    requires
        w.wf(),
        f.wf(),
        w.options == f.options,
        w.rest() == t,
        f.rest() == t,
        f.pending() == Seq::<u8>::empty(),
        f.ahead() == w.ahead(),
        reader::step(f.asked(), f.progress, t) matches Step::Passed(_, _, ItemView::Start),
    ensures
        reader::drained(w).data == w.pending() + reader::drained(f).data,
        reader::drained(w).err == reader::drained(f).err,
{
    reveal(reader::drained);
    lemma_start_anywhere(f.asked(), f.progress, w.progress, t);
    reader::lemma_step(w);
    reader::lemma_step(f);
    if let Step::Passed(n, p, item) = reader::step(f.asked(), f.progress, t) {
        let w2 = reader::moved(w.emptied(), n, p, item);
        let f2 = reader::moved(f.emptied(), n, p, item);
        assert(w2.rest() =~= w.rest().skip(n));
        assert(f2.rest() =~= f.rest().skip(n));
        assert(w2.pending() =~= f2.pending());
        lemma_same_answers(w, f, n, p, item);
        lemma_alike(w2, f2);
        assert(f.pending() + reader::drained(f2).data =~= reader::drained(f2).data);
    }
}

proof fn lemma_ended(o: OptionsView, p: Progress, s: Seq<u8>)
    requires
        reader::step(o, p, s) is Ended,
    ensures
        s.len() == 0,
{
    reveal(reader::step);
}

/// Streams one after the other read as their data one after the other, where the
/// callbacks go on with their answers.
pub proof fn law_concatenated_streams(o: OptionsView, a: Seq<u8>, b: Seq<u8>, x: Seq<Answer>)
    requires
        o.wf(),
        reader::drained(reader::fresh(o, a).told(x)).err is None,
        reader::step(o, chunk::at_start(o), b) matches Step::Passed(_, _, ItemView::Start),
    ensures
        ({
            let first = reader::drained(reader::fresh(o, a).told(x));
            let second = reader::drained(reader::fresh(o, b).told(first.reader.ahead()));
            let both = reader::drained(reader::fresh(o, a + b).told(x));
            &&& both.data == first.data + second.data
            &&& both.err == second.err
        }),
{
    let v = reader::fresh(o, a).told(x);
    let w = reader::fresh(o, a + b).told(x);
    let f = reader::fresh(o, b).told(reader::drained(v).reader.ahead());
    assert(v.rest() =~= a);
    assert(w.rest() =~= a + b);
    assert(f.rest() =~= b);
    assert(f.pending() =~= Seq::<u8>::empty());
    assert(f.ahead() =~= reader::drained(v).reader.ahead());
    reveal(reader::step);
    lemma_drained_append(v, w, f, b);
}

/// What comes before the end is read.
pub proof fn lemma_until_end_len(v: ReaderView)
    requires
        v.wf(),
    ensures
        until_end(v) <= reader::drained(v).data.len(),
    decreases v.source.len() - v.at,
{
    reveal(reader::drained);
    reader::lemma_step(v);
    if let Step::Passed(n, p, item) = reader::step(v.asked(), v.progress, v.rest()) {
        lemma_until_end_len(reader::moved(v.emptied(), n, p, item));
    }
}

/// Handing out some of the current block leaves so much less.
pub proof fn lemma_until_end_take(v: ReaderView, m: int)
    requires
        v.wf(),
        0 <= m <= v.pending().len(),
    ensures
        until_end(ReaderView { pos: v.pos + m, ..v }) == until_end(v) - m,
{
    let w = ReaderView { pos: v.pos + m, ..v };
    assert(w.emptied() =~= v.emptied());
    assert(w.rest() =~= v.rest());
}

/// Behind the end of a stream there is nothing to read.
pub proof fn law_end_is_end(v: ReaderView)
    requires
        v.wf(),
        reader::drained(v).err is None,
    ensures
        ({
            let w = reader::drained(v).reader;
            &&& w.wf()
            &&& reader::drained(w).data == Seq::<u8>::empty()
            &&& reader::drained(w).err is None
        }),
    decreases v.source.len() - v.at,
{
    reveal(reader::drained);
    reveal(reader::step);
    reader::lemma_step(v);
    match reader::step(v.asked(), v.progress, v.rest()) {
        Step::Passed(n, p, item) => {
            law_end_is_end(reader::moved(v.emptied(), n, p, item));
        },
        Step::Ended => {
            let w = v.emptied().at_end();
            assert(w.rest() =~= Seq::<u8>::empty());
            assert(w.pending() =~= Seq::<u8>::empty());
        },
        _ => {},
    }
}

} // verus!
