//! Decoding with workers gives what reading gives.
use crate::block;
use crate::stream::chunk;
use crate::stream::chunk::{ItemView, OptionsView, Plan, Progress};
use crate::stream::error::Error;
use crate::stream::format as layout;
use crate::stream::in_step;
use crate::stream::mt_reader;
use crate::stream::mt_reader::{DispatchedView, JobView, NextView};
use crate::stream::reader;
use crate::stream::reader::{ReaderView, Step};
use crate::stream::roundtrip;
use crate::stream::writer::WriterOptions;
use vstd::prelude::*;

verus! {

/// The data of a chunk, where it is accepted.
spec fn block_of(item: ItemView) -> Seq<u8> {
    match item {
        ItemView::Data(b) => b,
        _ => Seq::empty(),
    }
}

/// The user chunk that a chunk is.
spec fn user_of(item: ItemView) -> Seq<(u8, Seq<u8>)> {
    match item {
        ItemView::User(id, b) => seq![(id, b)],
        _ => Seq::empty(),
    }
}

/// A chunk is taken alike by a reader and for workers.
spec fn agree(o: OptionsView, p: Progress, s: Seq<u8>) -> bool {
    match reader::step(o, p, s) {
        Step::Ended => mt_reader::next(o, p, s) is Ended,
        Step::Passed(n, p2, item) => match mt_reader::next(o, p, s) {
            NextView::Passed(m, q, d) => {
                &&& m == n
                &&& q == p2
                &&& mt_reader::handed(d) == user_of(item)
                &&& mt_reader::outputs(mt_reader::job_of(d)) == Ok::<Seq<u8>, Error>(
                    block_of(item),
                )
            },
            _ => false,
        },
        _ => match mt_reader::next(o, p, s) {
            NextView::Ended => false,
            NextView::Failed(_, _) => true,
            NextView::Refused(_, _, _, _) => true,
            NextView::Passed(_, _, d) => mt_reader::outputs(mt_reader::job_of(d)) is Err,
        },
    }
}

proof fn lemma_one_job(j: JobView)
    ensures
        mt_reader::outputs(seq![j]) == j.result(),
{
    let a = seq![j];
    assert(a.drop_last() =~= Seq::<JobView>::empty());
    assert(mt_reader::outputs(a.drop_last()) == Ok::<Seq<u8>, Error>(Seq::empty()));
    if let Ok(out) = j.result() {
        assert(Seq::<u8>::empty() + out =~= out);
    }
}

proof fn lemma_agree(o: OptionsView, p: Progress, s: Seq<u8>)
    requires
        o.wf(),
        p.wf(),
    ensures
        agree(o, p, s),
{
    reveal(reader::step);
    reveal(mt_reader::next);
    if s.len() >= 4 {
        let len = layout::chunk_len_of(s.skip(1));
        let kind = s[0];
        if s.len() - 4 >= len {
            let body = s.subrange(4, 4 + len);
            if let Ok(plan) = chunk::planned(o, p, false, kind, len) {
                lemma_bodies_agree(o, p, plan, kind, body);
            }
        }
    }
}

/// The body of a chunk is taken alike by a reader and for workers.
proof fn lemma_bodies_agree(o: OptionsView, p: Progress, plan: Plan, kind: u8, body: Seq<u8>)
    ensures
        (match chunk::finished(o, p, plan, kind, body) {
            Ok((p2, item)) => match mt_reader::dispatched(o, p, plan, kind, body) {
                Ok((q, d)) => {
                    &&& q == p2
                    &&& mt_reader::handed(d) == user_of(item)
                    &&& mt_reader::outputs(mt_reader::job_of(d)) == Ok::<Seq<u8>, Error>(
                        block_of(item),
                    )
                },
                Err(_) => false,
            },
            Err(_) => match mt_reader::dispatched(o, p, plan, kind, body) {
                Ok((_, d)) => mt_reader::outputs(mt_reader::job_of(d)) is Err,
                Err(_) => true,
            },
        }),
{
    if let Plan::Compressed = plan {
        let c = body.skip(4);
        if block::chunk_decoded(c) is Ok {
            block::law_chunk_declared_length(c);
        }
    }
    if let Ok((_, DispatchedView::Job(j))) = mt_reader::dispatched(o, p, plan, kind, body) {
        lemma_one_job(j);
    }
}

/// The results of jobs and then others.
proof fn lemma_outputs_concat(a: Seq<JobView>, b: Seq<JobView>)
    ensures
        (match (mt_reader::outputs(a), mt_reader::outputs(b)) {
            (Ok(x), Ok(y)) => mt_reader::outputs(a + b) == Ok::<Seq<u8>, Error>(x + y),
            _ => mt_reader::outputs(a + b) is Err,
        }),
    decreases b.len(),
{
    if mt_reader::outputs(a) is Err {
        mt_reader::lemma_outputs_prefix(a, b);
    } else if b.len() == 0 {
        assert(a + b =~= a);
        let x = mt_reader::outputs(a)->Ok_0;
        assert(x + Seq::<u8>::empty() =~= x);
    } else {
        lemma_outputs_concat(a, b.drop_last());
        assert((a + b).drop_last() =~= a + b.drop_last());
        if mt_reader::outputs(b.drop_last()) is Ok && b.last().result() is Ok {
            let x = mt_reader::outputs(a)->Ok_0;
            let y = mt_reader::outputs(b.drop_last())->Ok_0;
            let z = b.last().result()->Ok_0;
            assert((x + y) + z =~= x + (y + z));
        }
    }
}

/// Decoding with workers succeeds where reading does, gives the same data, and hands the
/// same user chunks to callbacks.
pub proof fn law_concurrent_matches_reading(v: ReaderView)
    requires
        v.wf(),
        v.pending() == Seq::<u8>::empty(),
        v.progress.total == 0,
    ensures
        ({
            let d = reader::drained(v);
            let j = reader::jobs_of(v);
            let out = mt_reader::outputs(j.jobs);
            &&& d.err is None <==> j.err is None && out is Ok
            &&& d.err is None ==> out == Ok::<Seq<u8>, Error>(d.data)
            &&& d.err is None ==> d.reader.chunks == v.chunks + j.chunks
        }),
{
    assert(Progress { total: 0, ..v.progress } == v.progress);
    lemma_concurrent(v);
    assert(v.pending() + reader::drained(v).data.skip(0) =~= reader::drained(v).data);
}

proof fn lemma_concurrent(v: ReaderView)
    requires
        v.wf(),
    ensures
        ({
            let d = reader::drained(v);
            let j = mt_reader::jobs(v.options, v.ahead(), v.progress, v.rest());
            let out = mt_reader::outputs(j.jobs);
            &&& d.err is None <==> j.err is None && out is Ok
            &&& d.err is None ==> d.data == v.pending() + out->Ok_0
            &&& d.err is None ==> d.reader.chunks == v.chunks + j.chunks
        }),
    decreases v.source.len() - v.at,
{
    reveal(reader::drained);
    let o = v.asked();
    let p = v.progress;
    let s = v.rest();
    reader::lemma_step(v);
    lemma_agree(o, p, s);
    mt_reader::lemma_next(o, p, s);
    match mt_reader::next(o, p, s) {
        NextView::Passed(n, p2, d) => {
            let rest = mt_reader::jobs(v.options, mt_reader::left(v.ahead(), d), p2, s.skip(n));
            lemma_outputs_concat(mt_reader::job_of(d), rest.jobs);
            if let Step::Passed(_, _, item) = reader::step(o, p, s) {
                let w = reader::moved(v.emptied(), n, p2, item);
                assert(w.rest() =~= s.skip(n));
                assert(w.pending() =~= block_of(item));
                assert(w.ahead() =~= mt_reader::left(v.ahead(), d));
                lemma_concurrent(w);
                assert(w.chunks =~= v.chunks + mt_reader::handed(d));
                assert(v.chunks + mt_reader::handed(d) + rest.chunks =~= v.chunks + (
                mt_reader::handed(d) + rest.chunks));
            }
        },
        _ => {
            assert(v.chunks + Seq::<(u8, Seq<u8>)>::empty() =~= v.chunks);
            assert(v.pending() + Seq::<u8>::empty() =~= v.pending());
        },
    }
}

/// The stream of any data, with any options that are in range, is decoded by workers to
/// the data, where the reader takes blocks of that size.
pub proof fn law_workers_decode_stream(o: WriterOptions, data: Seq<u8>, r: OptionsView)
    requires
        o.wf(),
        r.wf(),
        roundtrip::negotiated(o.block_size) <= r.max_block_size,
    ensures
        ({
            let j = reader::jobs_of(reader::fresh(r, in_step::stream_of(o, data)));
            &&& j.err is None
            &&& mt_reader::outputs(j.jobs) == Ok::<Seq<u8>, Error>(data)
        }),
{
    let v = reader::fresh(r, in_step::stream_of(o, data));
    in_step::law_stream_reads(o, data, r);
    assert(v.pending() =~= Seq::<u8>::empty());
    law_concurrent_matches_reading(v);
}

} // verus!
