//! What becomes of the jobs of a stream while workers decode it: each is done, waits, or is
//! still to be read.
use crate::stream::chunk;
use crate::stream::chunk::{Answer, Progress};
use crate::stream::error::Error;
use crate::stream::format as layout;
use crate::stream::mt_reader;
use crate::stream::mt_reader::{DecodeJob, JobView, NextView};
use crate::stream::reader;
use crate::stream::reader::ReaderView;
use vstd::prelude::*;

verus! {

/// What the jobs of `v` come to is accounted for: they are those in `done`, those that
/// wait in `q`, and those of what the reader `u` has before it; the results of those in
/// `done` are in the sink, behind `w`. This holds where callbacks answer `a`.
spec fn accounted_if(
    v: ReaderView,
    w: Seq<u8>,
    done: Seq<JobView>,
    q: Seq<DecodeJob>,
    u: ReaderView,
    p: Progress,
    bytes: Seq<u8>,
    count: u64,
    a: Seq<Answer>,
) -> bool {
    let all = reader::jobs_of(v.told(a));
    let rest = mt_reader::jobs(v.options, u.told(a).ahead(), p, u.rest());
    let out = mt_reader::outputs(done);
    &&& u == ReaderView { at: u.at, chunks: u.chunks, answers: u.answers, ..v }
    &&& all.jobs == done + mt_reader::waiting(q) + rest.jobs
    &&& all.err == rest.err
    &&& v.at + all.used == u.at + rest.used
    &&& all.progress == rest.progress
    &&& v.chunks + all.chunks == u.chunks + rest.chunks
    &&& out is Ok
    &&& bytes == w + out->Ok_0
    &&& count == chunk::wrapping(0, (out->Ok_0).len() as int)
}

/// The same whatever callbacks answer later.
pub closed spec fn accounted(
    v: ReaderView,
    w: Seq<u8>,
    done: Seq<JobView>,
    q: Seq<DecodeJob>,
    u: ReaderView,
    p: Progress,
    bytes: Seq<u8>,
    count: u64,
) -> bool {
    forall|a: Seq<Answer>| #[trigger]
        u.answers.is_prefix_of(a) ==> accounted_if(v, w, done, q, u, p, bytes, count, a)
}

/// At first no job is done.
pub proof fn lemma_none_done(v: ReaderView, w: Seq<u8>, p: Progress)
    requires
        p == (Progress { total: 0, ..v.progress }),
    ensures
        accounted(v, w, Seq::empty(), Seq::empty(), v, p, w, 0),
{
    let none = Seq::<JobView>::empty();
    let q = Seq::<DecodeJob>::empty();
    assert forall|a: Seq<Answer>| #[trigger] v.answers.is_prefix_of(a) implies accounted_if(
        v,
        w,
        none,
        q,
        v,
        p,
        w,
        0,
        a,
    ) by {
        let all = reader::jobs_of(v.told(a));
        assert(v.told(a).rest() == v.rest());
        assert(mt_reader::waiting(q) =~= none);
        assert(none + mt_reader::waiting(q) + all.jobs =~= all.jobs);
        assert(w + Seq::<u8>::empty() =~= w);
    }
}

/// What running the first job that waits gives.
pub proof fn lemma_ran(
    v: ReaderView,
    w: Seq<u8>,
    done: Seq<JobView>,
    q: Seq<DecodeJob>,
    u: ReaderView,
    p: Progress,
    bytes: Seq<u8>,
    count: u64,
)
    requires
        q.len() > 0,
        accounted(v, w, done, q, u, p, bytes, count),
    ensures
        (match q[0]@.result() {
            Ok(out) => accounted(
                v,
                w,
                done.push(q[0]@),
                q.skip(1),
                u,
                p,
                bytes + out,
                chunk::wrapping(count, out.len() as int),
            ),
            Err(e) => mt_reader::outputs(reader::jobs_of(v.told(u.answers)).jobs) == Err::<
                Seq<u8>,
                Error,
            >(e),
        }),
{
    assert(u.answers.is_prefix_of(u.answers));
    assert forall|a: Seq<Answer>| #[trigger] u.answers.is_prefix_of(a) implies (
    match q[0]@.result() {
        Ok(out) => accounted_if(
            v,
            w,
            done.push(q[0]@),
            q.skip(1),
            u,
            p,
            bytes + out,
            chunk::wrapping(count, out.len() as int),
            a,
        ),
        Err(e) => mt_reader::outputs(reader::jobs_of(v.told(a)).jobs) == Err::<Seq<u8>, Error>(e),
    }) by {
        lemma_ran_if(v, w, done, q, u, p, bytes, count, a);
    }
}

proof fn lemma_ran_if(
    v: ReaderView,
    w: Seq<u8>,
    done: Seq<JobView>,
    q: Seq<DecodeJob>,
    u: ReaderView,
    p: Progress,
    bytes: Seq<u8>,
    count: u64,
    a: Seq<Answer>,
)
    requires
        q.len() > 0,
        accounted_if(v, w, done, q, u, p, bytes, count, a),
    ensures
        (match q[0]@.result() {
            Ok(out) => accounted_if(
                v,
                w,
                done.push(q[0]@),
                q.skip(1),
                u,
                p,
                bytes + out,
                chunk::wrapping(count, out.len() as int),
                a,
            ),
            Err(e) => mt_reader::outputs(reader::jobs_of(v.told(a)).jobs) == Err::<Seq<u8>, Error>(e),
        }),
{
    let rest = mt_reader::jobs(v.options, u.told(a).ahead(), p, u.rest());
    lemma_first_run(done, q, rest.jobs);
    if let Ok(out) = q[0]@.result() {
        let before = mt_reader::outputs(done)->Ok_0;
        assert((w + before) + out =~= w + (before + out));
    }
}

/// Jobs with the first one that waits among those that are done.
proof fn lemma_first_run(done: Seq<JobView>, q: Seq<DecodeJob>, rest: Seq<JobView>)
    requires
        q.len() > 0,
        mt_reader::outputs(done) is Ok,
    ensures
        done + mt_reader::waiting(q) + rest == done.push(q[0]@) + mt_reader::waiting(q.skip(1))
            + rest,
        (match q[0]@.result() {
            Ok(out) => mt_reader::outputs(done.push(q[0]@)) == Ok::<Seq<u8>, Error>(
                mt_reader::outputs(done)->Ok_0 + out,
            ),
            Err(e) => mt_reader::outputs(done + mt_reader::waiting(q) + rest) == Err::<
                Seq<u8>,
                Error,
            >(e),
        }),
{
    let job = q[0]@;
    let now = done.push(job);
    let more = mt_reader::waiting(q.skip(1)) + rest;
    assert(now.drop_last() =~= done);
    assert(mt_reader::waiting(q) =~= seq![job] + mt_reader::waiting(q.skip(1)));
    assert(done + mt_reader::waiting(q) + rest =~= now + more);
    assert(now + more =~= now + mt_reader::waiting(q.skip(1)) + rest);
    if job.result() is Err {
        mt_reader::lemma_outputs_prefix(now, more);
    }
}

/// What comes next for workers depends on the answer only where it is a user chunk.
proof fn lemma_next_told(u: ReaderView, p: Progress, a: Seq<Answer>, b: Seq<Answer>)
    requires
        a.is_prefix_of(b),
        (match mt_reader::next(u.told(a).asked(), p, u.rest()) {
            NextView::Refused(_, _, _, _) => u.chunks.len() < a.len(),
            NextView::Passed(_, _, d) => mt_reader::handed(d).len() > 0 ==> u.chunks.len() < a.len(),
            _ => true,
        }),
    ensures
        mt_reader::next(u.told(b).asked(), p, u.rest()) == mt_reader::next(
            u.told(a).asked(),
            p,
            u.rest(),
        ),
{
    reveal(mt_reader::next);
    let x = u.told(a).asked();
    let y = u.told(b).asked();
    if u.chunks.len() < a.len() {
        assert(b[u.chunks.len() as int] == a[u.chunks.len() as int]);
        assert(x =~= y);
    } else if u.rest().len() >= 4 {
        let s = u.rest();
        let len = layout::chunk_len_of(s.skip(1));
        reader::lemma_planned(u.options, x.answer, p, true, s[0], len);
        reader::lemma_planned(u.options, y.answer, p, true, s[0], len);
    }
}

/// What a chunk that was read changes.
pub proof fn lemma_taken(
    v: ReaderView,
    w: Seq<u8>,
    done: Seq<JobView>,
    q: Seq<DecodeJob>,
    u: ReaderView,
    p: Progress,
    bytes: Seq<u8>,
    count: u64,
    q2: Seq<DecodeJob>,
    u2: ReaderView,
)
    requires
        u.wf(),
        p.wf(),
        u.options == v.options,
        u.settled(),
        u2.settled(),
        u.answers.is_prefix_of(u2.answers),
        accounted(v, w, done, q, u, p, bytes, count),
        (match mt_reader::next(u.told(u2.answers).asked(), p, u.rest()) {
            NextView::Passed(n, _, d) => {
                &&& u2 == reader::taken_for_workers(u.told(u2.answers), n, d)
                &&& mt_reader::waiting(q2) == mt_reader::waiting(q) + mt_reader::job_of(d)
            },
            _ => false,
        }),
    ensures
        (match mt_reader::next(u.told(u2.answers).asked(), p, u.rest()) {
            NextView::Passed(_, p2, _) => accounted(v, w, done, q2, u2, p2, bytes, count),
            _ => false,
        }),
{
    let x = u.told(u2.answers);
    mt_reader::lemma_next(x.asked(), p, u.rest());
    if let NextView::Passed(n, p2, d) = mt_reader::next(x.asked(), p, u.rest()) {
        assert(u2.rest() =~= u.rest().skip(n));
        assert forall|a: Seq<Answer>| #[trigger] u2.answers.is_prefix_of(a) implies accounted_if(
            v,
            w,
            done,
            q2,
            u2,
            p2,
            bytes,
            count,
            a,
        ) by {
            assert(u.answers.is_prefix_of(a));
            lemma_next_told(u, p, u2.answers, a);
            assert(accounted_if(v, w, done, q, u, p, bytes, count, a));
            assert(u2.told(a).ahead() =~= mt_reader::left(u.told(a).ahead(), d));
            let rest = mt_reader::jobs(v.options, u2.told(a).ahead(), p2, u2.rest());
            let wait = mt_reader::waiting(q);
            assert(done + wait + (mt_reader::job_of(d) + rest.jobs) =~= done + (wait
                + mt_reader::job_of(d)) + rest.jobs);
            assert(u.chunks + (mt_reader::handed(d) + rest.chunks) =~= u2.chunks + rest.chunks);
        }
    }
}

/// Where a chunk is not accepted, the stream is malformed or a callback refused it.
pub proof fn lemma_not_taken(
    v: ReaderView,
    w: Seq<u8>,
    done: Seq<JobView>,
    q: Seq<DecodeJob>,
    u: ReaderView,
    p: Progress,
    bytes: Seq<u8>,
    count: u64,
    a: Seq<Answer>,
)
    requires
        u.wf(),
        p.wf(),
        u.options == v.options,
        u.answers.is_prefix_of(a),
        accounted(v, w, done, q, u, p, bytes, count),
    ensures
        (match mt_reader::next(u.told(a).asked(), p, u.rest()) {
            NextView::Failed(_, e) => reader::jobs_of(v.told(a)).err == Some(e),
            NextView::Refused(_, _, _, e) => reader::jobs_of(v.told(a)).err == Some(e),
            _ => true,
        }),
{
}

/// At the end of the stream, with no job that waits, all is done.
pub proof fn lemma_all_done(
    v: ReaderView,
    w: Seq<u8>,
    done: Seq<JobView>,
    q: Seq<DecodeJob>,
    u: ReaderView,
    p: Progress,
    bytes: Seq<u8>,
    count: u64,
)
    requires
        u.wf(),
        p.wf(),
        q.len() == 0,
        mt_reader::next(u.asked(), p, u.rest()) is Ended,
        accounted(v, w, done, q, u, p, bytes, count),
    ensures
        ({
            let x = v.told(u.answers);
            let all = reader::jobs_of(x);
            let out = mt_reader::outputs(all.jobs);
            &&& all.err is None
            &&& out is Ok
            &&& bytes == w + out->Ok_0
            &&& count == chunk::wrapping(0, (out->Ok_0).len() as int)
            &&& u.progress.total == v.progress.total
            &&& reader::after_jobs(x, all) == (ReaderView {
                progress: Progress { total: v.progress.total, ..p },
                ..u
            })
        }),
{
    assert(u.answers.is_prefix_of(u.answers));
    assert(u.told(u.answers) =~= u);
    let x = v.told(u.answers);
    let all = reader::jobs_of(x);
    assert(mt_reader::waiting(q) =~= Seq::<JobView>::empty());
    assert(all.jobs =~= done);
    assert(u.chunks + Seq::<(u8, Seq<u8>)>::empty() =~= u.chunks);
    assert(reader::after_jobs(x, all) =~= ReaderView {
        progress: Progress { total: v.progress.total, ..p },
        ..u
    });
}

} // verus!
