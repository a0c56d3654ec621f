//! Decoding with workers.
//!
//! One part reads the chunks in order and makes a job of each block. Workers decode
//! the blocks, in any order. Another part takes the results in the order of the jobs.
use crate::block;
use crate::block::decoded_len_chunk_body;
use crate::block::load_store::{append_range, append_slice, load32};
use crate::stream::chunk;
use crate::stream::chunk::{
    finish_chunk, unpack, Answer, Item, ItemView, Options, OptionsView, Plan, Progress,
};
use crate::stream::crc;
use crate::stream::crc::Crc32c;
use crate::stream::error::Error;
use crate::stream::format as layout;
use std::collections::VecDeque;
use vstd::prelude::*;

verus! {

/// A block to be decoded.
#[verifier::ext_equal]
pub enum JobView {
    /// A compressed block.
    Packed {
        /// The type of its chunk.
        kind: u8,
        /// Its checksum.
        sum: u32,
        /// Whether the checksum is left unchecked.
        ignore_crc: bool,
        /// The largest block that is accepted.
        max_block: usize,
        /// The body of the chunk behind the checksum.
        chunk: Seq<u8>,
    },
    /// A block that needs no decoding.
    Ready(Seq<u8>),
}

impl JobView {
    /// What the job gives.
    pub open spec fn result(self) -> Result<Seq<u8>, Error> {
        match self {
            JobView::Packed { kind, sum, ignore_crc, max_block, chunk } => chunk::unpacked(
                ignore_crc,
                max_block as int,
                kind,
                sum,
                chunk,
            ),
            JobView::Ready(b) => Ok(b),
        }
    }
}

/// A block to be decoded by a worker.
#[derive(Debug)]
pub enum DecodeJob {
    /// A compressed block.
    Packed {
        /// The type of its chunk.
        kind: u8,
        /// Its checksum.
        sum: u32,
        /// Whether the checksum is left unchecked.
        ignore_crc: bool,
        /// The largest block that is accepted.
        max_block: usize,
        /// The body of the chunk behind the checksum.
        chunk: Vec<u8>,
    },
    /// A block that needs no decoding.
    Ready(Vec<u8>),
}

impl View for DecodeJob {
    type V = JobView;

    open spec fn view(&self) -> JobView {
        match self {
            DecodeJob::Packed { kind, sum, ignore_crc, max_block, chunk } => JobView::Packed {
                kind: *kind,
                sum: *sum,
                ignore_crc: *ignore_crc,
                max_block: *max_block,
                chunk: chunk@,
            },
            DecodeJob::Ready(b) => JobView::Ready(b@),
        }
    }
}

impl DecodeJob {
    /// Decodes the block. This is what a worker does.
    pub fn run(self, sums: &Crc32c) -> (r: Result<Vec<u8>, Error>)
        ensures
            (match self@.result() {
                Ok(out) => r is Ok && (r->Ok_0)@ == out,
                Err(e) => r == Err::<Vec<u8>, Error>(e),
            }),
    {
        match self {
            DecodeJob::Packed { kind, sum, ignore_crc, max_block, chunk } => unpack(
                sums,
                ignore_crc,
                max_block,
                kind,
                sum,
                chunk.as_slice(),
            ),
            DecodeJob::Ready(b) => Ok(b),
        }
    }
}

/// What became of a chunk that was read for workers.
#[verifier::ext_equal]
pub enum DispatchedView {
    /// It holds a block.
    Job(JobView),
    /// It is something else.
    Other(ItemView),
}

/// What became of a chunk that was read for workers.
#[derive(Debug)]
pub enum Dispatched {
    /// It holds a block.
    Job(DecodeJob),
    /// It is something else.
    Other(Item),
}

impl View for Dispatched {
    type V = DispatchedView;

    open spec fn view(&self) -> DispatchedView {
        match self {
            Dispatched::Job(j) => DispatchedView::Job(j@),
            Dispatched::Other(i) => DispatchedView::Other(i@),
        }
    }
}

/// What the body of a chunk gives where workers decode: a compressed block is not
/// decoded, and only its length is looked at.
pub open spec fn dispatched(o: OptionsView, p: Progress, plan: Plan, kind: u8, body: Seq<u8>)
    -> Result<(Progress, DispatchedView), Error> {
    match plan {
        Plan::Compressed => match block::chunk_decoded_len(body.skip(4)) {
            Err(e) => Err(Error::Block(e)),
            Ok(d) => Ok(
                (
                    Progress { total: chunk::wrapping(p.total, d), ..p },
                    DispatchedView::Job(
                        JobView::Packed {
                            kind,
                            sum: crc::word_of(body),
                            ignore_crc: o.ignore_crc,
                            max_block: p.max_block,
                            chunk: body.skip(4),
                        },
                    ),
                ),
            ),
        },
        _ => match chunk::finished(o, p, plan, kind, body) {
            Err(e) => Err(e),
            Ok((p2, ItemView::Data(b))) => Ok((p2, DispatchedView::Job(JobView::Ready(b)))),
            Ok((p2, item)) => Ok((p2, DispatchedView::Other(item))),
        },
    }
}

/// Takes the body of a chunk: makes a job of a block, and moves the progress on. On an
/// error the progress stays as it is.
pub fn dispatch_chunk(
    o: &Options,
    p: &mut Progress,
    sums: &Crc32c,
    plan: Plan,
    kind: u8,
    body: &[u8],
) -> (r: Result<Dispatched, Error>)
    requires
        o@.wf(),
        old(p).wf(),
        chunk::suits(plan, kind, body.len() as int),
    ensures
        final(p).wf(),
        (match dispatched(o@, *old(p), plan, kind, body@) {
            Ok((p2, d)) => r is Ok && (r->Ok_0)@ == d && *final(p) == p2,
            Err(e) => r == Err::<Dispatched, Error>(e) && *final(p) == *old(p),
        }),
{
    if let Plan::Compressed = plan {
        let sum: u32 = load32(body, 0);
        let mut chunk: Vec<u8> = Vec::new();
        append_range(&mut chunk, body, 4, body.len() - 4);
        assert(chunk@ =~= body@.skip(4));
        return match decoded_len_chunk_body(chunk.as_slice()) {
            Err(e) => Err(Error::Block(e)),
            Ok(d) => {
                p.total = p.total.wrapping_add(d as u64);
                Ok(
                    Dispatched::Job(
                        DecodeJob::Packed {
                            kind,
                            sum,
                            ignore_crc: o.ignore_crc,
                            max_block: p.max_block,
                            chunk,
                        },
                    ),
                )
            },
        };
    }
    match finish_chunk(o, p, sums, plan, kind, body) {
        Err(e) => Err(e),
        Ok(Item::Data(b)) => Ok(Dispatched::Job(DecodeJob::Ready(b))),
        Ok(item) => Ok(Dispatched::Other(item)),
    }
}

/// What comes next in a stream where workers decode.
pub enum NextView {
    /// Nothing.
    Ended,
    /// A chunk that is not accepted, or less than one; so many bytes of it are read.
    Failed(int, Error),
    /// A chunk of so many bytes.
    Passed(int, Progress, DispatchedView),
    /// A user chunk of so many bytes to which the callback answers with an error.
    Refused(int, u8, Seq<u8>, Error),
}

/// What a chunk of `n` bytes comes to, once its callback has answered.
pub open spec fn answered(o: OptionsView, n: int, p: Progress, d: DispatchedView) -> NextView {
    match (d, o.answer) {
        (DispatchedView::Other(ItemView::User(id, b)), Err(e)) => NextView::Refused(n, id, b, e),
        _ => NextView::Passed(n, p, d),
    }
}

/// What comes next in the stream `s` where workers decode.
#[verifier::opaque]
pub open spec fn next(o: OptionsView, p: Progress, s: Seq<u8>) -> NextView {
    if s.len() == 0 && !p.expect_eof {
        NextView::Ended
    } else if s.len() < 4 {
        NextView::Failed(s.len() as int, Error::Corrupt)
    } else {
        let kind = s[0];
        let len = layout::chunk_len_of(s.skip(1));
        match chunk::planned(o, p, true, kind, len) {
            Err(e) => NextView::Failed(4, e),
            Ok(plan) => if s.len() - 4 < len {
                NextView::Failed(s.len() as int, Error::Corrupt)
            } else {
                match dispatched(o, p, plan, kind, s.subrange(4, 4 + len)) {
                    Err(e) => NextView::Failed(4 + len, e),
                    Ok((p2, d)) => answered(o, 4 + len, p2, d),
                }
            },
        }
    }
}

/// The jobs of a stream, and what else it gives.
pub struct JobsView {
    /// The jobs, in order.
    pub jobs: Seq<JobView>,
    /// The user chunks that are handed to callbacks.
    pub chunks: Seq<(u8, Seq<u8>)>,
    /// How many bytes of the stream are read.
    pub used: int,
    /// What is known of the stream at the end.
    pub progress: Progress,
    /// Why the stream was not read to its end.
    pub err: Option<Error>,
}

/// A chunk keeps the progress in order.
pub proof fn lemma_next(o: OptionsView, p: Progress, s: Seq<u8>)
    requires
        o.wf(),
        p.wf(),
    ensures
        (match next(o, p, s) {
            NextView::Passed(n, p2, _) => 4 <= n <= s.len() && p2.wf(),
            NextView::Failed(n, _) => 0 <= n <= s.len(),
            NextView::Refused(n, _, _, _) => 4 <= n <= s.len(),
            NextView::Ended => s.len() == 0,
        }),
{
    reveal(next);
    if s.len() >= 4 {
        let len = layout::chunk_len_of(s.skip(1));
        if let Ok(plan) = chunk::planned(o, p, true, s[0], len) {
            if s.len() - 4 >= len {
                crate::stream::reader::lemma_finished(o, p, plan, s[0], s.subrange(4, 4 + len));
            }
        }
    }
}

/// The user chunk that a chunk is.
pub open spec fn handed(d: DispatchedView) -> Seq<(u8, Seq<u8>)> {
    match d {
        DispatchedView::Other(ItemView::User(id, b)) => seq![(id, b)],
        _ => Seq::empty(),
    }
}

/// The job that is made of a chunk.
pub open spec fn job_of(d: DispatchedView) -> Seq<JobView> {
    match d {
        DispatchedView::Job(j) => seq![j],
        _ => Seq::empty(),
    }
}

/// The answers that are left behind a chunk.
pub open spec fn left(a: Seq<Answer>, d: DispatchedView) -> Seq<Answer> {
    match d {
        DispatchedView::Other(ItemView::User(_, _)) => chunk::later_answers(a),
        _ => a,
    }
}

/// The jobs of the stream `s`, where callbacks answer `a`.
pub open spec fn jobs(o: OptionsView, a: Seq<Answer>, p: Progress, s: Seq<u8>) -> JobsView
    decreases s.len(),
{
    let none = JobsView {
        jobs: Seq::empty(),
        chunks: Seq::empty(),
        used: 0,
        progress: p,
        err: None,
    };
    let now = o.answering(chunk::first_answer(a));
    if !o.wf() || !p.wf() {
        none
    } else {
        proof {
            lemma_next(now, p, s);
        }
        match next(now, p, s) {
            NextView::Ended => none,
            NextView::Failed(n, e) => JobsView { used: n, err: Some(e), ..none },
            NextView::Refused(n, id, b, e) => JobsView {
                chunks: seq![(id, b)],
                used: n,
                err: Some(e),
                ..none
            },
            NextView::Passed(n, p2, d) => {
                let rest = jobs(o, left(a, d), p2, s.skip(n));
                JobsView {
                    jobs: job_of(d) + rest.jobs,
                    chunks: handed(d) + rest.chunks,
                    used: n + rest.used,
                    ..rest
                }
            },
        }
    }
}

/// The results of jobs one after the other, or the first error.
pub open spec fn outputs(js: Seq<JobView>) -> Result<Seq<u8>, Error>
    decreases js.len(),
{
    if js.len() == 0 {
        Ok(Seq::empty())
    } else {
        match outputs(js.drop_last()) {
            Err(e) => Err(e),
            Ok(before) => match js.last().result() {
                Err(e) => Err(e),
                Ok(out) => Ok(before + out),
            },
        }
    }
}

/// The sink of decoded blocks, which come in the order of the jobs.
#[derive(Debug)]
pub struct DecodeSink {
    out: Vec<u8>,
    written: u64,
}

impl DecodeSink {
    /// What the sink holds.
    pub closed spec fn bytes(&self) -> Seq<u8> {
        self.out@
    }

    /// How many bytes were written to the sink.
    pub closed spec fn count(&self) -> u64 {
        self.written
    }

    /// A sink that puts blocks behind what `out` holds.
    pub fn new(out: Vec<u8>) -> (r: Self)
        ensures
            r.bytes() == out@,
            r.count() == 0,
    {
        DecodeSink { out, written: 0 }
    }

    /// Takes the result of the next job.
    pub fn put(&mut self, result: Result<Vec<u8>, Error>) -> (r: Result<(), Error>)
        ensures
            (match result {
                Ok(b) => {
                    &&& r is Ok
                    &&& final(self).bytes() == old(self).bytes() + b@
                    &&& final(self).count() == chunk::wrapping(old(self).count(), b@.len() as int)
                },
                Err(e) => {
                    &&& r == Err::<(), Error>(e)
                    &&& final(self).bytes() == old(self).bytes()
                    &&& final(self).count() == old(self).count()
                },
            }),
    {
        match result {
            Err(e) => Err(e),
            Ok(b) => {
                append_slice(&mut self.out, b.as_slice());
                self.written = self.written.wrapping_add(b.len() as u64);
                Ok(())
            },
        }
    }

    /// Returns the sink and how many bytes were written to it.
    pub fn finish(self) -> (r: ConcurrentDecode)
        ensures
            r.writer@ == self.bytes(),
            r.bytes_written == self.count(),
    {
        ConcurrentDecode { bytes_written: self.written, writer: self.out }
    }
}

/// What decoding with workers gives.
#[derive(Debug)]
pub struct ConcurrentDecode {
    /// How many bytes were written.
    pub bytes_written: u64,
    /// The sink.
    pub writer: Vec<u8>,
}

/// An error among the first jobs is the error of all.
pub proof fn lemma_outputs_prefix(a: Seq<JobView>, b: Seq<JobView>)
    requires
        outputs(a) is Err,
    ensures
        outputs(a + b) == outputs(a),
    decreases b.len(),
{
    if b.len() == 0 {
        assert(a + b =~= a);
    } else {
        lemma_outputs_prefix(a, b.drop_last());
        assert((a + b).drop_last() =~= a + b.drop_last());
    }
}

/// The jobs that wait for a worker.
pub open spec fn waiting(q: Seq<DecodeJob>) -> Seq<JobView> {
    q.map_values(|j: DecodeJob| j@)
}

/// Runs the first job that waits, and takes its result.
pub fn run_first(q: &mut VecDeque<DecodeJob>, sink: &mut DecodeSink, sums: &Crc32c) -> (r: Result<
    (),
    Error,
>)
    requires
        old(q)@.len() > 0,
    ensures
        final(q)@ == old(q)@.skip(1),
        (match old(q)@[0]@.result() {
            Ok(out) => {
                &&& r is Ok
                &&& final(sink).bytes() == old(sink).bytes() + out
                &&& final(sink).count() == chunk::wrapping(old(sink).count(), out.len() as int)
            },
            Err(e) => r == Err::<(), Error>(e),
        }),
{
    match q.pop_front() {
        None => Ok(()),
        Some(job) => {
            assert(q@ =~= old(q)@.skip(1));
            sink.put(job.run(sums))
        },
    }
}

} // verus!
