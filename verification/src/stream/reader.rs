//! The stream reader.
//!
//! What callbacks answer to user chunks is known once they were asked. So what a call does
//! is stated of the reader as it was before, where callbacks answer what they have answered
//! when the call ends: [`ReaderView::told`] with the [`ReaderView::answers`] at the end.
use crate::block;
use crate::block::decoded_len_chunk_body;
use crate::block::load_store::append_range;
use crate::stream::accounts;
use crate::stream::chunk;
use crate::stream::chunk::{
    as_callback, ask, finish_chunk, plan_chunk, Answer, Callbacks, Item, ItemView, Options, OptionsView, Plan, Progress,
    UserChunkCb, UserChunkHandler, USER_CB_COUNT,
};
use crate::stream::crc::Crc32c;
use crate::stream::error::Error;
use crate::stream::format as layout;
use crate::stream::mt_reader;
use crate::stream::mt_reader::{
    dispatch_chunk, run_first, ConcurrentDecode, DecodeJob, DecodeSink, Dispatched, JobView,
    NextView,
};
use crate::stream::format::{
    read_chunk_len, CHUNK_TYPE_EOF, MAX_BLOCK_SIZE, MAX_USER_NON_SKIPPABLE_CHUNK, MIN_USER_SKIPPABLE_CHUNK,
};
use std::collections::VecDeque;
use vstd::prelude::*;
use vstd::slice::slice_subrange;

verus! {

/// The options of a reader where none are given.
pub open spec fn default_options() -> OptionsView {
    OptionsView {
        max_block_size: MAX_BLOCK_SIZE,
        ignore_stream_id: false,
        ignore_crc: false,
        callbacks: Seq::new(USER_CB_COUNT as nat, |i: int| None),
        answer: Ok(()),
    }
}

/// Builder for the options of a [`Reader`].
#[must_use]
pub struct ReaderBuilder {
    options: Options,
}

impl View for ReaderBuilder {
    type V = OptionsView;

    closed spec fn view(&self) -> OptionsView {
        self.options@
    }
}

impl Default for ReaderBuilder {
    fn default() -> (r: Self)
        ensures
            r@ == default_options(),
    {
        let mut callbacks: Vec<Option<UserChunkCb>> = Vec::new();
        while callbacks.len() < USER_CB_COUNT
            invariant
                callbacks@.len() <= USER_CB_COUNT,
                forall|i: int| 0 <= i < callbacks@.len() ==> #[trigger] callbacks@[i] is None,
            decreases USER_CB_COUNT - callbacks@.len(),
        {
            callbacks.push(None);
        }
        let r = ReaderBuilder {
            options: Options {
                max_block_size: MAX_BLOCK_SIZE,
                ignore_stream_id: false,
                ignore_crc: false,
                callbacks,
            },
        };
        assert(r@.callbacks =~= default_options().callbacks);
        r
    }
}

impl ReaderBuilder {
    #[verifier::type_invariant]
    spec fn inv(self) -> bool {
        self.options@.wf()
    }

    /// A builder with the default options.
    pub fn new() -> (r: Self)
        ensures
            r@ == default_options(),
    {
        Self::default()
    }

    /// Limits the uncompressed size of the blocks that the reader accepts.
    pub fn max_block_size(self, n: usize) -> (r: Self)
        requires
            0 < n <= MAX_BLOCK_SIZE,
        ensures
            r@ == (OptionsView { max_block_size: n, ..self@ }),
    {
        proof {
            use_type_invariant(&self);
        }
        let mut o: Options = self.options;
        o.max_block_size = n;
        ReaderBuilder { options: o }
    }

    /// Lets the stream start in its middle, and its total size go unchecked.
    pub fn ignore_stream_id(self) -> (r: Self)
        ensures
            r@ == (OptionsView { ignore_stream_id: true, ..self@ }),
    {
        proof {
            use_type_invariant(&self);
        }
        let mut o: Options = self.options;
        o.ignore_stream_id = true;
        ReaderBuilder { options: o }
    }

    /// Lets checksums go unchecked.
    pub fn ignore_crc(self) -> (r: Self)
        ensures
            r@ == (OptionsView { ignore_crc: true, ..self@ }),
    {
        proof {
            use_type_invariant(&self);
        }
        let mut o: Options = self.options;
        o.ignore_crc = true;
        ReaderBuilder { options: o }
    }

    /// Sets the callback for user chunks of type `id`, in place of one that was set before.
    ///
    /// It gets the type and the payload of each such chunk, in their order. Where it
    /// answers with an error, reading ends with that error.
    pub fn user_chunk_callback<F: UserChunkHandler + 'static>(self, id: u8, cb: F) -> (r: Self)
        requires
            MIN_USER_SKIPPABLE_CHUNK <= id <= MAX_USER_NON_SKIPPABLE_CHUNK,
        ensures
            r@ == self@.having(r@.callbacks),
            r@.callbacks[id - MIN_USER_SKIPPABLE_CHUNK] == Some(as_callback(cb)),
            chunk::same_but(self@.callbacks, r@.callbacks, id - MIN_USER_SKIPPABLE_CHUNK),
    {
        proof {
            use_type_invariant(&self);
        }
        let mut o: Options = self.options;
        let boxed: UserChunkCb = Box::new(cb);
        let i: usize = (id - MIN_USER_SKIPPABLE_CHUNK) as usize;
        o.callbacks[i] = Some(boxed);
        ReaderBuilder { options: o }
    }

    /// Makes a reader of the stream `source`.
    pub fn build(self, source: Vec<u8>) -> (r: Reader)
        ensures
            r@ == fresh(self@, source@),
            r.callbacks() == self@.callbacks,
            r.wf(),
    {
        proof {
            use_type_invariant(&self);
        }
        Reader::with_options(source, self.options)
    }
}

/// What a reader holds.
#[verifier::ext_equal]
pub struct ReaderView {
    /// The options.
    pub options: OptionsView,
    /// What is known of the stream.
    pub progress: Progress,
    /// The whole source.
    pub source: Seq<u8>,
    /// How much of the source was read.
    pub at: int,
    /// The offset of the current block in the uncompressed stream.
    pub block_start: u64,
    /// The current block.
    pub block: Seq<u8>,
    /// How much of the current block was handed out.
    pub pos: int,
    /// The user chunks that callbacks were called with.
    pub chunks: Seq<(u8, Seq<u8>)>,
    /// What callbacks answer to user chunks, from the first one on.
    pub answers: Seq<Answer>,
    /// Whether data came up, to be read or skipped.
    pub begun: bool,
    /// The error that every call returns from now on.
    pub err: Option<Error>,
}

impl ReaderView {
    /// What is not read yet.
    pub open spec fn rest(self) -> Seq<u8> {
        self.source.skip(self.at)
    }

    /// What of the current block was not handed out yet.
    pub open spec fn pending(self) -> Seq<u8> {
        self.block.skip(self.pos)
    }

    /// The reader with the current block handed out.
    pub open spec fn emptied(self) -> ReaderView {
        ReaderView { pos: self.block.len() as int, ..self }
    }

    /// The reader that has read all of its source.
    pub open spec fn at_end(self) -> ReaderView {
        ReaderView { at: self.source.len() as int, ..self }
    }

    /// The reader that has failed for good.
    pub open spec fn failed(self, n: int, e: Error) -> ReaderView {
        ReaderView { at: self.at + n, err: Some(e), ..self }
    }

    /// The reader that has failed at a user chunk.
    pub open spec fn refused(self, n: int, id: u8, b: Seq<u8>, e: Error) -> ReaderView {
        ReaderView { at: self.at + n, chunks: self.chunks.push((id, b)), err: Some(e), ..self }
    }

    /// The reader where callbacks answer `a`.
    pub open spec fn told(self, a: Seq<Answer>) -> ReaderView {
        ReaderView { answers: a, ..self }
    }

    /// The answers are those to the user chunks that were handed to callbacks.
    pub open spec fn settled(self) -> bool {
        self.answers.len() == self.chunks.len()
    }

    /// The answers to the user chunks to come.
    pub open spec fn ahead(self) -> Seq<Answer> {
        if self.chunks.len() < self.answers.len() {
            self.answers.skip(self.chunks.len() as int)
        } else {
            Seq::empty()
        }
    }

    /// The options for the next chunk.
    pub open spec fn asked(self) -> OptionsView {
        self.options.answering(chunk::first_answer(self.ahead()))
    }

    /// Positions are in range, the total is where the current block ends, and a block
    /// with data in it counts as data that came up.
    pub open spec fn wf(self) -> bool {
        &&& self.options.wf()
        &&& self.progress.wf()
        &&& 0 <= self.at <= self.source.len()
        &&& 0 <= self.pos <= self.block.len()
        &&& self.progress.total == chunk::wrapping(self.block_start, self.block.len() as int)
        &&& self.block.len() > 0 ==> self.begun
    }
}

/// A reader that has read nothing.
pub open spec fn fresh(o: OptionsView, source: Seq<u8>) -> ReaderView {
    ReaderView {
        options: o,
        progress: chunk::at_start(o),
        source,
        at: 0,
        block_start: 0,
        block: Seq::empty(),
        pos: 0,
        chunks: Seq::empty(),
        answers: Seq::empty(),
        begun: false,
        err: None,
    }
}

/// What comes next in a stream.
pub enum Step {
    /// Nothing.
    Ended,
    /// Less than the header of a chunk.
    Short,
    /// A chunk that is not accepted; so many bytes of it are read.
    Failed(int, Error),
    /// A chunk of so many bytes.
    Passed(int, Progress, ItemView),
    /// A user chunk of so many bytes to which the callback answers with an error.
    Refused(int, u8, Seq<u8>, Error),
    /// A data chunk of so many bytes that is passed over; it holds so many bytes of
    /// data.
    Dropped(int, int),
}

/// What a chunk of `n` bytes comes to, once its callback has answered.
pub open spec fn answered(o: OptionsView, n: int, p: Progress, item: ItemView) -> Step {
    match (item, o.answer) {
        (ItemView::User(id, b), Err(e)) => Step::Refused(n, id, b, e),
        _ => Step::Passed(n, p, item),
    }
}

/// What comes next in the stream `s`.
#[verifier::opaque]
pub open spec fn step(o: OptionsView, p: Progress, s: Seq<u8>) -> Step {
    if s.len() == 0 && !p.expect_eof {
        Step::Ended
    } else if s.len() < 4 {
        Step::Short
    } else {
        let kind = s[0];
        let len = layout::chunk_len_of(s.skip(1));
        match chunk::planned(o, p, false, kind, len) {
            Err(e) => Step::Failed(4, e),
            Ok(plan) => if s.len() - 4 < len {
                Step::Failed(s.len() as int, Error::Corrupt)
            } else {
                match chunk::finished(o, p, plan, kind, s.subrange(4, 4 + len)) {
                    Err(e) => Step::Failed(4 + len, e),
                    Ok((p2, item)) => answered(o, 4 + len, p2, item),
                }
            },
        }
    }
}

/// The reader behind a chunk of `n` bytes.
pub open spec fn moved(v: ReaderView, n: int, p: Progress, item: ItemView) -> ReaderView {
    let w = ReaderView { at: v.at + n, progress: p, ..v };
    match item {
        ItemView::Data(b) => ReaderView {
            block_start: v.progress.total,
            block: b,
            pos: 0,
            begun: v.begun || b.len() > 0,
            ..w
        },
        ItemView::Start => ReaderView { block_start: 0, block: Seq::empty(), pos: 0, ..w },
        ItemView::User(id, b) => ReaderView { chunks: v.chunks.push((id, b)), ..w },
        ItemView::End | ItemView::Skipped => w,
    }
}

/// The reader `w` is the reader `v` once it has taken what comes next, with the type of
/// the chunk, if there was one.
pub open spec fn advanced(
    v: ReaderView,
    s: Step,
    w: ReaderView,
    r: Result<Option<u8>, Error>,
) -> bool {
    match s {
        Step::Ended => r == Ok::<Option<u8>, Error>(None) && w == v.at_end(),
        Step::Short => r == Err::<Option<u8>, Error>(Error::Corrupt) && w == v.at_end(),
        Step::Failed(n, e) => r == Err::<Option<u8>, Error>(e) && w == v.failed(n, e),
        Step::Refused(n, id, b, e) => r == Err::<Option<u8>, Error>(e) && w == v.refused(
            n,
            id,
            b,
            e,
        ),
        Step::Passed(n, p, item) => r == Ok::<Option<u8>, Error>(Some(v.rest()[0])) && w == moved(
            v,
            n,
            p,
            item,
        ),
        Step::Dropped(_, _) => false,
    }
}

/// The reader once it has data to hand out, with whether there is any.
pub open spec fn filled(v: ReaderView) -> (ReaderView, Result<bool, Error>)
    decreases v.source.len() - v.at,
{
    if v.pos < v.block.len() || !v.wf() {
        (v, Ok(true))
    } else {
        proof {
            lemma_step(v);
        }
        match step(v.asked(), v.progress, v.rest()) {
            Step::Ended => (v.at_end(), Ok(false)),
            Step::Short => (v.at_end(), Err(Error::Corrupt)),
            Step::Failed(n, e) => (v.failed(n, e), Err(e)),
            Step::Refused(n, id, b, e) => (v.refused(n, id, b, e), Err(e)),
            Step::Passed(n, p, item) => filled(moved(v, n, p, item)),
            Step::Dropped(_, _) => (v, Ok(true)),
        }
    }
}

/// What is read to the end of a stream.
pub struct Drained {
    /// The reader at the end.
    pub reader: ReaderView,
    /// The data.
    pub data: Seq<u8>,
    /// Why it ended, where not at the end of the source.
    pub err: Option<Error>,
}

/// What reading to the end gives.
#[verifier::opaque]
pub open spec fn drained(v: ReaderView) -> Drained
    decreases v.source.len() - v.at,
{
    let u = v.emptied();
    if !v.wf() {
        Drained { reader: u, data: v.pending(), err: None }
    } else {
        proof {
            lemma_step(v);
        }
        match step(v.asked(), v.progress, v.rest()) {
            Step::Ended => Drained { reader: u.at_end(), data: v.pending(), err: None },
            Step::Short => Drained {
                reader: u.at_end(),
                data: v.pending(),
                err: Some(Error::Corrupt),
            },
            Step::Failed(n, e) => Drained {
                reader: u.failed(n, e),
                data: v.pending(),
                err: Some(e),
            },
            Step::Refused(n, id, b, e) => Drained {
                reader: u.refused(n, id, b, e),
                data: v.pending(),
                err: Some(e),
            },
            Step::Passed(n, p, item) => {
                let d = drained(moved(u, n, p, item));
                Drained { data: v.pending() + d.data, ..d }
            },
            Step::Dropped(_, _) => Drained { reader: u, data: v.pending(), err: None },
        }
    }
}

/// A chunk read keeps the reader in order.
pub proof fn lemma_step(v: ReaderView)
    requires
        v.wf(),
    ensures
        (match step(v.asked(), v.progress, v.rest()) {
            Step::Passed(n, p, item) => {
                &&& 4 <= n <= v.rest().len()
                &&& p.wf()
                &&& v.pos == v.block.len() ==> moved(v, n, p, item).wf()
                &&& moved(v.emptied(), n, p, item).wf()
                &&& item is End <==> v.rest()[0] == CHUNK_TYPE_EOF
            },
            Step::Failed(n, _) => 4 <= n <= v.rest().len(),
            Step::Refused(n, _, _, _) => 4 <= n <= v.rest().len(),
            Step::Dropped(_, _) => false,
            _ => true,
        }),
{
    reveal(step);
    let s = v.rest();
    if s.len() >= 4 {
        let len = layout::chunk_len_of(s.skip(1));
        if let Ok(plan) = chunk::planned(v.options, v.progress, false, s[0], len) {
            if s.len() - 4 >= len {
                lemma_finished(v.options, v.progress, plan, s[0], s.subrange(4, 4 + len));
            }
        }
    }
}

/// How a chunk is handled does not depend on what callbacks answer.
pub proof fn lemma_planned(
    o: OptionsView,
    x: Answer,
    p: Progress,
    concurrent: bool,
    kind: u8,
    len: int,
)
    ensures
        chunk::planned(o.answering(x), p, concurrent, kind, len) == chunk::planned(
            o,
            p,
            concurrent,
            kind,
            len,
        ),
{
    assert(o.answering(x).callback(kind) == o.callback(kind));
}

/// How a chunk is handled depends only on the types for which there is a callback.
proof fn lemma_planned_types(
    o: OptionsView,
    cbs: Callbacks,
    p: Progress,
    concurrent: bool,
    kind: u8,
    len: int,
)
    requires
        o.wf(),
        chunk::same_types(o.callbacks, cbs),
    ensures
        chunk::planned(o.having(cbs), p, concurrent, kind, len) == chunk::planned(
            o,
            p,
            concurrent,
            kind,
            len,
        ),
{
    if chunk::is_user(kind) {
        let i = kind - MIN_USER_SKIPPABLE_CHUNK;
        assert(o.callbacks[i] is Some <==> cbs[i] is Some);
    }
}

/// What comes next, by the header of the chunk and then by its body.
proof fn lemma_head_step(v: ReaderView)
    requires
        v.wf(),
    ensures
        ({
            let s = v.rest();
            let next = step(v.asked(), v.progress, s);
            let len = layout::chunk_len_of(s.skip(1));
            if s.len() < 4 {
                next == if s.len() == 0 && !v.progress.expect_eof {
                    Step::Ended
                } else {
                    Step::Short
                }
            } else {
                match chunk::planned(v.options, v.progress, false, s[0], len) {
                    Err(e) => next == Step::Failed(4, e),
                    Ok(plan) => if s.len() - 4 < len {
                        next == Step::Failed(s.len() as int, Error::Corrupt)
                    } else {
                        let body = v.source.subrange(v.at + 4, v.at + 4 + len);
                        next == match chunk::finished(v.asked(), v.progress, plan, s[0], body) {
                            Err(e) => Step::Failed(4 + len, e),
                            Ok((p, item)) => answered(v.asked(), 4 + len, p, item),
                        }
                    },
                }
            }
        }),
{
    reveal(step);
    let s = v.rest();
    if s.len() >= 4 {
        let len = layout::chunk_len_of(s.skip(1));
        lemma_planned(v.options, v.asked().answer, v.progress, false, s[0], len);
        if s.len() - 4 >= len {
            assert(v.source.subrange(v.at + 4, v.at + 4 + len) =~= s.subrange(4, 4 + len));
        }
    }
}

/// What comes next depends on the answer only where it is a user chunk.
pub proof fn lemma_step_told(v: ReaderView, a: Seq<Answer>, b: Seq<Answer>)
    requires
        a.is_prefix_of(b),
        (match step(v.told(a).asked(), v.progress, v.rest()) {
            Step::Refused(_, _, _, _) => v.chunks.len() < a.len(),
            Step::Passed(_, _, ItemView::User(_, _)) => v.chunks.len() < a.len(),
            _ => true,
        }),
    ensures
        step(v.told(b).asked(), v.progress, v.rest()) == step(
            v.told(a).asked(),
            v.progress,
            v.rest(),
        ),
{
    reveal(step);
    let x = v.told(a).asked();
    let y = v.told(b).asked();
    if v.chunks.len() < a.len() {
        assert(b[v.chunks.len() as int] == a[v.chunks.len() as int]);
        assert(x =~= y);
    } else if v.rest().len() >= 4 {
        let s = v.rest();
        let len = layout::chunk_len_of(s.skip(1));
        lemma_planned(v.options, x.answer, v.progress, false, s[0], len);
        lemma_planned(v.options, y.answer, v.progress, false, s[0], len);
    }
}

/// A chunk that was taken is taken likewise whatever callbacks answer later.
proof fn lemma_advanced_told(
    v: ReaderView,
    w: ReaderView,
    r: Result<Option<u8>, Error>,
    a: Seq<Answer>,
)
    requires
        v.wf(),
        v.settled(),
        w.settled(),
        v.answers.is_prefix_of(w.answers),
        w.answers.is_prefix_of(a),
        ({
            let u = v.told(w.answers);
            advanced(u, step(u.asked(), u.progress, u.rest()), w, r)
        }),
    ensures
        ({
            let u = v.told(a);
            advanced(u, step(u.asked(), u.progress, u.rest()), w.told(a), r)
        }),
{
    let u = v.told(w.answers);
    assert(u.rest() == v.rest());
    assert(v.told(a).rest() == v.rest());
    lemma_step_told(v, w.answers, a);
}

/// The body of a chunk keeps the progress in order.
pub proof fn lemma_finished(o: OptionsView, p: Progress, plan: Plan, kind: u8, body: Seq<u8>)
    requires
        o.wf(),
        p.wf(),
        chunk::suits(plan, kind, body.len() as int),
    ensures
        (match chunk::finished(o, p, plan, kind, body) {
            Ok((p2, item)) => {
                &&& p2.wf()
                &&& match item {
                    ItemView::Data(b) => p2 == (Progress {
                        total: chunk::wrapping(p.total, b.len() as int),
                        ..p
                    }),
                    ItemView::Start => p2.total == 0,
                    _ => p2.total == p.total,
                }
            },
            Err(_) => true,
        }),
{
    if plan is Start {
        layout::lemma_size_of_indicator(body[5]);
    }
}

/// What a chunk is does not depend on what callbacks answer.
pub proof fn lemma_finished_answer(
    o: OptionsView,
    x: Answer,
    p: Progress,
    plan: Plan,
    kind: u8,
    body: Seq<u8>,
)
    ensures
        chunk::finished(o.answering(x), p, plan, kind, body) == chunk::finished(
            o,
            p,
            plan,
            kind,
            body,
        ),
{
}

/// What a chunk is does not depend on the callbacks.
proof fn lemma_finished_callbacks(
    o: OptionsView,
    cbs: Callbacks,
    p: Progress,
    plan: Plan,
    kind: u8,
    body: Seq<u8>,
)
    ensures
        chunk::finished(o.having(cbs), p, plan, kind, body) == chunk::finished(
            o,
            p,
            plan,
            kind,
            body,
        ),
{
}

/// A reader of a stream of chunks.
///
/// It reads from bytes in memory.
pub struct Reader {
    options: Options,
    first: Ghost<Callbacks>,
    progress: Progress,
    sums: Crc32c,
    source: Vec<u8>,
    at: usize,
    block_start: u64,
    block: Vec<u8>,
    pos: usize,
    chunks: Ghost<Seq<(u8, Seq<u8>)>>,
    answers: Ghost<Seq<Answer>>,
    begun: bool,
    err: Option<Error>,
}

impl View for Reader {
    type V = ReaderView;

    closed spec fn view(&self) -> ReaderView {
        ReaderView {
            options: self.options@.having(self.first@),
            progress: self.progress,
            source: self.source@,
            at: self.at as int,
            block_start: self.block_start,
            block: self.block@,
            pos: self.pos as int,
            chunks: self.chunks@,
            answers: self.answers@,
            begun: self.begun,
            err: self.err,
        }
    }
}

impl Reader {
    /// The reader is in order.
    ///
    /// The callbacks were called with the user chunks that came up, and gave the answers.
    pub open spec fn wf(&self) -> bool {
        &&& self@.wf()
        &&& self@.settled()
        &&& chunk::took(self@.options.callbacks, self@.chunks, self@.answers, self.callbacks())
    }

    /// The callbacks as they are now.
    pub closed spec fn callbacks(&self) -> Callbacks {
        self.options.callbacks@
    }

    /// A reader of the stream `source` with the default options.
    pub fn new(source: Vec<u8>) -> (r: Self)
        ensures
            r@ == fresh(default_options(), source@),
            r.callbacks() == default_options().callbacks,
            r.wf(),
    {
        ReaderBuilder::new().build(source)
    }

    /// The options as they are now.
    proof fn lemma_options(&self)
        requires
            self.wf(),
        ensures
            self.options@ == self@.options.having(self.callbacks()),
            self.options@.wf(),
            chunk::same_types(self@.options.callbacks, self.callbacks()),
    {
        chunk::lemma_took_types(
            self@.options.callbacks,
            self@.chunks,
            self@.answers,
            self.callbacks(),
        );
    }

    fn with_options(source: Vec<u8>, options: Options) -> (r: Self)
        requires
            options@.wf(),
        ensures
            r@ == fresh(options@, source@),
            r.callbacks() == options@.callbacks,
            r.wf(),
    {
        let progress = chunk::start(&options);
        let r = Reader {
            options,
            first: Ghost(options.callbacks@),
            progress,
            sums: Crc32c::new(),
            source,
            at: 0,
            block_start: 0,
            block: Vec::new(),
            pos: 0,
            chunks: Ghost(Seq::empty()),
            answers: Ghost(Seq::empty()),
            begun: false,
            err: None,
        };
        proof {
            assert(r@ =~= fresh(options@, source@));
            chunk::lemma_took_none(options.callbacks@);
        }
        r
    }

    /// Starts over with the stream `source`; the options stay, and so do the callbacks, as
    /// they are now.
    pub fn reset(&mut self, source: Vec<u8>)
        requires
            old(self).wf(),
        ensures
            final(self)@ == fresh(old(self)@.options.having(old(self).callbacks()), source@),
            final(self).callbacks() == old(self).callbacks(),
            final(self).wf(),
    {
        proof {
            self.lemma_options();
        }
        self.first = Ghost(self.options.callbacks@);
        self.progress = chunk::start(&self.options);
        self.source = source;
        self.at = 0;
        self.block_start = 0;
        self.block.clear();
        self.pos = 0;
        self.chunks = Ghost(Seq::empty());
        self.answers = Ghost(Seq::empty());
        self.begun = false;
        self.err = None;
        proof {
            assert(self@ =~= fresh(old(self)@.options.having(old(self).callbacks()), source@));
            chunk::lemma_took_none(self.callbacks());
        }
    }

    /// The offset of the current block in the uncompressed stream.
    pub fn block_start(&self) -> (r: u64)
        ensures
            r == self@.block_start,
    {
        self.block_start
    }

    /// The offset in the uncompressed stream of the next byte that is read.
    pub fn current_offset(&self) -> (r: u64)
        ensures
            r == chunk::wrapping(self@.block_start, self@.pos),
    {
        self.block_start.wrapping_add(self.pos as u64)
    }
}

/// Copies `n` bytes of `src`, from `from` on, to the place `at` of `dst`.
fn copy_into(dst: &mut [u8], at: usize, src: &[u8], from: usize, n: usize)
    requires
        at + n <= old(dst)@.len(),
        from + n <= src.len(),
    ensures
        final(dst)@ == old(dst)@.take(at as int) + src@.subrange(from as int, from + n)
            + old(dst)@.skip(at + n),
{
    let end: usize = dst.len();
    let mut i: usize = 0;
    while i < n
        invariant
            i <= n,
            end == old(dst)@.len(),
            at + n <= end,
            from + n <= src.len(),
            dst@.len() == old(dst)@.len(),
            forall|k: int|
                0 <= k < dst@.len() ==> #[trigger] dst@[k] == if at <= k < at + i {
                    src@[from + k - at]
                } else {
                    old(dst)@[k]
                },
        decreases n - i,
    {
        dst[at + i] = src[from + i];
        i = i + 1;
    }
    assert(dst@ =~= old(dst)@.take(at as int) + src@.subrange(from as int, from + n)
        + old(dst)@.skip(at + n));
}

/// What a reader can be read to, its errors, and what else it promises of a
/// `read` into `p`.
pub open spec fn read_some(
    v: ReaderView,
    p: Seq<u8>,
    w: ReaderView,
    q: Seq<u8>,
    r: Result<usize, Error>,
) -> bool {
    if let Some(e) = v.err {
        r == Err::<usize, Error>(e) && w == v && q == p
    } else if p.len() == 0 {
        r == Ok::<usize, Error>(0) && w == v && q == p
    } else {
        let (u, f) = filled(v);
        match f {
            Err(e) => r == Err::<usize, Error>(e) && w == u && q == p,
            Ok(false) => r == Ok::<usize, Error>(0) && w == u && q == p,
            Ok(true) => {
                let n = if u.pending().len() < p.len() {
                    u.pending().len() as int
                } else {
                    p.len() as int
                };
                &&& r == Ok::<usize, Error>(n as usize)
                &&& 0 < n
                &&& w == ReaderView { pos: u.pos + n, ..u }
                &&& q == u.pending().take(n) + p.skip(n)
            },
        }
    }
}

impl Reader {
    /// Reads the next chunk: its type, if there was one.
    fn next_chunk(&mut self) -> (r: Result<Option<u8>, Error>)
        requires
            old(self).wf(),
            old(self)@.pos == old(self)@.block.len(),
        ensures
            final(self).wf(),
            old(self)@.answers.is_prefix_of(final(self)@.answers),
            ({
                let v = old(self)@.told(final(self)@.answers);
                advanced(v, step(v.asked(), v.progress, v.rest()), final(self)@, r)
            }),
    {
        let ghost v = self@;
        let ghost s = v.rest();
        proof {
            assert(v.told(v.answers) =~= v);
            lemma_head_step(v);
        }
        let left: usize = self.source.len() - self.at;
        if left < 4 {
            let ended: bool = left == 0 && !self.progress.expect_eof;
            self.at = self.source.len();
            assert(self@ =~= v.at_end());
            return if ended {
                Ok(None)
            } else {
                Err(Error::Corrupt)
            };
        }
        let kind: u8 = self.source[self.at];
        let len: usize = read_chunk_len(
            slice_subrange(self.source.as_slice(), self.at + 1, self.at + 4),
        );
        assert(len == layout::chunk_len_of(s.skip(1)));
        match self.take_chunk(kind, len) {
            Err(e) => Err(e),
            Ok(()) => Ok(Some(kind)),
        }
    }

    /// Reads the next chunk, of type `kind`, whose body has `len` bytes.
    fn take_chunk(&mut self, kind: u8, len: usize) -> (r: Result<(), Error>)
        requires
            old(self).wf(),
            old(self)@.pos == old(self)@.block.len(),
            old(self)@.rest().len() >= 4,
            kind == old(self)@.rest()[0],
            len == layout::chunk_len_of(old(self)@.rest().skip(1)),
        ensures
            final(self).wf(),
            old(self)@.answers.is_prefix_of(final(self)@.answers),
            ({
                let v = old(self)@.told(final(self)@.answers);
                match step(v.asked(), v.progress, v.rest()) {
                    Step::Failed(n, e) => r == Err::<(), Error>(e) && final(self)@ == v.failed(n, e),
                    Step::Refused(n, id, b, e) => {
                        &&& r == Err::<(), Error>(e)
                        &&& final(self)@ == v.refused(n, id, b, e)
                    },
                    Step::Passed(n, p, item) => r is Ok && final(self)@ == moved(v, n, p, item),
                    _ => false,
                }
            }),
    {
        let ghost v = self@;
        proof {
            assert(v.told(v.answers) =~= v);
            lemma_head_step(v);
        }
        proof {
            self.lemma_options();
            lemma_planned_types(v.options, self.callbacks(), v.progress, false, kind, len as int);
        }
        let left: usize = self.source.len() - self.at;
        match plan_chunk(&self.options, &self.progress, false, kind, len) {
            Err(e) => {
                self.at = self.at + 4;
                self.err = Some(e);
                assert(self@ =~= v.failed(4, e));
                Err(e)
            },
            Ok(plan) => {
                if left - 4 < len {
                    self.at = self.source.len();
                    self.err = Some(Error::Corrupt);
                    assert(self@ =~= v.failed(left as int, Error::Corrupt));
                    return Err(Error::Corrupt);
                }
                let r = self.take_body(plan, kind, len);
                proof {
                    let u = v.told(self@.answers);
                    assert(u.rest() == v.rest());
                    lemma_head_step(u);
                }
                r
            },
        }
    }

    /// Takes the next chunk, whose body has `len` bytes.
    fn take_body(&mut self, plan: Plan, kind: u8, len: usize) -> (r: Result<(), Error>)
        requires
            old(self).wf(),
            old(self)@.pos == old(self)@.block.len(),
            old(self)@.at + 4 + len <= old(self)@.source.len(),
            chunk::suits(plan, kind, len as int),
            plan is User ==> old(self)@.options.callback(kind),
        ensures
            final(self).wf(),
            old(self)@.answers.is_prefix_of(final(self)@.answers),
            ({
                let v = old(self)@.told(final(self)@.answers);
                let body = v.source.subrange(v.at + 4, v.at + 4 + len);
                match chunk::finished(v.asked(), v.progress, plan, kind, body) {
                    Err(e) => r == Err::<(), Error>(e) && final(self)@ == v.failed(4 + len, e),
                    Ok((p, item)) => match answered(v.asked(), 4 + len, p, item) {
                        Step::Refused(n, id, b, e) => {
                            &&& r == Err::<(), Error>(e)
                            &&& final(self)@ == v.refused(n, id, b, e)
                        },
                        _ => r is Ok && final(self)@ == moved(v, 4 + len, p, item),
                    },
                }
            }),
    {
        let ghost v = self@;
        let ghost body = v.source.subrange(v.at + 4, v.at + 4 + len);
        proof {
            assert(v.told(v.answers) =~= v);
            lemma_finished_answer(v.options, v.asked().answer, v.progress, plan, kind, body);
        }
        match self.finish_body(plan, kind, len) {
            Err(e) => Err(e),
            Ok(Item::User(id, data)) => {
                let r = self.take_user(id, data.as_slice());
                proof {
                    let x = v.told(self@.answers).asked().answer;
                    lemma_finished_answer(v.options, x, v.progress, plan, kind, body);
                }
                r
            },
            Ok(item) => {
                self.take_item(item);
                Ok(())
            },
        }
    }

    /// Reads the body of the next chunk, which has `len` bytes, and says what it is.
    fn finish_body(&mut self, plan: Plan, kind: u8, len: usize) -> (r: Result<Item, Error>)
        requires
            old(self).wf(),
            old(self)@.pos == old(self)@.block.len(),
            old(self)@.at + 4 + len <= old(self)@.source.len(),
            chunk::suits(plan, kind, len as int),
        ensures
            final(self).callbacks() == old(self).callbacks(),
            r is Err ==> final(self).wf(),
            (r is Ok && r->Ok_0 is User) ==> {
                &&& plan is User
                &&& (r->Ok_0)->User_0 == kind
                &&& final(self).wf()
            },
            ({
                let v = old(self)@;
                let body = v.source.subrange(v.at + 4, v.at + 4 + len);
                match chunk::finished(v.options, v.progress, plan, kind, body) {
                    Err(e) => r == Err::<Item, Error>(e) && final(self)@ == v.failed(4 + len, e),
                    Ok((p, item)) => {
                        &&& r is Ok
                        &&& (r->Ok_0)@ == item
                        &&& p.wf()
                        &&& final(self)@ == (ReaderView { at: v.at + 4 + len, progress: p, ..v })
                        &&& moved(v, 4 + len, p, item).wf()
                    },
                }
            }),
    {
        assert(self.at + 4 + len <= self.source.len());
        let ghost v = self@;
        let body: &[u8] = slice_subrange(self.source.as_slice(), self.at + 4, self.at + 4 + len);
        proof {
            self.lemma_options();
            lemma_finished(v.options, v.progress, plan, kind, body@);
            lemma_finished_callbacks(
                v.options,
                self.callbacks(),
                v.progress,
                plan,
                kind,
                body@,
            );
        }
        let r = finish_chunk(&self.options, &mut self.progress, &self.sums, plan, kind, body);
        self.at = self.at + 4 + len;
        if let Err(e) = r {
            self.err = Some(e);
            assert(self@ =~= v.failed(4 + len, e));
        }
        r
    }

    /// Takes a user chunk: reading goes on or ends, as the callback answers.
    fn take_user(&mut self, id: u8, payload: &[u8]) -> (r: Result<(), Error>)
        requires
            old(self).wf(),
            chunk::is_user(id),
            old(self)@.options.callback(id),
        ensures
            final(self).wf(),
            old(self)@.answers.is_prefix_of(final(self)@.answers),
            ({
                let v = old(self)@.told(final(self)@.answers);
                let w = ReaderView { chunks: v.chunks.push((id, payload@)), ..v };
                match v.asked().answer {
                    Err(e) => r == Err::<(), Error>(e) && final(self)@ == w.failed(0, e),
                    Ok(()) => r is Ok && final(self)@ == w,
                }
            }),
    {
        let x: Answer = self.ask_callback(id, payload);
        if let Err(e) = x {
            self.err = Some(e);
        }
        x
    }

    /// Calls the callback for a user chunk with it, and notes what it answers.
    fn ask_callback(&mut self, id: u8, payload: &[u8]) -> (x: Answer)
        requires
            old(self)@.options.wf(),
            old(self)@.settled(),
            chunk::is_user(id),
            old(self)@.options.callback(id),
            chunk::took(
                old(self)@.options.callbacks,
                old(self)@.chunks,
                old(self)@.answers,
                old(self).callbacks(),
            ),
        ensures
            chunk::called(old(self).callbacks(), (id, payload@), x, final(self).callbacks()),
            chunk::took(
                final(self)@.options.callbacks,
                final(self)@.chunks,
                final(self)@.answers,
                final(self).callbacks(),
            ),
            final(self)@ == (ReaderView {
                chunks: old(self)@.chunks.push((id, payload@)),
                answers: old(self)@.answers.push(x),
                ..old(self)@
            }),
            old(self)@.told(final(self)@.answers).asked() == old(self)@.options.answering(x),
            old(self)@.answers.is_prefix_of(final(self)@.answers),
    {
        let ghost v = self@;
        let ghost before = self.callbacks();
        proof {
            chunk::lemma_took_types(v.options.callbacks, v.chunks, v.answers, before);
            let i = id - MIN_USER_SKIPPABLE_CHUNK;
            assert(v.options.callbacks[i] is Some <==> before[i] is Some);
        }
        let x: Answer = ask(&mut self.options, id, payload);
        proof {
            chunk::lemma_took_push(
                v.options.callbacks,
                v.chunks,
                v.answers,
                before,
                (id, payload@),
                x,
                self.callbacks(),
            );
        }
        self.chunks = Ghost(self.chunks@.push((id, payload@)));
        self.answers = Ghost(self.answers@.push(x));
        assert(old(self)@.told(self@.answers).ahead() =~= seq![x]);
        x
    }

    /// Takes what a chunk turned out to be.
    fn take_item(&mut self, item: Item)
        ensures
            final(self).callbacks() == old(self).callbacks(),
            final(self)@ == (match item@ {
                ItemView::Data(b) => ReaderView {
                    block_start: chunk::wrapping(
                        old(self)@.block_start,
                        old(self)@.block.len() as int,
                    ),
                    block: b,
                    pos: 0,
                    begun: old(self)@.begun || b.len() > 0,
                    ..old(self)@
                },
                ItemView::Start => ReaderView {
                    block_start: 0,
                    block: Seq::empty(),
                    pos: 0,
                    ..old(self)@
                },
                _ => old(self)@,
            }),
    {
        match item {
            Item::Data(b) => {
                self.block_start = self.block_start.wrapping_add(self.block.len() as u64);
                self.begun = self.begun || b.len() > 0;
                self.block = b;
                self.pos = 0;
            },
            Item::Start => {
                self.block_start = 0;
                self.block.clear();
                self.pos = 0;
                assert(self@.block =~= Seq::<u8>::empty());
            },
            _ => {},
        }
    }

    /// Reads chunks until there is data to hand out; says whether there is any.
    fn fill_decoded(&mut self) -> (r: Result<bool, Error>)
        requires
            old(self).wf(),
        ensures
            final(self).wf(),
            old(self)@.answers.is_prefix_of(final(self)@.answers),
            (final(self)@, r) == filled(old(self)@.told(final(self)@.answers)),
            r == Ok::<bool, Error>(true) ==> final(self)@.pos < final(self)@.block.len(),
    {
        proof {
            assert forall|a: Seq<Answer>| #[trigger] self@.answers.is_prefix_of(a) implies filled(
                old(self)@.told(a),
            ) == filled(self@.told(a)) by {}
        }
        while self.pos >= self.block.len()
            invariant
                self.wf(),
                old(self)@.answers.is_prefix_of(self@.answers),
                forall|a: Seq<Answer>|
                    #[trigger] self@.answers.is_prefix_of(a) ==> filled(old(self)@.told(a))
                        == filled(self@.told(a)),
            decreases self@.source.len() - self@.at,
        {
            let ghost v = self@;
            let r = self.next_chunk();
            proof {
                lemma_step(v.told(self@.answers));
                assert(v.answers.is_prefix_of(self@.answers));
                assert forall|a: Seq<Answer>| #[trigger]
                    self@.answers.is_prefix_of(a) && r is Ok && r->Ok_0 is Some implies filled(
                    old(self)@.told(a),
                ) == filled(self@.told(a)) by {
                    assert(v.answers.is_prefix_of(a));
                    lemma_advanced_told(v, self@, r, a);
                }
            }
            match r {
                Err(e) => {
                    return Err(e);
                },
                Ok(None) => {
                    return Ok(false);
                },
                Ok(Some(_)) => {},
            }
        }
        proof {
            assert(self@.answers.is_prefix_of(self@.answers));
            assert(self@.told(self@.answers) =~= self@);
        }
        Ok(true)
    }

    /// Reads data into `p`; returns how many bytes, zero at the end of the stream.
    pub fn read(&mut self, p: &mut [u8]) -> (r: Result<usize, Error>)
        requires
            old(self).wf(),
        ensures
            final(self).wf(),
            final(p)@.len() == old(p)@.len(),
            old(self)@.answers.is_prefix_of(final(self)@.answers),
            read_some(
                old(self)@.told(final(self)@.answers),
                old(p)@,
                final(self)@,
                final(p)@,
                r,
            ),
    {
        let r = self.read_at_most(p, 0);
        assert(old(p)@.skip(0) =~= old(p)@);
        assert(p@.skip(0) =~= p@);
        r
    }

    /// Reads data into `p` from the place `from` on.
    fn read_at_most(&mut self, p: &mut [u8], from: usize) -> (r: Result<usize, Error>)
        requires
            old(self).wf(),
            from <= old(p)@.len(),
        ensures
            final(self).wf(),
            final(p)@.len() == old(p)@.len(),
            final(p)@.take(from as int) == old(p)@.take(from as int),
            old(self)@.answers.is_prefix_of(final(self)@.answers),
            read_some(
                old(self)@.told(final(self)@.answers),
                old(p)@.skip(from as int),
                final(self)@,
                final(p)@.skip(from as int),
                r,
            ),
            r matches Ok(n) ==> n <= old(p)@.len() - from,
    {
        assert(self@.told(self@.answers) =~= self@);
        if let Some(e) = self.err {
            return Err(e);
        }
        if p.len() == from {
            return Ok(0);
        }
        match self.fill_decoded() {
            Err(e) => Err(e),
            Ok(false) => Ok(0),
            Ok(true) => {
                let have: usize = self.block.len() - self.pos;
                let room: usize = p.len() - from;
                let n: usize = if have < room {
                    have
                } else {
                    room
                };
                let ghost u = self@;
                copy_into(p, from, self.block.as_slice(), self.pos, n);
                self.pos = self.pos + n;
                proof {
                    assert(self@ =~= ReaderView { pos: u.pos + n, ..u });
                    assert(p@.skip(from as int) =~= u.pending().take(n as int) + old(p)@.skip(
                        from as int,
                    ).skip(n as int));
                    assert(p@.take(from as int) =~= old(p)@.take(from as int));
                }
                Ok(n)
            },
        }
    }
}

/// Handing out some of the current block takes it from what is read later.
pub proof fn lemma_drained_take(v: ReaderView, m: int)
    requires
        v.wf(),
        0 <= m <= v.pending().len(),
    ensures
        ({
            let w = ReaderView { pos: v.pos + m, ..v };
            &&& w.wf()
            &&& drained(w).data == drained(v).data.skip(m)
            &&& drained(w).reader == drained(v).reader
            &&& drained(w).err == drained(v).err
            &&& drained(v).data.len() >= v.pending().len()
            &&& drained(v).data.take(v.pending().len() as int) == v.pending()
        }),
{
    reveal(drained);
    let w = ReaderView { pos: v.pos + m, ..v };
    assert(w.emptied() =~= v.emptied());
    assert(w.pending() =~= v.pending().skip(m));
    assert(w.rest() =~= v.rest());
    assert(drained(v).data =~= v.pending() + drained(v).data.skip(v.pending().len() as int));
    assert(drained(w).data =~= drained(v).data.skip(m));
}

/// Reading on to the next data changes nothing of what is read later.
pub proof fn lemma_drained_filled(v: ReaderView)
    requires
        v.wf(),
    ensures
        ({
            let (u, f) = filled(v);
            &&& u.wf()
            &&& u.options == v.options
            &&& match f {
                Ok(true) => {
                    &&& u.pos < u.block.len()
                    &&& drained(u).data == drained(v).data
                    &&& drained(u).reader == drained(v).reader
                    &&& drained(u).err == drained(v).err
                },
                Ok(false) => {
                    &&& u.pos == u.block.len()
                    &&& drained(v).data == Seq::<u8>::empty()
                    &&& drained(v).err is None
                    &&& drained(v).reader == u
                },
                Err(e) => {
                    &&& drained(v).data == Seq::<u8>::empty()
                    &&& drained(v).err == Some(e)
                    &&& drained(v).reader == u
                },
            }
        }),
    decreases v.source.len() - v.at,
{
    reveal(drained);
    lemma_step(v);
    if v.pos == v.block.len() {
        assert(v.emptied() =~= v);
        assert(v.pending() =~= Seq::<u8>::empty());
        if let Step::Passed(n, p, item) = step(v.asked(), v.progress, v.rest()) {
            let w = moved(v, n, p, item);
            lemma_drained_filled(w);
            assert(v.pending() + drained(w).data =~= drained(w).data);
        }
    }
}

/// Reading to the end keeps the options.
pub proof fn lemma_drained_options(v: ReaderView)
    ensures
        drained(v).reader.options == v.options,
    decreases v.source.len() - v.at,
{
    reveal(drained);
    if v.wf() {
        lemma_step(v);
        if let Step::Passed(n, p, item) = step(v.asked(), v.progress, v.rest()) {
            lemma_drained_options(moved(v.emptied(), n, p, item));
        }
    }
}

/// Reading on to the next data does not depend on what callbacks answer later.
pub proof fn lemma_filled_told(v: ReaderView, a: Seq<Answer>, b: Seq<Answer>)
    requires
        v.wf(),
        a.is_prefix_of(b),
        filled(v.told(a)).0.chunks.len() <= a.len(),
    ensures
        v.chunks.len() <= filled(v.told(a)).0.chunks.len(),
        filled(v.told(b)) == (filled(v.told(a)).0.told(b), filled(v.told(a)).1),
    decreases v.source.len() - v.at,
{
    if v.pos == v.block.len() {
        let va = v.told(a);
        let vb = v.told(b);
        lemma_step(va);
        lemma_step(vb);
        assert(va.rest() == v.rest() && vb.rest() == v.rest());
        if let Step::Passed(n, p, item) = step(va.asked(), v.progress, v.rest()) {
            let w = moved(v, n, p, item);
            assert(moved(va, n, p, item) =~= w.told(a));
            assert(moved(vb, n, p, item) =~= w.told(b));
            lemma_filled_told(w, a, b);
        }
        lemma_step_told(v, a, b);
    }
}

/// Reading to the end from `v`, behind `out`, is reading to the end from `w`, behind
/// `more`.
spec fn drains_on(v: ReaderView, out: Seq<u8>, w: ReaderView, more: Seq<u8>) -> bool {
    forall|a: Seq<Answer>| #[trigger]
        w.answers.is_prefix_of(a) ==> {
            let d = drained(v.told(a));
            let e = drained(w.told(a));
            &&& more + e.data == out + d.data
            &&& e.reader == d.reader
            &&& e.err == d.err
        }
}

proof fn lemma_drains_filled(
    v: ReaderView,
    out: Seq<u8>,
    w: ReaderView,
    more: Seq<u8>,
    u: ReaderView,
    f: Result<bool, Error>,
)
    requires
        w.wf(),
        u.settled(),
        w.answers.is_prefix_of(u.answers),
        (u, f) == filled(w.told(u.answers)),
        drains_on(v, out, w, more),
    ensures
        (match f {
            Ok(true) => drains_on(v, out, u.emptied(), more + u.pending()),
            _ => {
                let d = drained(v.told(u.answers));
                &&& more == out + d.data
                &&& d.reader == u
                &&& d.err == match f {
                    Ok(_) => None,
                    Err(e) => Some(e),
                }
            },
        }),
{
    lemma_drained_filled(w.told(u.answers));
    if f == Ok::<bool, Error>(true) {
        let x = u.emptied();
        assert forall|a: Seq<Answer>| #[trigger] x.answers.is_prefix_of(a) implies {
            let d = drained(v.told(a));
            let e = drained(x.told(a));
            &&& more + u.pending() + e.data == out + d.data
            &&& e.reader == d.reader
            &&& e.err == d.err
        } by {
            assert(w.answers.is_prefix_of(a));
            lemma_filled_told(w, u.answers, a);
            lemma_drained_filled(w.told(a));
            let y = u.told(a);
            let m = y.pending().len() as int;
            lemma_drained_take(y, m);
            assert(x.told(a) =~= ReaderView { pos: y.pos + m, ..y });
            assert(y.pending() == u.pending());
            assert(u.pending() + drained(x.told(a)).data =~= drained(y).data);
            assert(more + u.pending() + drained(x.told(a)).data =~= more + drained(y).data);
        }
    } else {
        assert(w.answers.is_prefix_of(u.answers));
        assert(more + Seq::<u8>::empty() =~= more);
    }
}

/// The reader after `n` bytes were read, or all there are.
pub open spec fn taken(v: ReaderView, n: int) -> ReaderView
    decreases n,
{
    if n <= 0 {
        v
    } else {
        let (u, f) = filled(v);
        if f == Ok::<bool, Error>(true) && u.pending().len() > 0 {
            let have = u.pending().len() as int;
            let m = if have < n {
                have
            } else {
                n
            };
            taken(ReaderView { pos: u.pos + m, ..u }, n - m)
        } else {
            u
        }
    }
}

/// Where the next chunk is a data chunk that can be passed over: how much data it
/// holds, by its header alone.
#[verifier::opaque]
pub open spec fn droppable(o: OptionsView, p: Progress, s: Seq<u8>) -> Option<int> {
    let len = layout::chunk_len_of(s.skip(1));
    if s.len() < 4 || s.len() - 4 < len {
        None
    } else {
        match chunk::planned(o, p, false, s[0], len) {
            Ok(Plan::Compressed) => match block::chunk_decoded_len(s.subrange(8, 4 + len)) {
                Ok(d) if d <= p.max_block => Some(d),
                _ => None,
            },
            Ok(Plan::Uncompressed) => Some(len - 4),
            _ => None,
        }
    }
}

/// Whether a chunk can be passed over does not depend on what callbacks answer.
pub proof fn lemma_droppable_told(o: OptionsView, x: Answer, p: Progress, s: Seq<u8>)
    ensures
        droppable(o.answering(x), p, s) == droppable(o, p, s),
{
    reveal(droppable);
    lemma_planned(o, x, p, false, s[0], layout::chunk_len_of(s.skip(1)));
}

/// What comes next where `m` bytes are to be skipped: a data chunk that holds no
/// more than that is passed over, without its checksum being looked at; any other
/// chunk is read.
pub open spec fn skip_step(o: OptionsView, p: Progress, s: Seq<u8>, m: int) -> Step {
    match droppable(o, p, s) {
        Some(d) if d <= m => Step::Dropped(4 + layout::chunk_len_of(s.skip(1)), d),
        _ => step(o, p, s),
    }
}

/// A chunk passed over keeps the reader in order.
pub proof fn lemma_skip_step(v: ReaderView, m: int)
    requires
        v.wf(),
    ensures
        (match skip_step(v.asked(), v.progress, v.rest(), m) {
            Step::Dropped(n, d) => {
                &&& 4 <= n <= v.rest().len()
                &&& 0 <= d <= m
                &&& passed_over(v.emptied(), n, d).wf()
            },
            Step::Passed(n, p, item) => {
                &&& 4 <= n <= v.rest().len()
                &&& moved(v.emptied(), n, p, item).wf()
            },
            _ => true,
        }),
{
    reveal(droppable);
    lemma_step(v);
    let s = v.rest();
    if s.len() >= 4 {
        let len = layout::chunk_len_of(s.skip(1));
        if len + 4 <= s.len() && len >= 4 {
            block::format::lemma_parse_uvarint_bounds(s.subrange(8, 4 + len));
        }
    }
}

/// The reader behind a data chunk of `n` bytes with `d` bytes of data that was
/// passed over.
pub open spec fn passed_over(v: ReaderView, n: int, d: int) -> ReaderView {
    let total = chunk::wrapping(v.progress.total, d);
    ReaderView {
        at: v.at + n,
        progress: Progress { total, ..v.progress },
        block_start: total,
        block: Seq::empty(),
        pos: 0,
        begun: v.begun || d > 0,
        ..v
    }
}

/// The reader `w` is the reader `v` once it has taken what comes next, where `m` bytes
/// are to be skipped, with how many are then left.
pub open spec fn skip_advanced(
    v: ReaderView,
    s: Step,
    m: int,
    w: ReaderView,
    r: Result<u64, Error>,
) -> bool {
    match s {
        Step::Ended => {
            &&& r == Err::<u64, Error>(Error::UnexpectedEof)
            &&& w == v.at_end().failed(0, Error::UnexpectedEof)
        },
        Step::Short => {
            &&& r == Err::<u64, Error>(Error::Corrupt)
            &&& w == v.at_end().failed(0, Error::Corrupt)
        },
        Step::Failed(k, e) => r == Err::<u64, Error>(e) && w == v.failed(k, e),
        Step::Refused(k, id, b, e) => r == Err::<u64, Error>(e) && w == v.refused(k, id, b, e),
        Step::Passed(k, p, item) => {
            let u = moved(v, k, p, item);
            &&& k >= 4
            &&& item is End ==> {
                &&& r == Err::<u64, Error>(Error::UnexpectedEof)
                &&& w == u.failed(0, Error::UnexpectedEof)
            }
            &&& !(item is End) ==> r == Ok::<u64, Error>(m as u64) && w == u
        },
        Step::Dropped(k, d) => {
            &&& k >= 4
            &&& r == Ok::<u64, Error>((m - d) as u64)
            &&& 0 <= d <= m
            &&& w == passed_over(v, k, d)
        },
    }
}

/// What comes next where bytes are to be skipped depends on the answer only where it is
/// a user chunk.
proof fn lemma_skip_step_told(v: ReaderView, m: int, a: Seq<Answer>, b: Seq<Answer>)
    requires
        a.is_prefix_of(b),
        (match skip_step(v.told(a).asked(), v.progress, v.rest(), m) {
            Step::Refused(_, _, _, _) => v.chunks.len() < a.len(),
            Step::Passed(_, _, ItemView::User(_, _)) => v.chunks.len() < a.len(),
            _ => true,
        }),
    ensures
        skip_step(v.told(b).asked(), v.progress, v.rest(), m) == skip_step(
            v.told(a).asked(),
            v.progress,
            v.rest(),
            m,
        ),
{
    lemma_droppable_told(v.options, v.told(a).asked().answer, v.progress, v.rest());
    lemma_droppable_told(v.options, v.told(b).asked().answer, v.progress, v.rest());
    let dropped = match droppable(v.options, v.progress, v.rest()) {
        Some(d) => d <= m,
        None => false,
    };
    if !dropped {
        lemma_step_told(v, a, b);
    }
}

/// The reader after `n` bytes were skipped. A stream that ends before that, or that
/// cannot be read on, is an error that stays.
pub open spec fn skipped(v: ReaderView, n: int) -> (ReaderView, Option<Error>)
    decreases v.source.len() - v.at,
{
    let have = v.pending().len() as int;
    if n <= have {
        (
            if n > 0 {
                ReaderView { pos: v.pos + n, ..v }
            } else {
                v
            },
            None,
        )
    } else if !v.wf() {
        (v, None)
    } else {
        let u = v.emptied();
        let m = n - have;
        proof {
            lemma_skip_step(v, m);
        }
        match skip_step(v.asked(), v.progress, v.rest(), m) {
            Step::Ended => (u.at_end().failed(0, Error::UnexpectedEof), Some(Error::UnexpectedEof)),
            Step::Short => (u.at_end().failed(0, Error::Corrupt), Some(Error::Corrupt)),
            Step::Failed(k, e) => (u.failed(k, e), Some(e)),
            Step::Refused(k, id, b, e) => (u.refused(k, id, b, e), Some(e)),
            Step::Passed(k, p, item) => if item is End {
                (
                    moved(u, k, p, item).failed(0, Error::UnexpectedEof),
                    Some(Error::UnexpectedEof),
                )
            } else {
                skipped(moved(u, k, p, item), m)
            },
            Step::Dropped(k, d) => skipped(passed_over(u, k, d), m - d),
        }
    }
}

impl Reader {
    /// Returns the data at hand, reading on where there is none; empty at the end of
    /// the stream.
    pub fn fill_buf(&mut self) -> (r: Result<&[u8], Error>)
        requires
            old(self).wf(),
        ensures
            final(self).wf(),
            old(self)@.answers.is_prefix_of(final(self)@.answers),
            (match old(self)@.err {
                Some(e) => r == Err::<&[u8], Error>(e) && final(self)@ == old(self)@,
                None => {
                    let (u, f) = filled(old(self)@.told(final(self)@.answers));
                    &&& final(self)@ == u
                    &&& match f {
                        Err(e) => r == Err::<&[u8], Error>(e),
                        Ok(_) => r is Ok && (r->Ok_0)@ == u.pending(),
                    }
                },
            }),
    {
        if let Some(e) = self.err {
            return Err(e);
        }
        let ghost v = self@;
        let r = self.fill_decoded();
        proof {
            lemma_drained_filled(v.told(self@.answers));
        }
        match r {
            Err(e) => Err(e),
            Ok(_) => {
                let b: &[u8] = slice_subrange(self.block.as_slice(), self.pos, self.block.len());
                assert(b@ =~= self@.pending());
                Ok(b)
            },
        }
    }

    /// Counts `amt` bytes of the data at hand, or all there are, as read.
    pub fn consume(&mut self, amt: usize)
        requires
            old(self).wf(),
        ensures
            final(self).wf(),
            final(self).callbacks() == old(self).callbacks(),
            final(self)@ == (ReaderView {
                pos: if amt < old(self)@.pending().len() {
                    old(self)@.pos + amt
                } else {
                    old(self)@.block.len() as int
                },
                ..old(self)@
            }),
    {
        let have: usize = self.block.len() - self.pos;
        if amt < have {
            self.pos = self.pos + amt;
        } else {
            self.pos = self.block.len();
        }
    }

    /// Reads to the end of the stream and appends the data to `out`; returns how many
    /// bytes. On an error, what was read before it is in `out`.
    pub fn read_to_end(&mut self, out: &mut Vec<u8>) -> (r: Result<usize, Error>)
        requires
            old(self).wf(),
        ensures
            final(self).wf(),
            old(self)@.answers.is_prefix_of(final(self)@.answers),
            (match old(self)@.err {
                Some(e) => r == Err::<usize, Error>(e) && final(self)@ == old(self)@ && final(out)@
                    == old(out)@,
                None => {
                    let d = drained(old(self)@.told(final(self)@.answers));
                    &&& final(self)@ == d.reader
                    &&& final(out)@ == old(out)@ + d.data
                    &&& r == match d.err {
                        Some(e) => Err::<usize, Error>(e),
                        None => Ok::<usize, Error>(d.data.len() as usize),
                    }
                },
            }),
    {
        if let Some(e) = self.err {
            return Err(e);
        }
        let begin: usize = out.len();
        loop
            invariant
                self.wf(),
                begin == old(out).len() <= out.len(),
                old(self)@.answers.is_prefix_of(self@.answers),
                drains_on(old(self)@, old(out)@, self@, out@),
                old(self)@.err is None,
            decreases self@.source.len() - self@.at, self@.pending().len(),
        {
            let ghost v = self@;
            let ghost before = out@;
            let r = self.fill_decoded();
            proof {
                lemma_filled_moves(v.told(self@.answers));
                lemma_drains_filled(old(self)@, old(out)@, v, before, self@, r);
                assert(old(self)@.answers.is_prefix_of(self@.answers));
            }
            match r {
                Err(e) => {
                    return Err(e);
                },
                Ok(false) => {
                    return Ok(out.len() - begin);
                },
                Ok(true) => {
                    let ghost u = self@;
                    append_range(out, self.block.as_slice(), self.pos, self.block.len() - self.pos);
                    self.pos = self.block.len();
                    proof {
                        assert(self@ =~= u.emptied());
                        assert(out@ =~= before + u.pending());
                        assert(self@.pending().len() == 0);
                    }
                },
            }
        }
    }

    /// Reads exactly as many bytes as `p` holds. Fails where the stream ends before
    /// that; what there was is then at the start of `p`.
    pub fn read_exact(&mut self, p: &mut [u8]) -> (r: Result<(), Error>)
        requires
            old(self).wf(),
        ensures
            final(self).wf(),
            final(p)@.len() == old(p)@.len(),
            old(self)@.err is Some && old(p)@.len() > 0 ==> {
                &&& r == Err::<(), Error>(old(self)@.err->0)
                &&& final(self)@ == old(self)@
                &&& final(p)@ == old(p)@
            },
            old(self)@.answers.is_prefix_of(final(self)@.answers),
            old(self)@.err is None || old(p)@.len() == 0 ==> {
                let v = old(self)@.told(final(self)@.answers);
                let d = drained(v);
                let n = old(p)@.len() as int;
                &&& final(self)@ == taken(v, n)
                &&& n <= d.data.len() ==> r is Ok && final(p)@ == d.data.take(n)
                &&& n > d.data.len() ==> {
                    &&& r == Err::<(), Error>(
                        match d.err {
                            Some(e) => e,
                            None => Error::UnexpectedEof,
                        },
                    )
                    &&& final(self)@ == d.reader
                    &&& final(p)@ == d.data + old(p)@.skip(d.data.len() as int)
                }
            },
    {
        let size: usize = p.len();
        match self.read_full(p) {
            Err(e) => Err(e),
            Ok(n) => {
                if n < size {
                    Err(Error::UnexpectedEof)
                } else {
                    Ok(())
                }
            },
        }
    }

    /// Reads data into all of `p`, or as much as there is; returns how many bytes.
    pub(crate) fn read_full(&mut self, p: &mut [u8]) -> (r: Result<usize, Error>)
        requires
            old(self).wf(),
        ensures
            final(self).wf(),
            final(p)@.len() == old(p)@.len(),
            old(self)@.err is Some && old(p)@.len() > 0 ==> {
                &&& r == Err::<usize, Error>(old(self)@.err->0)
                &&& final(self)@ == old(self)@
                &&& final(p)@ == old(p)@
            },
            old(self)@.answers.is_prefix_of(final(self)@.answers),
            old(self)@.err is None || old(p)@.len() == 0 ==> {
                let v = old(self)@.told(final(self)@.answers);
                let d = drained(v);
                let n = old(p)@.len() as int;
                &&& final(self)@ == taken(v, n)
                &&& n <= d.data.len() ==> r == Ok::<usize, Error>(n as usize) && final(p)@
                    == d.data.take(n)
                &&& n > d.data.len() ==> {
                    &&& r == match d.err {
                        Some(e) => Err::<usize, Error>(e),
                        None => Ok::<usize, Error>(d.data.len() as usize),
                    }
                    &&& final(self)@ == d.reader
                    &&& final(p)@ == d.data + old(p)@.skip(d.data.len() as int)
                }
            },
    {
        let mut got: usize = 0;
        let size: usize = p.len();
        proof {
            lemma_fills_none(self@, p@);
        }
        while got < size
            invariant
                self.wf(),
                size == old(p)@.len() == p@.len(),
                got <= size,
                got == 0 ==> self@ == old(self)@,
                old(self)@.err is None ==> self@.err is None || got == 0,
                got > 0 ==> old(self)@.err is None,
                old(self)@.answers.is_prefix_of(self@.answers),
                fills_on(old(self)@, old(p)@, self@, p@, got as int),
            decreases size - got,
        {
            let ghost v = self@;
            let ghost before = p@;
            let r = self.read_at_most(p, got);
            proof {
                let va = v.told(self@.answers);
                lemma_drained_filled(va);
                lemma_filled_moves(va);
                assert(old(self)@.answers.is_prefix_of(self@.answers));
                assert(v.told(v.answers) =~= v);
                lemma_fills_now(old(self)@, old(p)@, v, before, got as int, self@.answers);
            }
            match r {
                Err(e) => {
                    proof {
                        if old(self)@.err is None {
                            let d = drained(old(self)@.told(self@.answers));
                            assert(p@.skip(got as int) == before.skip(got as int));
                            lemma_nothing_left(old(p)@, p@, d.data, got as int);
                        } else {
                            assert(p@ =~= p@.skip(0));
                            assert(old(p)@ =~= old(p)@.skip(0));
                        }
                    }
                    return Err(e);
                },
                Ok(n) => {
                    if n == 0 {
                        proof {
                            let d = drained(old(self)@.told(self@.answers));
                            assert(p@.skip(got as int) == before.skip(got as int));
                            lemma_nothing_left(old(p)@, p@, d.data, got as int);
                        }
                        return Ok(got);
                    }
                    proof {
                        lemma_fills_more(
                            old(self)@,
                            old(p)@,
                            v,
                            before,
                            got as int,
                            self@,
                            p@,
                            n as int,
                        );
                    }
                    got = got + n;
                },
            }
        }
        proof {
            lemma_fills_now(old(self)@, old(p)@, self@, p@, size as int, self@.answers);
            assert(self@.told(self@.answers) =~= self@);
            assert(p@.take(size as int) =~= p@);
        }
        Ok(size)
    }
}

/// The first `got` bytes of what reading from `v` gives are in the buffer, which was
/// `p0`; the reader is then `w`, where callbacks answer `a`.
spec fn filled_so_far(
    v: ReaderView,
    p0: Seq<u8>,
    w: ReaderView,
    p: Seq<u8>,
    got: int,
    a: Seq<Answer>,
) -> bool {
    let d = drained(v.told(a));
    let e = drained(w.told(a));
    &&& 0 <= got <= d.data.len()
    &&& p.take(got) == d.data.take(got)
    &&& p.skip(got) == p0.skip(got)
    &&& e.data == d.data.skip(got)
    &&& e.reader == d.reader
    &&& e.err == d.err
    &&& taken(w.told(a), p0.len() - got) == taken(v.told(a), p0.len() as int)
}

/// The same whatever callbacks answer later.
#[verifier::opaque]
spec fn fills_on(v: ReaderView, p0: Seq<u8>, w: ReaderView, p: Seq<u8>, got: int) -> bool {
    forall|a: Seq<Answer>| #[trigger]
        w.answers.is_prefix_of(a) ==> filled_so_far(v, p0, w, p, got, a)
}

proof fn lemma_fills_none(v: ReaderView, p: Seq<u8>)
    ensures
        fills_on(v, p, v, p, 0),
{
    reveal(fills_on);
    assert forall|a: Seq<Answer>| #[trigger] v.answers.is_prefix_of(a) implies filled_so_far(
        v,
        p,
        v,
        p,
        0,
        a,
    ) by {
        let d = drained(v.told(a));
        assert(d.data.skip(0) =~= d.data);
        assert(d.data.take(0) =~= p.take(0));
    }
}

proof fn lemma_fills_now(
    v: ReaderView,
    p0: Seq<u8>,
    w: ReaderView,
    p: Seq<u8>,
    got: int,
    a: Seq<Answer>,
)
    requires
        fills_on(v, p0, w, p, got),
        w.answers.is_prefix_of(a),
    ensures
        filled_so_far(v, p0, w, p, got, a),
{
    reveal(fills_on);
}

proof fn lemma_fills_more(
    v: ReaderView,
    p0: Seq<u8>,
    w: ReaderView,
    p: Seq<u8>,
    got: int,
    x: ReaderView,
    q: Seq<u8>,
    n: int,
)
    requires
        p.len() <= usize::MAX,
        fills_on(v, p0, w, p, got),
        w.wf(),
        w.err is None,
        x.settled(),
        w.answers.is_prefix_of(x.answers),
        p0.len() == p.len() == q.len(),
        0 <= got < p.len(),
        0 < n <= p.len() - got,
        q.take(got) == p.take(got),
        read_some(
            w.told(x.answers),
            p.skip(got),
            x,
            q.skip(got),
            Ok::<usize, Error>(n as usize),
        ),
    ensures
        fills_on(v, p0, x, q, got + n),
{
    reveal(fills_on);
    let (u, f) = filled(w.told(x.answers));
    lemma_drained_filled(w.told(x.answers));
    lemma_filled_moves(w.told(x.answers));
    assert forall|a: Seq<Answer>| #[trigger] x.answers.is_prefix_of(a) implies filled_so_far(
        v,
        p0,
        x,
        q,
        got + n,
        a,
    ) by {
        assert(w.answers.is_prefix_of(a));
        assert(filled_so_far(v, p0, w, p, got, a));
        lemma_filled_told(w, x.answers, a);
        lemma_drained_filled(w.told(a));
        let y = u.told(a);
        lemma_drained_take(y, n);
        assert(x.told(a) =~= ReaderView { pos: y.pos + n, ..y });
        assert(y.pending() == u.pending());
        let d = drained(v.told(a));
        lemma_joined(p0, p, q, d.data, u.pending(), got, n);
    }
}

impl Reader {
    /// Where the next chunk can be passed over: the length of its body and of its
    /// data.
    fn next_droppable(&self) -> (r: Option<(usize, u64)>)
        requires
            self.wf(),
        ensures
            (match r {
                Some((len, d)) => {
                    &&& droppable(self@.options, self@.progress, self@.rest()) == Some(d as int)
                    &&& len == layout::chunk_len_of(self@.rest().skip(1))
                    &&& len + 4 <= self@.rest().len()
                },
                None => droppable(self@.options, self@.progress, self@.rest()) is None,
            }),
    {
        proof {
            reveal(droppable);
        }
        let ghost s = self@.rest();
        let left: usize = self.source.len() - self.at;
        if left < 4 {
            return None;
        }
        let kind: u8 = self.source[self.at];
        let len: usize = read_chunk_len(
            slice_subrange(self.source.as_slice(), self.at + 1, self.at + 4),
        );
        assert(len == layout::chunk_len_of(s.skip(1)));
        if left - 4 < len {
            return None;
        }
        proof {
            self.lemma_options();
            lemma_planned_types(
                self@.options,
                self.callbacks(),
                self@.progress,
                false,
                kind,
                len as int,
            );
        }
        match plan_chunk(&self.options, &self.progress, false, kind, len) {
            Ok(Plan::Compressed) => {
                let body: &[u8] = slice_subrange(
                    self.source.as_slice(),
                    self.at + 8,
                    self.at + 4 + len,
                );
                assert(body@ =~= s.subrange(8, 4 + len));
                match decoded_len_chunk_body(body) {
                    Ok(d) => {
                        if d <= self.progress.max_block {
                            Some((len, d as u64))
                        } else {
                            None
                        }
                    },
                    Err(_) => None,
                }
            },
            Ok(Plan::Uncompressed) => Some((len, (len - 4) as u64)),
            _ => None,
        }
    }

    /// Skips the next chunk or reads it, where `left` bytes are to be skipped; returns
    /// how many are then left.
    fn skip_chunk(&mut self, left: u64) -> (r: Result<u64, Error>)
        requires
            old(self).wf(),
            old(self)@.pos == old(self)@.block.len(),
        ensures
            final(self).wf(),
            old(self)@.answers.is_prefix_of(final(self)@.answers),
            ({
                let v = old(self)@.told(final(self)@.answers);
                let s = skip_step(v.asked(), v.progress, v.rest(), left as int);
                skip_advanced(v, s, left as int, final(self)@, r)
            }),
    {
        let ghost v = self@;
        proof {
            assert(v.told(v.answers) =~= v);
            lemma_droppable_told(v.options, v.asked().answer, v.progress, v.rest());
        }
        if let Some((len, d)) = self.next_droppable() {
            if d <= left {
                let left_over: usize = self.source.len() - self.at;
                assert(len + 4 <= left_over);
                self.progress.total = self.progress.total.wrapping_add(d);
                self.block_start = self.progress.total;
                self.at = self.at + 4 + len;
                self.block.clear();
                self.pos = 0;
                self.begun = self.begun || d > 0;
                assert(self@ =~= passed_over(v, 4 + len, d as int));
                return Ok(left - d);
            }
        }
        let r = self.skip_by_reading(left);
        proof {
            let w = v.told(self@.answers);
            assert(w.rest() == v.rest());
            lemma_droppable_told(v.options, w.asked().answer, v.progress, v.rest());
        }
        r
    }

    /// Reads the next chunk, where `left` bytes are to be skipped; returns how many are
    /// then left.
    fn skip_by_reading(&mut self, left: u64) -> (r: Result<u64, Error>)
        requires
            old(self).wf(),
            old(self)@.pos == old(self)@.block.len(),
        ensures
            final(self).wf(),
            old(self)@.answers.is_prefix_of(final(self)@.answers),
            ({
                let v = old(self)@.told(final(self)@.answers);
                let s = step(v.asked(), v.progress, v.rest());
                skip_advanced(v, s, left as int, final(self)@, r)
            }),
    {
        let ghost v = self@;
        let r = self.next_chunk();
        let ghost u = self@;
        proof {
            lemma_step(v.told(u.answers));
        }
        match r {
            Err(e) => {
                self.err = Some(e);
                assert(self@ =~= u.failed(0, e));
                Err(e)
            },
            Ok(None) => {
                self.err = Some(Error::UnexpectedEof);
                assert(self@ =~= u.failed(0, Error::UnexpectedEof));
                Err(Error::UnexpectedEof)
            },
            Ok(Some(kind)) => {
                if kind == CHUNK_TYPE_EOF {
                    self.err = Some(Error::UnexpectedEof);
                    assert(self@ =~= u.failed(0, Error::UnexpectedEof));
                    return Err(Error::UnexpectedEof);
                }
                Ok(left)
            },
        }
    }

    /// Skips `n` bytes of data.
    ///
    /// Blocks that are skipped as a whole are neither decoded nor checked. Where this
    /// fails, every call fails from then on.
    pub fn skip(&mut self, n: u64) -> (r: Result<(), Error>)
        requires
            old(self).wf(),
        ensures
            final(self).wf(),
            old(self)@.answers.is_prefix_of(final(self)@.answers),
            (match old(self)@.err {
                Some(e) => r == Err::<(), Error>(e) && final(self)@ == old(self)@,
                None => {
                    let (u, q) = skipped(old(self)@.told(final(self)@.answers), n as int);
                    &&& r is Ok ==> u.err is None
                    &&& final(self)@ == u
                    &&& match q {
                        Some(e) => r == Err::<(), Error>(e),
                        None => r is Ok,
                    }
                },
            }),
    {
        if let Some(e) = self.err {
            return Err(e);
        }
        let mut left: u64 = n;
        while left > 0
            invariant
                self.wf(),
                old(self)@.answers.is_prefix_of(self@.answers),
                skips_on(old(self)@, n as int, self@, left as int),
                old(self)@.err is None,
                self@.err is None,
            decreases self@.source.len() - self@.at,
        {
            let have: u64 = (self.block.len() - self.pos) as u64;
            let ghost v = self@;
            proof {
                assert(v.told(v.answers) =~= v);
                assert(v.answers.is_prefix_of(v.answers));
            }
            if have >= left {
                self.pos = self.pos + left as usize;
                return Ok(());
            }
            let ghost before = left;
            left = left - have;
            self.pos = self.block.len();
            assert(self@ =~= v.emptied());
            let r = self.skip_chunk(left);
            proof {
                assert(old(self)@.answers.is_prefix_of(self@.answers));
                lemma_skips_on(old(self)@, n as int, v, before as int, self@, r);
            }
            match r {
                Err(e) => {
                    return Err(e);
                },
                Ok(more) => {
                    left = more;
                },
            }
        }
        proof {
            assert(self@.told(self@.answers) =~= self@);
            assert(self@.answers.is_prefix_of(self@.answers));
        }
        Ok(())
    }
}

/// Skipping `n` bytes from `v` on is skipping `m` bytes from `w` on.
spec fn skips_on(v: ReaderView, n: int, w: ReaderView, m: int) -> bool {
    forall|a: Seq<Answer>| #[trigger]
        w.answers.is_prefix_of(a) ==> skipped(v.told(a), n) == skipped(w.told(a), m)
}

proof fn lemma_skips_on(
    v: ReaderView,
    n: int,
    w: ReaderView,
    m: int,
    u: ReaderView,
    r: Result<u64, Error>,
)
    requires
        w.wf(),
        w.settled(),
        w.err is None,
        u.settled(),
        w.answers.is_prefix_of(u.answers),
        w.pending().len() < m <= u64::MAX,
        skips_on(v, n, w, m),
        ({
            let x = w.emptied().told(u.answers);
            let k = m - w.pending().len();
            skip_advanced(x, skip_step(x.asked(), x.progress, x.rest(), k), k, u, r)
        }),
    ensures
        (match r {
            Ok(left) => {
                &&& skips_on(v, n, u, left as int)
                &&& u.at > w.at
                &&& u.err is None
                &&& u.source == w.source
            },
            Err(e) => skipped(v.told(u.answers), n) == (u, Some(e)),
        }),
{
    let e = w.emptied();
    let k = m - w.pending().len();
    let x = w.told(u.answers);
    assert(x.emptied() =~= e.told(u.answers));
    assert(x.rest() == w.rest() && e.rest() == w.rest() && e.told(u.answers).rest() == w.rest());
    assert(x.asked() == e.told(u.answers).asked());
    assert(w.answers.is_prefix_of(u.answers));
    lemma_skip_step(x, k);
    assert(x.pending() == w.pending());
    if let Ok(left) = r {
        assert forall|a: Seq<Answer>| #[trigger] u.answers.is_prefix_of(a) implies skipped(
            v.told(a),
            n,
        ) == skipped(u.told(a), left as int) by {
            assert(w.answers.is_prefix_of(a));
            lemma_skip_step_told(e, k, u.answers, a);
            let y = w.told(a);
            lemma_skip_step(y, k);
            assert(y.emptied() =~= e.told(a));
            assert(y.rest() == w.rest());
            assert(y.pending() == w.pending());
            assert(y.asked() == e.told(a).asked());
            match skip_step(y.asked(), y.progress, y.rest(), k) {
                Step::Passed(n2, p, item) => {
                    assert(moved(y.emptied(), n2, p, item) =~= u.told(a));
                },
                Step::Dropped(n2, d) => {
                    assert(passed_over(y.emptied(), n2, d) =~= u.told(a));
                },
                _ => {},
            }
        }
    }
}

/// Skipping does not depend on what callbacks answer later.
pub proof fn lemma_skipped_told(v: ReaderView, n: int, a: Seq<Answer>, b: Seq<Answer>)
    requires
        v.wf(),
        a.is_prefix_of(b),
        skipped(v.told(a), n).0.chunks.len() <= a.len(),
    ensures
        v.chunks.len() <= skipped(v.told(a), n).0.chunks.len(),
        skipped(v.told(b), n) == (skipped(v.told(a), n).0.told(b), skipped(v.told(a), n).1),
    decreases v.source.len() - v.at,
{
    let va = v.told(a);
    let vb = v.told(b);
    assert(va.pending() == v.pending() && vb.pending() == v.pending());
    if n > v.pending().len() {
        let m = n - v.pending().len();
        lemma_skip_step(va, m);
        lemma_skip_step(vb, m);
        assert(va.rest() == v.rest() && vb.rest() == v.rest());
        let u = v.emptied();
        assert(va.emptied() =~= u.told(a));
        assert(vb.emptied() =~= u.told(b));
        match skip_step(va.asked(), v.progress, v.rest(), m) {
            Step::Passed(k, p, item) => {
                let w = moved(u, k, p, item);
                assert(moved(va.emptied(), k, p, item) =~= w.told(a));
                assert(moved(vb.emptied(), k, p, item) =~= w.told(b));
                if !(item is End) {
                    lemma_skipped_told(w, m, a, b);
                }
            },
            Step::Dropped(k, d) => {
                let w = passed_over(u, k, d);
                assert(passed_over(va.emptied(), k, d) =~= w.told(a));
                assert(passed_over(vb.emptied(), k, d) =~= w.told(b));
                lemma_skipped_told(w, m - d, a, b);
            },
            _ => {},
        }
        lemma_skip_step_told(v, m, a, b);
    }
}

/// A buffer that holds the first bytes of `data`, where there are no more.
proof fn lemma_nothing_left(p0: Seq<u8>, p1: Seq<u8>, data: Seq<u8>, got: int)
    requires
        p0.len() == p1.len(),
        0 <= got <= p0.len(),
        got <= data.len(),
        data.skip(got) == Seq::<u8>::empty(),
        p1.take(got) == data.take(got),
        p1.skip(got) == p0.skip(got),
    ensures
        data.len() == got,
        p1 == data + p0.skip(got),
{
    assert(data.skip(got).len() == data.len() - got);
    assert(data.take(got) =~= data);
    assert(p1 =~= p1.take(got) + p1.skip(got));
}

/// A buffer that holds the first bytes of `data`, and then more of them.
proof fn lemma_joined(
    p0: Seq<u8>,
    p1: Seq<u8>,
    p2: Seq<u8>,
    data: Seq<u8>,
    pending: Seq<u8>,
    got: int,
    n: int,
)
    requires
        p0.len() == p1.len() == p2.len(),
        0 <= got <= got + n <= p0.len(),
        0 <= n <= pending.len(),
        got + pending.len() <= data.len(),
        data.skip(got).take(pending.len() as int) == pending,
        p1.take(got) == data.take(got),
        p1.skip(got) == p0.skip(got),
        p2.take(got) == p1.take(got),
        p2.skip(got) == pending.take(n) + p1.skip(got).skip(n),
    ensures
        p2.take(got + n) == data.take(got + n),
        p2.skip(got + n) == p0.skip(got + n),
        data.skip(got + n) == data.skip(got).skip(n),
{
    let t = p2.skip(got);
    assert(t.take(n) =~= data.skip(got).take(n)) by {
        assert(data.skip(got).take(n) =~= pending.take(n));
    }
    assert(p2.take(got + n) =~= p2.take(got) + t.take(n));
    assert(data.take(got + n) =~= data.take(got) + data.skip(got).take(n));
    assert(p2.skip(got + n) =~= t.skip(n));
    assert(p0.skip(got + n) =~= p0.skip(got).skip(n));
    assert(data.skip(got + n) =~= data.skip(got).skip(n));
}

/// Reading on only goes forward, and keeps that there is no error.
pub proof fn lemma_filled_moves(v: ReaderView)
    requires
        v.wf(),
    ensures
        ({
            let (u, f) = filled(v);
            &&& u.source == v.source
            &&& u.at >= v.at
            &&& v.pos == v.block.len() && f == Ok::<bool, Error>(true) ==> u.at > v.at
            &&& v.pos < v.block.len() ==> u == v
            &&& v.err is None && f is Ok ==> u.err is None
            &&& u.answers == v.answers
        }),
    decreases v.source.len() - v.at,
{
    lemma_step(v);
    if v.pos == v.block.len() {
        if let Step::Passed(n, p, item) = step(v.asked(), v.progress, v.rest()) {
            lemma_filled_moves(moved(v, n, p, item));
        }
    }
}

/// The reader at another place in its source, where the data at `offset` starts.
pub open spec fn jumped(v: ReaderView, at: int, offset: u64) -> ReaderView {
    ReaderView {
        at: if at < v.source.len() {
            at
        } else {
            v.source.len() as int
        },
        progress: Progress { total: offset, ..v.progress },
        block_start: offset,
        block: Seq::empty(),
        pos: 0,
        ..v
    }
}

impl Reader {
    /// The whole source.
    pub(crate) fn source(&self) -> (r: &[u8])
        ensures
            r@ == self@.source,
    {
        self.source.as_slice()
    }

    /// The error that every call returns, if there is one.
    pub(crate) fn error(&self) -> (r: Option<Error>)
        ensures
            r == self@.err,
    {
        self.err
    }

    /// Lets the reader go on after an error.
    pub(crate) fn clear_error(&mut self)
        requires
            old(self).wf(),
        ensures
            final(self).wf(),
            final(self)@ == (ReaderView { err: None, ..old(self)@ }),
    {
        self.err = None;
    }

    /// Whether the chunk that starts the stream was seen.
    pub(crate) fn header_read(&self) -> (r: bool)
        ensures
            r == self@.progress.header_read,
    {
        self.progress.header_read
    }

    /// Goes back to the start of the source.
    pub(crate) fn rewind(&mut self)
        requires
            old(self).wf(),
        ensures
            final(self).wf(),
            final(self)@ == (ReaderView { at: 0, ..old(self)@ }),
    {
        self.at = 0;
    }

    /// Moves within the current block, where `offset` is in it; says whether it is.
    pub(crate) fn move_in_block(&mut self, offset: u64) -> (r: bool)
        requires
            old(self).wf(),
        ensures
            final(self).wf(),
            r == (old(self)@.block_start <= offset < old(self)@.block_start
                + old(self)@.block.len()),
            r ==> final(self)@ == (ReaderView {
                pos: offset - old(self)@.block_start,
                ..old(self)@
            }),
            !r ==> final(self)@ == old(self)@,
    {
        if offset >= self.block_start && offset - self.block_start < self.block.len() as u64 {
            self.pos = (offset - self.block_start) as usize;
            true
        } else {
            false
        }
    }

    /// Goes to the place `at` in the source, where the data at `offset` starts.
    pub(crate) fn jump(&mut self, at: u64, offset: u64)
        requires
            old(self).wf(),
        ensures
            final(self).wf(),
            final(self)@ == jumped(old(self)@, at as int, offset),
    {
        self.at = if at < self.source.len() as u64 {
            at as usize
        } else {
            self.source.len()
        };
        self.progress.total = offset;
        self.block_start = offset;
        self.block.clear();
        self.pos = 0;
        assert(self@ =~= jumped(old(self)@, at as int, offset));
    }
}

/// The reader after its stream was read for workers: it is behind what was read, and
/// the current block is as it was.
pub open spec fn after_jobs(v: ReaderView, j: mt_reader::JobsView) -> ReaderView {
    ReaderView {
        at: v.at + j.used,
        progress: Progress { total: v.progress.total, ..j.progress },
        chunks: v.chunks + j.chunks,
        ..v
    }
}

/// The jobs of what a reader has before it.
pub open spec fn jobs_of(v: ReaderView) -> mt_reader::JobsView {
    mt_reader::jobs(v.options, v.ahead(), Progress { total: 0, ..v.progress }, v.rest())
}

/// What comes next for workers, by the header of the chunk and then by its body.
proof fn lemma_head_next(v: ReaderView, p: Progress)
    requires
        v.wf(),
    ensures
        ({
            let s = v.rest();
            let next = mt_reader::next(v.asked(), p, s);
            let len = layout::chunk_len_of(s.skip(1));
            if s.len() < 4 {
                next == if s.len() == 0 && !p.expect_eof {
                    NextView::Ended
                } else {
                    NextView::Failed(s.len() as int, Error::Corrupt)
                }
            } else {
                match chunk::planned(v.options, p, true, s[0], len) {
                    Err(e) => next == NextView::Failed(4, e),
                    Ok(plan) => if s.len() - 4 < len {
                        next == NextView::Failed(s.len() as int, Error::Corrupt)
                    } else {
                        let body = v.source.subrange(v.at + 4, v.at + 4 + len);
                        next == match mt_reader::dispatched(v.asked(), p, plan, s[0], body) {
                            Err(e) => NextView::Failed(4 + len, e),
                            Ok((p2, d)) => mt_reader::answered(v.asked(), 4 + len, p2, d),
                        }
                    },
                }
            }
        }),
{
    reveal(mt_reader::next);
    let s = v.rest();
    if s.len() >= 4 {
        let len = layout::chunk_len_of(s.skip(1));
        lemma_planned(v.options, v.asked().answer, p, true, s[0], len);
        if s.len() - 4 >= len {
            assert(v.source.subrange(v.at + 4, v.at + 4 + len) =~= s.subrange(4, 4 + len));
        }
    }
}

/// The reader behind a chunk of `n` bytes that was read for workers.
pub open spec fn taken_for_workers(
    v: ReaderView,
    n: int,
    d: mt_reader::DispatchedView,
) -> ReaderView {
    ReaderView { at: v.at + n, chunks: v.chunks + mt_reader::handed(d), ..v }
}

impl Reader {
    /// Reads the next chunk for workers; `None` at the end of the stream.
    fn next_dispatched(&mut self, p: &mut Progress) -> (r: Result<Option<Dispatched>, Error>)
        requires
            old(self).wf(),
            old(p).wf(),
        ensures
            final(self).wf(),
            final(p).wf(),
            old(self)@.answers.is_prefix_of(final(self)@.answers),
            ({
                let v = old(self)@.told(final(self)@.answers);
                match mt_reader::next(v.asked(), *old(p), v.rest()) {
                    NextView::Ended => {
                        &&& r == Ok::<Option<Dispatched>, Error>(None)
                        &&& final(self)@ == v
                        &&& *final(p) == *old(p)
                    },
                    NextView::Failed(n, e) => {
                        &&& r == Err::<Option<Dispatched>, Error>(e)
                        &&& final(self)@ == (ReaderView { at: v.at + n, ..v })
                    },
                    NextView::Refused(n, id, b, e) => {
                        &&& r == Err::<Option<Dispatched>, Error>(e)
                        &&& final(self)@ == (ReaderView {
                            at: v.at + n,
                            chunks: v.chunks.push((id, b)),
                            ..v
                        })
                    },
                    NextView::Passed(n, p2, d) => {
                        &&& r is Ok
                        &&& r->Ok_0 is Some
                        &&& (r->Ok_0->0)@ == d
                        &&& final(self)@ == taken_for_workers(v, n, d)
                        &&& *final(p) == p2
                    },
                }
            }),
    {
        let ghost v = self@;
        let ghost s = v.rest();
        let ghost p0 = *p;
        proof {
            assert(v.told(v.answers) =~= v);
            lemma_head_next(v, p0);
        }
        let left: usize = self.source.len() - self.at;
        if left < 4 {
            if left == 0 && !p.expect_eof {
                return Ok(None);
            }
            self.at = self.source.len();
            return Err(Error::Corrupt);
        }
        let kind: u8 = self.source[self.at];
        let len: usize = read_chunk_len(
            slice_subrange(self.source.as_slice(), self.at + 1, self.at + 4),
        );
        assert(len == layout::chunk_len_of(s.skip(1)));
        proof {
            self.lemma_options();
            lemma_planned_types(v.options, self.callbacks(), p0, true, kind, len as int);
        }
        match plan_chunk(&self.options, p, true, kind, len) {
            Err(e) => {
                self.at = self.at + 4;
                Err(e)
            },
            Ok(plan) => {
                if left - 4 < len {
                    self.at = self.source.len();
                    return Err(Error::Corrupt);
                }
                let r = self.dispatch_body(p, plan, kind, len);
                proof {
                    let u = v.told(self@.answers);
                    assert(u.rest() == s);
                    lemma_head_next(u, p0);
                }
                match r {
                    Err(e) => Err(e),
                    Ok(d) => Ok(Some(d)),
                }
            },
        }
    }

    /// Takes the next chunk, whose body has `len` bytes, for workers.
    fn dispatch_body(&mut self, p: &mut Progress, plan: Plan, kind: u8, len: usize) -> (r: Result<
        Dispatched,
        Error,
    >)
        requires
            old(self).wf(),
            old(p).wf(),
            old(self)@.at + 4 + len <= old(self)@.source.len(),
            chunk::suits(plan, kind, len as int),
            plan is User ==> old(self)@.options.callback(kind),
        ensures
            final(self).wf(),
            final(p).wf(),
            old(self)@.answers.is_prefix_of(final(self)@.answers),
            ({
                let v = old(self)@.told(final(self)@.answers);
                let body = v.source.subrange(v.at + 4, v.at + 4 + len);
                match mt_reader::dispatched(v.asked(), *old(p), plan, kind, body) {
                    Err(e) => {
                        &&& r == Err::<Dispatched, Error>(e)
                        &&& final(self)@ == (ReaderView { at: v.at + 4 + len, ..v })
                    },
                    Ok((p2, d)) => match mt_reader::answered(v.asked(), 4 + len, p2, d) {
                        NextView::Refused(n, id, b, e) => {
                            &&& r == Err::<Dispatched, Error>(e)
                            &&& final(self)@ == (ReaderView {
                                at: v.at + n,
                                chunks: v.chunks.push((id, b)),
                                ..v
                            })
                        },
                        _ => {
                            &&& r is Ok
                            &&& (r->Ok_0)@ == d
                            &&& final(self)@ == taken_for_workers(v, 4 + len, d)
                            &&& *final(p) == p2
                        },
                    },
                }
            }),
    {
        let ghost v = self@;
        assert(v.told(v.answers) =~= v);
        assert(self.at + 4 + len <= self.source.len());
        let body: &[u8] = slice_subrange(self.source.as_slice(), self.at + 4, self.at + 4 + len);
        proof {
            self.lemma_options();
        }
        let r = dispatch_chunk(&self.options, p, &self.sums, plan, kind, body);
        self.at = self.at + 4 + len;
        match r {
            Err(e) => Err(e),
            Ok(Dispatched::Other(Item::User(id, data))) => {
                let x: Answer = self.ask_callback(id, data.as_slice());
                proof {
                    assert(v.chunks.push((id, data@)) =~= v.chunks + seq![(id, data@)]);
                }
                match x {
                    Err(e) => Err(e),
                    Ok(()) => Ok(Dispatched::Other(Item::User(id, data))),
                }
            },
            Ok(d) => {
                assert(v.chunks + mt_reader::handed(d@) =~= v.chunks);
                Ok(d)
            },
        }
    }

    /// Decodes the rest of the stream with `threads` workers and appends it to `w`.
    ///
    /// At most that many blocks wait at a time. Not to be called once data was read or
    /// skipped. Where both the stream and a block in it are malformed, the error is that
    /// of either.
    pub fn decode_concurrent(&mut self, w: Vec<u8>, threads: usize) -> (r: Result<
        ConcurrentDecode,
        Error,
    >)
        requires
            old(self).wf(),
        ensures
            final(self).wf(),
            old(self)@.begun ==> {
                &&& r == Err::<ConcurrentDecode, Error>(
                    Error::InvalidInput("decode_concurrent called after Read"),
                )
                &&& final(self)@ == old(self)@
            },
            !old(self)@.begun && old(self)@.err is Some ==> {
                &&& r == Err::<ConcurrentDecode, Error>(old(self)@.err->0)
                &&& final(self)@ == old(self)@
            },
            old(self)@.answers.is_prefix_of(final(self)@.answers),
            !old(self)@.begun && old(self)@.err is None ==> {
                let v = old(self)@.told(final(self)@.answers);
                let j = jobs_of(v);
                let out = mt_reader::outputs(j.jobs);
                &&& j.err is None && out is Ok ==> {
                    &&& r is Ok
                    &&& (r->Ok_0).writer@ == w@ + out->Ok_0
                    &&& (r->Ok_0).bytes_written == chunk::wrapping(
                        0,
                        (out->Ok_0).len() as int,
                    )
                    &&& final(self)@ == after_jobs(v, j)
                }
                &&& j.err is Some || out is Err ==> r is Err && (j.err == Some(r->Err_0) || out
                    == Err::<Seq<u8>, Error>(r->Err_0))
            },
    {
        if self.begun {
            return Err(Error::InvalidInput("decode_concurrent called after Read"));
        }
        if let Some(e) = self.err {
            return Err(e);
        }
        let window: usize = if threads == 0 {
            1
        } else {
            threads
        };
        let ghost v = self@;
        let mut p: Progress = Progress { total: 0, ..self.progress };
        let mut q: VecDeque<DecodeJob> = VecDeque::new();
        let mut sink: DecodeSink = DecodeSink::new(w);
        let ghost mut done: Seq<JobView> = Seq::empty();
        proof {
            accounts::lemma_none_done(v, w@, p);
            assert(q@ =~= Seq::<DecodeJob>::empty());
        }
        loop
            invariant
                self.wf(),
                p.wf(),
                window > 0,
                v.wf(),
                v == old(self)@,
                !v.begun,
                v.err is None,
                self@.options == v.options,
                v.answers.is_prefix_of(self@.answers),
                accounts::accounted(v, w@, done, q@, self@, p, sink.bytes(), sink.count()),
            ensures
                mt_reader::next(self@.asked(), p, self@.rest()) is Ended,
            decreases self@.source.len() - self@.at,
        {
            if q.len() >= window {
                let ghost job = q@[0]@;
                let ghost before = (q@, sink.bytes(), sink.count());
                let r = run_first(&mut q, &mut sink, &self.sums);
                proof {
                    accounts::lemma_ran(v, w@, done, before.0, self@, p, before.1, before.2);
                    done = done.push(job);
                }
                if let Err(e) = r {
                    return Err(e);
                }
            }
            let ghost u = self@;
            let ghost before = (q@, p);
            let next = self.next_dispatched(&mut p);
            proof {
                let x = u.told(self@.answers);
                assert(u.told(u.answers) =~= u);
                mt_reader::lemma_next(x.asked(), before.1, x.rest());
                assert(v.answers.is_prefix_of(self@.answers));
                accounts::lemma_not_taken(
                    v,
                    w@,
                    done,
                    q@,
                    u,
                    before.1,
                    sink.bytes(),
                    sink.count(),
                    self@.answers,
                );
            }
            match next {
                Err(e) => {
                    return Err(e);
                },
                Ok(None) => {
                    proof {
                        assert(self@.answers =~= u.answers);
                        assert(self@ =~= u);
                    }
                    break ;
                },
                Ok(Some(Dispatched::Job(job))) => {
                    q.push_back(job);
                    proof {
                        let d = mt_reader::DispatchedView::Job(job@);
                        assert(mt_reader::waiting(q@) =~= mt_reader::waiting(before.0)
                            + mt_reader::job_of(d));
                    }
                },
                Ok(Some(Dispatched::Other(item))) => {
                    proof {
                        let d = mt_reader::DispatchedView::Other(item@);
                        assert(mt_reader::waiting(q@) =~= mt_reader::waiting(before.0)
                            + mt_reader::job_of(d));
                    }
                },
            }
            proof {
                accounts::lemma_taken(
                    v,
                    w@,
                    done,
                    before.0,
                    u,
                    before.1,
                    sink.bytes(),
                    sink.count(),
                    q@,
                    self@,
                );
            }
        }
        while q.len() > 0
            invariant
                self.wf(),
                p.wf(),
                v.wf(),
                v == old(self)@,
                !v.begun,
                v.err is None,
                v.answers.is_prefix_of(self@.answers),
                mt_reader::next(self@.asked(), p, self@.rest()) is Ended,
                accounts::accounted(v, w@, done, q@, self@, p, sink.bytes(), sink.count()),
            decreases q@.len(),
        {
            let ghost job = q@[0]@;
            let ghost before = (q@, sink.bytes(), sink.count());
            let r = run_first(&mut q, &mut sink, &self.sums);
            proof {
                accounts::lemma_ran(v, w@, done, before.0, self@, p, before.1, before.2);
                done = done.push(job);
            }
            if let Err(e) = r {
                return Err(e);
            }
        }
        let ghost u = self@;
        proof {
            accounts::lemma_all_done(v, w@, done, q@, u, p, sink.bytes(), sink.count());
        }
        self.progress = Progress { total: self.progress.total, ..p };
        assert(self@ =~= ReaderView { progress: self@.progress, ..u });
        Ok(sink.finish())
    }
}

} // verus!
