//! Writing with workers.
//!
//! Blocks and user chunks are put in a queue in the order in which they come. Workers
//! make data chunks of the blocks, in any order. What is done is put out in the order of
//! the queue.
use crate::block::load_store::{append_range, append_slice};
use crate::block::Level;
use crate::index;
use crate::stream::chunk;
use crate::stream::crc::Crc32c;
use crate::stream::error::Error;
use crate::stream::format::{
    DEFAULT_BLOCK_SIZE, MAX_BLOCK_SIZE, MAX_USER_CHUNK_SIZE, MAX_USER_NON_SKIPPABLE_CHUNK,
    MIN_BLOCK_SIZE, MIN_USER_SKIPPABLE_CHUNK,
};
use crate::stream::mt_pool::BufferPool;
use crate::stream::output;
use crate::stream::output::{encode_chunk, Closing, Encoded, Frame, Output, OutputView};
use crate::stream::writer;
use crate::stream::writer::WriterOptions;
use crate::stream::Concurrency;
use std::collections::VecDeque;
use vstd::prelude::*;
use vstd::slice::slice_subrange;

verus! {

/// The options of a writer with workers where none are given.
pub open spec fn default_options() -> WriterOptions {
    WriterOptions {
        block_size: DEFAULT_BLOCK_SIZE,
        level: Level::Balanced,
        uncompressed: false,
        padding: 0,
        flush_on_write: false,
        generate_index: true,
        append_index: false,
    }
}

/// Builder for the options of an [`MtWriter`].
///
/// Where the number of workers is not set, it is that of the machine: whoever runs them
/// finds it out.
#[must_use]
pub struct MtWriterBuilder {
    options: WriterOptions,
    concurrency: Option<usize>,
}

impl View for MtWriterBuilder {
    type V = (WriterOptions, Option<usize>);

    closed spec fn view(&self) -> (WriterOptions, Option<usize>) {
        (self.options, self.concurrency)
    }
}

impl Default for MtWriterBuilder {
    fn default() -> (r: Self)
        ensures
            r@ == (default_options(), None::<usize>),
    {
        MtWriterBuilder {
            options: WriterOptions {
                block_size: DEFAULT_BLOCK_SIZE,
                level: Level::Balanced,
                uncompressed: false,
                padding: 0,
                flush_on_write: false,
                generate_index: true,
                append_index: false,
            },
            concurrency: None,
        }
    }
}

/// What is wrong with the options of a writer with workers.
pub open spec fn mistake(o: WriterOptions, concurrency: Option<usize>) -> Option<Error> {
    if !(MIN_BLOCK_SIZE <= o.block_size <= MAX_BLOCK_SIZE) {
        Some(Error::Config("block_size must be in [MIN_BLOCK_SIZE, MAX_BLOCK_SIZE]"))
    } else if o.padding > MAX_BLOCK_SIZE {
        Some(Error::Config("padding must be \u{2264} MAX_BLOCK_SIZE"))
    } else if concurrency == Some(0usize) {
        Some(Error::Config("concurrency must be \u{2265} 1"))
    } else {
        None
    }
}

impl MtWriterBuilder {
    #[verifier::type_invariant]
    spec fn inv(self) -> bool {
        !self.options.flush_on_write
    }

    /// A builder with the default options.
    pub fn new() -> (r: Self)
        ensures
            r@ == (default_options(), None::<usize>),
    {
        Self::default()
    }

    /// Sets the largest block.
    pub fn block_size(self, n: usize) -> (r: Self)
        ensures
            r@ == ((WriterOptions { block_size: n, ..self@.0 }), self@.1),
    {
        proof {
            use_type_invariant(&self);
        }
        let mut o: WriterOptions = self.options;
        o.block_size = n;
        MtWriterBuilder { options: o, concurrency: self.concurrency }
    }

    /// Sets the compression level, and turns compression on.
    pub fn level(self, level: Level) -> (r: Self)
        ensures
            r@ == ((WriterOptions { level, uncompressed: false, ..self@.0 }), self@.1),
    {
        proof {
            use_type_invariant(&self);
        }
        let mut o: WriterOptions = self.options;
        o.level = level;
        o.uncompressed = false;
        MtWriterBuilder { options: o, concurrency: self.concurrency }
    }

    /// Turns compression off.
    pub fn uncompressed(self) -> (r: Self)
        ensures
            r@ == ((WriterOptions { uncompressed: true, ..self@.0 }), self@.1),
    {
        proof {
            use_type_invariant(&self);
        }
        let mut o: WriterOptions = self.options;
        o.uncompressed = true;
        MtWriterBuilder { options: o, concurrency: self.concurrency }
    }

    /// Makes the size of the closed stream a multiple of `n`; 0 and 1 leave it as it
    /// is.
    pub fn padding(self, n: u32) -> (r: Self)
        ensures
            r@ == (
                (WriterOptions {
                    padding: if n <= 1 {
                        0
                    } else {
                        n
                    },
                    ..self@.0
                }),
                self@.1,
            ),
    {
        proof {
            use_type_invariant(&self);
        }
        let mut o: WriterOptions = self.options;
        o.padding = if n <= 1 {
            0
        } else {
            n
        };
        MtWriterBuilder { options: o, concurrency: self.concurrency }
    }

    /// Sets the number of workers.
    pub fn concurrency(self, n: usize) -> (r: Self)
        ensures
            r@ == (self@.0, Some(n)),
    {
        proof {
            use_type_invariant(&self);
        }
        MtWriterBuilder { options: self.options, concurrency: Some(n) }
    }

    /// Sets whether an index is built. It is in any case where it stands at the end of
    /// the stream.
    pub fn generate_index(self, b: bool) -> (r: Self)
        ensures
            r@ == ((WriterOptions { generate_index: b, ..self@.0 }), self@.1),
    {
        proof {
            use_type_invariant(&self);
        }
        let mut o: WriterOptions = self.options;
        o.generate_index = b;
        MtWriterBuilder { options: o, concurrency: self.concurrency }
    }

    /// Builds an index and puts it at the end of the stream.
    pub fn append_index(self) -> (r: Self)
        ensures
            r@ == (
                (WriterOptions { generate_index: true, append_index: true, ..self@.0 }),
                self@.1,
            ),
    {
        proof {
            use_type_invariant(&self);
        }
        let mut o: WriterOptions = self.options;
        o.generate_index = true;
        o.append_index = true;
        MtWriterBuilder { options: o, concurrency: self.concurrency }
    }

    /// Returns the options and the number of workers. Fails where an option is out of range.
    pub fn check(self) -> (r: Result<(WriterOptions, Concurrency), Error>)
        ensures
            (match mistake(self@.0, self@.1) {
                Some(e) => r == Err::<(WriterOptions, Concurrency), Error>(e),
                None => {
                    &&& r is Ok
                    &&& (r->Ok_0).0 == settled(self@.0)
                    &&& (r->Ok_0).0.wf()
                    &&& !(r->Ok_0).0.flush_on_write
                    &&& (r->Ok_0).1.count() == match self@.1 {
                        Some(n) => n,
                        None => 1,
                    }
                },
            }),
    {
        proof {
            use_type_invariant(&self);
        }
        let o: WriterOptions = self.options;
        if o.block_size < MIN_BLOCK_SIZE || o.block_size > MAX_BLOCK_SIZE {
            return Err(Error::Config("block_size must be in [MIN_BLOCK_SIZE, MAX_BLOCK_SIZE]"));
        }
        if o.padding as usize > MAX_BLOCK_SIZE {
            return Err(Error::Config("padding must be \u{2264} MAX_BLOCK_SIZE"));
        }
        let workers: Option<Concurrency> = match self.concurrency {
            Some(n) => Concurrency::new(n),
            None => Some(Concurrency::one()),
        };
        match workers {
            None => Err(Error::Config("concurrency must be \u{2265} 1")),
            Some(c) => Ok(
                (WriterOptions { generate_index: o.generate_index || o.append_index, ..o }, c),
            ),
        }
    }

    /// Makes a writer that puts its stream behind what `sink` holds. Fails where an
    /// option is out of range.
    pub fn build(self, sink: Vec<u8>) -> (r: Result<MtWriter, Error>)
        ensures
            (match mistake(self@.0, self@.1) {
                Some(e) => r == Err::<MtWriter, Error>(e),
                None => r is Ok && (r->Ok_0).wf() && (r->Ok_0)@ == fresh(self@.0, sink@),
            }),
    {
        match self.check() {
            Err(e) => Err(e),
            Ok((o, c)) => Ok(MtWriter::with_builder(sink, o, c)),
        }
    }
}

/// What was given to a writer to put out.
#[verifier::ext_equal]
pub enum EntryView {
    /// A block.
    Block(Seq<u8>),
    /// A user chunk: its type and its payload.
    User(u8, Seq<u8>),
}

impl EntryView {
    /// The data of the entry.
    pub open spec fn data(self) -> Seq<u8> {
        match self {
            EntryView::Block(d) => d,
            EntryView::User(_, _) => Seq::empty(),
        }
    }

    /// The entry can be put out.
    pub open spec fn wf(self, block_size: int) -> bool {
        match self {
            EntryView::Block(d) => 0 < d.len() <= block_size,
            EntryView::User(id, b) => chunk::is_user(id) && b.len() <= MAX_USER_CHUNK_SIZE,
        }
    }
}

/// What waits in the queue of a writer.
#[derive(Debug)]
pub enum Entry {
    /// A block, for a worker.
    Block(Vec<u8>),
    /// A user chunk.
    User(u8, Vec<u8>),
}

impl View for Entry {
    type V = EntryView;

    open spec fn view(&self) -> EntryView {
        match self {
            Entry::Block(b) => EntryView::Block(b@),
            Entry::User(id, b) => EntryView::User(*id, b@),
        }
    }
}

/// Frame `f` is what became of entry `e`.
pub open spec fn is_frame_of(f: Frame, e: EntryView, packing: Option<Level>) -> bool {
    match (f, e) {
        (Frame::Block(d, c), EntryView::Block(b)) => d == b && output::is_data_chunk(
            c,
            d,
            packing,
        ),
        (Frame::User(id, b), EntryView::User(id2, b2)) => id == id2 && b == b2,
        _ => false,
    }
}

/// Frames are what became of the first entries.
pub open spec fn are_frames_of(fs: Seq<Frame>, es: Seq<EntryView>, packing: Option<Level>) -> bool {
    &&& fs.len() <= es.len()
    &&& forall|i: int| 0 <= i < fs.len() ==> is_frame_of(#[trigger] fs[i], es[i], packing)
}

/// What a writer with workers holds.
#[verifier::ext_equal]
pub struct MtView {
    /// The options.
    pub options: WriterOptions,
    /// What was put out.
    pub out: OutputView,
    /// All that was given to be put out.
    pub entries: Seq<EntryView>,
    /// What was written and not given to be put out yet.
    pub pending: Seq<u8>,
    /// The error that every call returns from now on.
    pub err: Option<Error>,
}

/// The options as they are used: an index that stands at the end is built.
pub open spec fn settled(o: WriterOptions) -> WriterOptions {
    WriterOptions { generate_index: o.generate_index || o.append_index, ..o }
}

/// A writer to which nothing was written.
pub open spec fn fresh(o: WriterOptions, sink: Seq<u8>) -> MtView {
    MtView {
        options: settled(o),
        out: writer::fresh(settled(o), sink).out,
        entries: Seq::empty(),
        pending: Seq::empty(),
        err: None,
    }
}

impl MtView {
    /// The parts agree; what was put out is what became of the first entries. Where it
    /// failed, the next entry is a block that does not fit in the index.
    pub open spec fn wf(self) -> bool {
        &&& self.options.wf()
        &&& !self.options.flush_on_write
        &&& self.out.wf()
        &&& self.out.block_size == self.options.block_size
        &&& self.out.indexed == self.options.generate_index
        &&& self.pending.len() < self.options.block_size
        &&& are_frames_of(self.out.frames, self.entries, self.options.packing())
        &&& forall|i: int|
            0 <= i < self.entries.len() ==> (#[trigger] self.entries[i]).wf(
                self.options.block_size as int,
            )
        &&& self.err matches Some(e) ==> self.refused(e)
    }

    /// The next entry was refused with `e`.
    pub open spec fn refused(self, e: Error) -> bool {
        &&& self.out.frames.len() < self.entries.len()
        &&& self.entries[self.out.frames.len() as int] is Block
        &&& self.out.refusal() is Some
        &&& e == Error::Index(self.out.refusal()->0)
    }

    /// All that was written.
    pub open spec fn data(self) -> Seq<u8> {
        entries_data(self.entries) + self.pending
    }
}

/// The data of entries.
pub open spec fn entries_data(es: Seq<EntryView>) -> Seq<u8>
    decreases es.len(),
{
    if es.len() == 0 {
        Seq::empty()
    } else {
        entries_data(es.drop_last()) + es.last().data()
    }
}

/// Blocks as entries.
pub open spec fn block_entries(blocks: Seq<Seq<u8>>) -> Seq<EntryView> {
    blocks.map_values(|b: Seq<u8>| EntryView::Block(b))
}

/// `w` is `v` after more was put out, or nothing.
pub open spec fn grown(v: OutputView, w: OutputView) -> bool {
    &&& w == OutputView { started: w.started, frames: w.frames, ..v }
    &&& v.frames.is_prefix_of(w.frames)
}

/// `w` is `v` after entries `es` were given to be put out and `pending` was kept, or
/// after it failed with `err`: an entry that was given now or before does not fit in the
/// index.
pub open spec fn given(
    v: MtView,
    w: MtView,
    es: Seq<EntryView>,
    pending: Seq<u8>,
    err: Option<Error>,
) -> bool {
    &&& w.options == v.options
    &&& grown(v.out, w.out)
    &&& match err {
        None => w.err is None && w.entries == v.entries + es && w.pending == pending,
        Some(e) => {
            &&& w.err == Some(e)
            &&& v.entries.is_prefix_of(w.entries)
            &&& w.entries.is_prefix_of(v.entries + es)
        },
    }
}

/// What became of giving entries: nothing, where it had failed before.
pub open spec fn gives(
    v: MtView,
    w: MtView,
    es: Seq<EntryView>,
    pending: Seq<u8>,
    err: Option<Error>,
) -> bool {
    if v.err is Some {
        w == v && err == v.err
    } else {
        given(v, w, es, pending, err)
    }
}

/// What became of giving what is pending and then `buf`: where it had failed before,
/// it fails again if there is a block to be given.
pub open spec fn gives_buffer(v: MtView, w: MtView, buf: Seq<u8>, err: Option<Error>) -> bool {
    if v.err is Some {
        &&& w == MtView { pending: Seq::empty(), ..v }
        &&& err == if v.pending.len() == 0 && buf.len() == 0 {
            None
        } else {
            v.err
        }
    } else {
        given(
            v,
            w,
            pending_entries(v) + block_entries(
                writer::pieces(buf, v.options.block_size as int),
            ),
            Seq::empty(),
            err,
        )
    }
}

proof fn lemma_given_then(
    u: MtView,
    v: MtView,
    w: MtView,
    a: Seq<EntryView>,
    b: Seq<EntryView>,
    more: Seq<EntryView>,
    p: Seq<u8>,
    q: Seq<u8>,
    err: Option<Error>,
)
    requires
        given(u, v, a, p, None),
        given(v, w, b, q, err),
    ensures
        err is None ==> given(u, w, a + b, q, None),
        err is Some ==> given(u, w, a + b + more, q, err),
{
    let f = u.out.frames;
    let g = v.out.frames;
    let h = w.out.frames;
    assert(f =~= g.subrange(0, f.len() as int));
    assert(g =~= h.subrange(0, g.len() as int));
    assert forall|i: int| 0 <= i < f.len() implies f[i] == h[i] by {
        assert(f[i] == g[i]);
        assert(g[i] == h[i]);
    }
    assert(f =~= h.subrange(0, f.len() as int));
    assert(u.entries + a + b =~= u.entries + (a + b));
    if err is Some {
        let all = u.entries + (a + b + more);
        let x = v.entries;
        let y = w.entries;
        assert(x =~= y.subrange(0, x.len() as int));
        assert(y =~= (x + b).subrange(0, y.len() as int));
        assert(u.entries =~= y.subrange(0, u.entries.len() as int)) by {
            assert forall|i: int| 0 <= i < u.entries.len() implies u.entries[i] == y[i] by {
                assert(x[i] == u.entries[i]);
                assert(x[i] == y[i]);
            }
        }
        assert(y =~= all.subrange(0, y.len() as int)) by {
            assert forall|i: int| 0 <= i < y.len() implies y[i] == all[i] by {
                assert(y[i] == (x + b)[i]);
            }
        }
    }
}

proof fn lemma_grown_self(v: OutputView)
    ensures
        grown(v, v),
{
    assert(v.frames =~= v.frames.subrange(0, v.frames.len() as int));
}

proof fn lemma_block_entries(a: Seq<Seq<u8>>, b: Seq<Seq<u8>>)
    ensures
        block_entries(a + b) == block_entries(a) + block_entries(b),
{
    assert(block_entries(a + b) =~= block_entries(a) + block_entries(b));
}

proof fn lemma_entry_pushed(es: Seq<EntryView>, e: EntryView)
    ensures
        entries_data(es.push(e)) == entries_data(es) + e.data(),
{
    assert(es.push(e).drop_last() =~= es);
}

/// A writer of a stream of chunks that hands blocks to workers.
pub struct MtWriter {
    options: WriterOptions,
    concurrency: Concurrency,
    out: Output,
    sums: Crc32c,
    queue: VecDeque<Entry>,
    ibuf: Vec<u8>,
    input_pool: BufferPool,
    uncomp_written: u64,
    err: Option<Error>,
    entries: Ghost<Seq<EntryView>>,
}

impl View for MtWriter {
    type V = MtView;

    closed spec fn view(&self) -> MtView {
        MtView {
            options: self.options,
            out: self.out@,
            entries: self.entries@,
            pending: self.ibuf@,
            err: self.err,
        }
    }
}

/// The entries in a queue.
spec fn queued(q: Seq<Entry>) -> Seq<EntryView> {
    q.map_values(|e: Entry| e@)
}

impl MtWriter {
    /// The writer is in order.
    pub open spec fn wf(&self) -> bool {
        self.queue_wf() && self@.wf()
    }

    /// The sink holds what was put out, and the queue holds the entries that were not.
    pub closed spec fn queue_wf(&self) -> bool {
        &&& self.out.wf()
        &&& self.input_pool.wf()
        &&& self.err is None ==> queued(self.queue@) == self.entries@.skip(
            self.out@.frames.len() as int,
        )
        &&& self.uncomp_written == chunk::wrapping(0, entries_data(self.entries@).len() as int)
    }

    /// A writer with the default options and one worker that puts its stream behind what
    /// `sink` holds.
    pub fn new(sink: Vec<u8>) -> (r: Self)
        ensures
            r.wf(),
            r@ == fresh(default_options(), sink@),
    {
        MtWriter::with_builder(sink, MtWriterBuilder::new().options, Concurrency::one())
    }

    fn with_builder(sink: Vec<u8>, b: WriterOptions, concurrency: Concurrency) -> (r: Self)
        requires
            settled(b).wf(),
            !b.flush_on_write,
        ensures
            r.wf(),
            r@ == fresh(b, sink@),
    {
        let o: WriterOptions = WriterOptions {
            generate_index: b.generate_index || b.append_index,
            ..b
        };
        let n: usize = concurrency.get();
        let spare: usize = if n < usize::MAX {
            n + 1
        } else {
            n
        };
        let r = MtWriter {
            options: o,
            concurrency,
            out: Output::new(sink, o.block_size, o.generate_index),
            sums: Crc32c::new(),
            queue: VecDeque::new(),
            ibuf: Vec::new(),
            input_pool: BufferPool::new(spare, o.block_size),
            uncomp_written: 0,
            err: None,
            entries: Ghost(Seq::empty()),
        };
        assert(r@ =~= fresh(b, sink@));
        assert(queued(r.queue@) =~= r.entries@.skip(0));
        r
    }

    /// Returns how many bytes were taken in.
    pub fn uncompressed_written(&self) -> (r: u64)
        requires
            self.wf(),
        ensures
            r == chunk::wrapping(0, self@.data().len() as int),
    {
        self.uncomp_written.wrapping_add(self.ibuf.len() as u64)
    }

    /// Puts out the first entry of the queue.
    fn put_first(&mut self) -> (r: Result<(), Error>)
        requires
            old(self).wf(),
            old(self)@.err is None,
            old(self).queue@.len() > 0,
        ensures
            final(self).wf(),
            given(old(self)@, final(self)@, Seq::empty(), old(self)@.pending, writer::error_of(r)),
            r is Ok ==> final(self).queue@.len() == old(self).queue@.len() - 1,
            final(self).entries == old(self).entries,
            final(self)@.pending == old(self)@.pending,
            r is Ok ==> final(self)@.out.started,
    {
        let ghost v = self@;
        let ghost k = v.out.frames.len() as int;
        let ghost q = self.queue@;
        proof {
            assert(queued(q) == v.entries.skip(k));
            assert(queued(q).len() == q.len());
            assert(queued(q)[0] == q[0]@);
            assert(v.entries.skip(k)[0] == v.entries[k]);
            assert(v.entries[k].wf(v.options.block_size as int));
            assert(v.entries + Seq::<EntryView>::empty() =~= v.entries);
            assert(v.entries =~= v.entries.subrange(0, v.entries.len() as int));
        }
        let first: Option<Entry> = self.queue.pop_front();
        let ghost rest = self.queue@;
        proof {
            assert(rest =~= q.skip(1));
            assert(queued(rest) =~= queued(q).skip(1));
            assert(queued(rest) =~= v.entries.skip(k + 1));
        }
        match first {
            None => Ok(()),
            Some(Entry::Block(b)) => {
                let e: Encoded = encode_chunk(
                    &self.sums,
                    b.as_slice(),
                    self.options.level,
                    self.options.uncompressed,
                );
                let ghost f = Frame::Block(e.data(), e.chunk());
                let r = self.out.put_block(e);
                self.input_pool.release(b);
                let ghost w = self.out@;
                match r {
                    Err(e) => {
                        self.err = Some(e);
                        proof {
                            assert(w.refusal() == v.out.refusal());
                            lemma_grown_self(v.out);
                        }
                        Err(e)
                    },
                    Ok(()) => {
                        proof {
                            lemma_frames_pushed(v, w, f);
                        }
                        Ok(())
                    },
                }
            },
            Some(Entry::User(id, b)) => {
                self.out.put_user(id, b.as_slice());
                proof {
                    lemma_frames_pushed(v, self.out@, Frame::User(id, b@));
                }
                Ok(())
            },
        }
    }

    /// Gives an entry to be put out. Where the queue is full, its first entry is put out
    /// before.
    fn submit(&mut self, e: Entry) -> (r: Result<(), Error>)
        requires
            old(self).wf(),
            old(self)@.err is None,
            e@.wf(old(self)@.options.block_size as int),
        ensures
            final(self).wf(),
            given(old(self)@, final(self)@, seq![e@], old(self)@.pending, writer::error_of(r)),
            final(self)@.pending == old(self)@.pending,
    {
        let ghost v = self@;
        if self.queue.len() > self.concurrency.get() {
            let r = self.put_first();
            if let Err(x) = r {
                proof {
                    assert(v.entries + Seq::<EntryView>::empty() =~= v.entries);
                    let y = self@.entries;
                    assert(y =~= (v.entries + seq![e@]).subrange(0, y.len() as int));
                }
                return Err(x);
            }
        } else {
            proof {
                lemma_grown_self(v.out);
                assert(v.entries + Seq::<EntryView>::empty() =~= v.entries);
            }
        }
        let ghost u = self@;
        let n: u64 = match &e {
            Entry::Block(b) => b.len() as u64,
            Entry::User(_, _) => 0,
        };
        let ghost q = self.queue@;
        self.queue.push_back(e);
        self.uncomp_written = self.uncomp_written.wrapping_add(n);
        self.entries = Ghost(self.entries@.push(e@));
        proof {
            let k = u.out.frames.len() as int;
            assert(u.entries == v.entries);
            lemma_entry_pushed(u.entries, e@);
            let es = self.entries@;
            assert(es =~= v.entries + seq![e@]);
            assert(queued(self.queue@) =~= queued(q).push(e@));
            assert(queued(self.queue@) =~= es.skip(k));
            assert forall|i: int| 0 <= i < es.len() implies (#[trigger] es[i]).wf(
                v.options.block_size as int,
            ) by {
                if i < v.entries.len() {
                    assert(es[i] == v.entries[i]);
                }
            }
            assert forall|i: int| 0 <= i < u.out.frames.len() implies is_frame_of(
                #[trigger] u.out.frames[i],
                es[i],
                v.options.packing(),
            ) by {
                assert(es[i] == u.entries[i]);
            }
        }
        Ok(())
    }
}

/// What is left over after a write.
pub open spec fn kept_after(v: MtView, p: Seq<u8>) -> Seq<u8> {
    writer::left_over(v.pending + p, v.options.block_size as int)
}

/// The blocks of a write as entries.
pub open spec fn written_entries(v: MtView, p: Seq<u8>) -> Seq<EntryView> {
    let n = v.options.block_size as int;
    block_entries(writer::pieces(writer::whole(v.pending + p, n), n))
}

/// What is pending as an entry, or none.
pub open spec fn pending_entries(v: MtView) -> Seq<EntryView> {
    block_entries(writer::as_blocks(v.pending))
}

impl MtWriter {
    /// Returns the error that was recorded.
    fn check_err(&self) -> (r: Result<(), Error>)
        ensures
            writer::error_of(r) == self@.err,
    {
        match self.err {
            Some(e) => Err(e),
            None => Ok(()),
        }
    }

    /// Gives a block to be put out.
    fn submit_block(&mut self, block: &[u8]) -> (r: Result<(), Error>)
        requires
            old(self).wf(),
            old(self)@.err is None,
            0 < block.len() <= old(self)@.options.block_size,
        ensures
            final(self).wf(),
            given(
                old(self)@,
                final(self)@,
                block_entries(seq![block@]),
                old(self)@.pending,
                writer::error_of(r),
            ),
            final(self)@.pending == old(self)@.pending,
    {
        let mut input: Vec<u8> = self.input_pool.acquire();
        append_slice(&mut input, block);
        assert(input@ =~= block@);
        assert(self@ == old(self)@);
        assert(block_entries(seq![block@]) =~= seq![EntryView::Block(block@)]);
        self.submit(Entry::Block(input))
    }

    /// Gives `data` to be put out, cut into blocks.
    fn write_blocks(&mut self, data: &[u8]) -> (r: Result<(), Error>)
        requires
            old(self).wf(),
            old(self)@.err is None,
        ensures
            final(self).wf(),
            given(
                old(self)@,
                final(self)@,
                block_entries(writer::pieces(data@, old(self)@.options.block_size as int)),
                old(self)@.pending,
                writer::error_of(r),
            ),
            final(self)@.pending == old(self)@.pending,
    {
        let ghost v = self@;
        let ghost n = v.options.block_size as int;
        let ghost all = writer::pieces(data@, n);
        let ghost mut done: Seq<Seq<u8>> = Seq::empty();
        let size: usize = self.options.block_size;
        let mut i: usize = 0;
        proof {
            assert(data@.skip(0) =~= data@);
            assert(done + all =~= all);
            lemma_grown_self(v.out);
            assert(v.entries + block_entries(done) =~= v.entries);
        }
        while i < data.len()
            invariant
                self.wf(),
                n == v.options.block_size,
                size == n,
                size > 0,
                i <= data.len(),
                all == done + writer::pieces(data@.skip(i as int), n),
                given(v, self@, block_entries(done), v.pending, None),
                v.err is None,
                v == old(self)@,
                all == writer::pieces(data@, n),
            decreases data.len() - i,
        {
            let left: usize = data.len() - i;
            let take: usize = if left < size {
                left
            } else {
                size
            };
            let block: &[u8] = slice_subrange(data, i, i + take);
            let ghost u = self@;
            let ghost rest = data@.skip(i as int);
            let ghost next = seq![block@];
            let ghost tail = writer::pieces(data@.skip(i + take), n);
            let r = self.submit_block(block);
            proof {
                assert(block@ =~= rest.take(take as int));
                assert(data@.skip(i + take) =~= rest.skip(take as int));
                if left <= size {
                    assert(block@ =~= rest);
                    assert(tail =~= Seq::<Seq<u8>>::empty());
                }
                assert(writer::pieces(rest, n) =~= next + tail);
                assert(all =~= done + next + tail);
                lemma_block_entries(done, next);
                lemma_block_entries(done + next, tail);
                lemma_given_then(
                    v,
                    u,
                    self@,
                    block_entries(done),
                    block_entries(next),
                    block_entries(tail),
                    v.pending,
                    v.pending,
                    writer::error_of(r),
                );
            }
            if let Err(e) = r {
                return Err(e);
            }
            proof {
                done = done + next;
            }
            i = i + take;
        }
        assert(all =~= done);
        Ok(())
    }

    /// Gives what is pending to be put out.
    fn flush_ibuf(&mut self) -> (r: Result<(), Error>)
        requires
            old(self).out.wf(),
            old(self).flushable(),
            old(self)@.err is None,
        ensures
            final(self).wf(),
            given(
                old(self)@,
                final(self)@,
                pending_entries(old(self)@),
                Seq::empty(),
                writer::error_of(r),
            ),
            final(self)@.pending.len() == 0,
    {
        let ghost v = self@;
        if self.ibuf.len() == 0 {
            proof {
                assert(self@.pending =~= Seq::<u8>::empty());
                lemma_grown_self(v.out);
                assert(v.entries + pending_entries(v) =~= v.entries);
            }
            return Ok(());
        }
        let mut buf: Vec<u8> = Vec::new();
        core::mem::swap(&mut buf, &mut self.ibuf);
        let r = self.submit_block(buf.as_slice());
        assert(self@.pending =~= Seq::<u8>::empty());
        r
    }

    /// The writer is in order, with up to a whole block pending.
    closed spec fn flushable(&self) -> bool {
        &&& self.queue_wf()
        &&& (MtView { pending: Seq::empty(), ..self@ }).wf()
        &&& self.ibuf@.len() <= self.options.block_size
    }

    /// Takes `p`. Whole blocks are given to be put out; what is left over is kept for
    /// later. Returns the length of `p`.
    pub fn write(&mut self, p: &[u8]) -> (r: Result<usize, Error>)
        requires
            old(self).wf(),
        ensures
            final(self).wf(),
            r is Ok ==> r == Ok::<usize, Error>(p.len()),
            gives(
                old(self)@,
                final(self)@,
                written_entries(old(self)@, p@),
                kept_after(old(self)@, p@),
                writer::error_of(r),
            ),
    {
        if let Err(e) = self.check_err() {
            return Err(e);
        }
        let ghost v = self@;
        let ghost n = v.options.block_size as int;
        let ghost all = writer::pieces(writer::whole(v.pending + p@, n), n);
        let ghost mut done: Seq<Seq<u8>> = Seq::empty();
        let size: usize = self.options.block_size;
        let mut i: usize = 0;
        proof {
            assert(p@.skip(0) =~= p@);
            assert(done + all =~= all);
            lemma_grown_self(v.out);
            assert(v.entries + block_entries(done) =~= v.entries);
        }
        while i < p.len()
            invariant
                self.wf(),
                v == old(self)@,
                v.err is None,
                n == v.options.block_size,
                size == n,
                size > 0,
                i <= p.len(),
                all == writer::pieces(writer::whole(v.pending + p@, n), n),
                all == done + writer::pieces(
                    writer::whole(self@.pending + p@.skip(i as int), n),
                    n,
                ),
                writer::left_over(self@.pending + p@.skip(i as int), n) == kept_after(v, p@),
                given(v, self@, block_entries(done), self@.pending, None),
            decreases p.len() - i,
        {
            let ghost u = self@;
            let ghost rest = p@.skip(i as int);
            let left: usize = p.len() - i;
            if self.ibuf.len() == 0 && left >= size {
                let block: &[u8] = slice_subrange(p, i, i + size);
                let r = self.submit_block(block);
                proof {
                    assert(u.pending =~= Seq::<u8>::empty());
                    let after = p@.skip(i + size);
                    assert(u.pending + rest =~= block@ + after);
                    assert(self@.pending + after =~= after);
                    lemma_next_block(v, u, self@, done, all, block@, after, writer::error_of(r));
                }
                if let Err(e) = r {
                    return Err(e);
                }
                proof {
                    done = done.push(block@);
                }
                i = i + size;
                continue ;
            }
            let free: usize = size - self.ibuf.len();
            let take: usize = if left < free {
                left
            } else {
                free
            };
            append_range(&mut self.ibuf, p, i, take);
            let ghost full = self@.pending;
            let ghost after = p@.skip(i + take);
            assert(full + after =~= u.pending + rest);
            if self.ibuf.len() == size {
                let r = self.flush_ibuf();
                proof {
                    assert(self@.pending + after =~= after);
                    assert(self@.pending =~= Seq::<u8>::empty());
                    assert(writer::as_blocks(full) =~= seq![full]);
                    lemma_next_block(v, u, self@, done, all, full, after, writer::error_of(r));
                }
                if let Err(e) = r {
                    return Err(e);
                }
                proof {
                    done = done.push(full);
                }
            }
            i = i + take;
        }
        proof {
            assert(self@.pending + p@.skip(i as int) =~= self@.pending);
            writer::lemma_whole_short(self@.pending, n);
            assert(all =~= done);
        }
        Ok(p.len())
    }

    /// Writes all of `p`.
    pub fn write_all(&mut self, p: &[u8]) -> (r: Result<(), Error>)
        requires
            old(self).wf(),
        ensures
            final(self).wf(),
            gives(
                old(self)@,
                final(self)@,
                written_entries(old(self)@, p@),
                kept_after(old(self)@, p@),
                writer::error_of(r),
            ),
    {
        match self.write(p) {
            Ok(_) => Ok(()),
            Err(e) => Err(e),
        }
    }

    /// Gives what is pending to be put out. The stream is not ended.
    pub fn flush(&mut self) -> (r: Result<(), Error>)
        requires
            old(self).wf(),
        ensures
            final(self).wf(),
            gives(
                old(self)@,
                final(self)@,
                pending_entries(old(self)@),
                Seq::empty(),
                writer::error_of(r),
            ),
    {
        if let Err(e) = self.check_err() {
            return Err(e);
        }
        self.flush_ibuf()
    }

    /// Gives what is pending to be put out, and then all of `buf`, cut into blocks.
    ///
    /// Where the writer had failed before, there is an error only if there is a block to
    /// be given; what was pending is then lost.
    pub fn encode_buffer(&mut self, buf: &[u8]) -> (r: Result<(), Error>)
        requires
            old(self).wf(),
        ensures
            final(self).wf(),
            gives_buffer(old(self)@, final(self)@, buf@, writer::error_of(r)),
    {
        if let Err(e) = self.check_err() {
            if self.ibuf.len() == 0 && buf.len() == 0 {
                assert(self@.pending =~= Seq::<u8>::empty());
                return Ok(());
            }
            self.ibuf.clear();
            assert(self@ =~= MtView { pending: Seq::empty(), ..old(self)@ });
            return Err(e);
        }
        let ghost v = self@;
        let ghost a = pending_entries(v);
        let ghost b = block_entries(writer::pieces(buf@, v.options.block_size as int));
        match self.flush_ibuf() {
            Err(e) => {
                proof {
                    lemma_given_more(v, self@, a, b, Seq::empty(), e);
                }
                Err(e)
            },
            Ok(()) => {
                let ghost u = self@;
                let r = self.write_blocks(buf);
                proof {
                    assert(u.pending =~= Seq::<u8>::empty());
                    lemma_given_then(
                        v,
                        u,
                        self@,
                        a,
                        b,
                        Seq::empty(),
                        Seq::empty(),
                        Seq::empty(),
                        writer::error_of(r),
                    );
                    assert(a + b + Seq::<EntryView>::empty() =~= a + b);
                }
                r
            },
        }
    }

    /// Gives what is pending to be put out, and then a user chunk.
    pub fn add_user_chunk(&mut self, id: u8, data: &[u8]) -> (r: Result<(), Error>)
        requires
            old(self).wf(),
        ensures
            final(self).wf(),
            !chunk::is_user(id) ==> r == Err::<(), Error>(
                Error::UserChunkId(id),
            ) && final(self)@ == old(self)@,
            chunk::is_user(id) && data.len() > MAX_USER_CHUNK_SIZE ==> r == Err::<(), Error>(
                Error::InvalidInput("user-chunk exceeds maximum size"),
            ) && final(self)@ == old(self)@,
            chunk::is_user(id) && data.len() <= MAX_USER_CHUNK_SIZE ==> gives(
                old(self)@,
                final(self)@,
                pending_entries(old(self)@) + seq![EntryView::User(id, data@)],
                Seq::empty(),
                writer::error_of(r),
            ),
    {
        if id < MIN_USER_SKIPPABLE_CHUNK || id > MAX_USER_NON_SKIPPABLE_CHUNK {
            return Err(Error::UserChunkId(id));
        }
        if data.len() > MAX_USER_CHUNK_SIZE {
            return Err(Error::InvalidInput("user-chunk exceeds maximum size"));
        }
        if let Err(e) = self.check_err() {
            return Err(e);
        }
        let ghost v = self@;
        let ghost a = pending_entries(v);
        let ghost b = seq![EntryView::User(id, data@)];
        match self.flush_ibuf() {
            Err(e) => {
                proof {
                    lemma_given_more(v, self@, a, b, Seq::empty(), e);
                }
                Err(e)
            },
            Ok(()) => {
                let ghost u = self@;
                let mut raw: Vec<u8> = Vec::new();
                append_slice(&mut raw, data);
                assert(raw@ =~= data@);
                let r = self.submit(Entry::User(id, raw));
                proof {
                    assert(u.pending =~= Seq::<u8>::empty());
                    lemma_given_then(
                        v,
                        u,
                        self@,
                        a,
                        b,
                        Seq::empty(),
                        Seq::empty(),
                        Seq::empty(),
                        writer::error_of(r),
                    );
                    assert(a + b + Seq::<EntryView>::empty() =~= a + b);
                }
                r
            },
        }
    }

    /// Puts out all that is in the queue.
    fn put_queue(&mut self) -> (r: Result<(), Error>)
        requires
            old(self).wf(),
            old(self)@.err is None,
        ensures
            final(self).wf(),
            given(old(self)@, final(self)@, Seq::empty(), old(self)@.pending, writer::error_of(r)),
            final(self)@.entries == old(self)@.entries,
            r is Ok ==> final(self)@.out.frames.len() == final(self)@.entries.len(),
    {
        let ghost v = self@;
        proof {
            lemma_grown_self(v.out);
            assert(v.entries + Seq::<EntryView>::empty() =~= v.entries);
        }
        while self.queue.len() > 0
            invariant
                self.wf(),
                v == old(self)@,
                v.err is None,
                given(v, self@, Seq::empty(), v.pending, None),
                self@.entries == v.entries,
            decreases self.queue@.len(),
        {
            let ghost u = self@;
            let r = self.put_first();
            proof {
                lemma_given_then(
                    v,
                    u,
                    self@,
                    Seq::empty(),
                    Seq::empty(),
                    Seq::empty(),
                    v.pending,
                    v.pending,
                    writer::error_of(r),
                );
                let none = Seq::<EntryView>::empty();
                assert(none + none =~= none);
                assert(none + none + none =~= none);
            }
            if let Err(e) = r {
                return Err(e);
            }
        }
        proof {
            assert(queued(self.queue@).len() == 0);
            assert(self@.entries.skip(self@.out.frames.len() as int).len() == 0);
        }
        Ok(())
    }

    /// Puts out all that was written and closes the stream; returns the sink.
    pub fn finish(self) -> (r: Result<Vec<u8>, Error>)
        requires
            self.wf(),
        ensures
            (match r {
                Ok(sink) => finishes_to(self@, sink@, None),
                Err(e) => finishes_to(self@, Seq::empty(), Some(e)),
            }),
    {
        let ghost v = self@;
        if let Err(e) = self.check_err() {
            return Err(e);
        }
        let mut me: MtWriter = self;
        let ghost a = pending_entries(v);
        let ghost es = v.entries + a;
        let r = me.flush_ibuf();
        let ghost u = me@;
        if let Err(e) = r {
            proof {
                lemma_frames_prefix(u.out.frames, u.entries, es, v.options.packing());
                assert(closed_from(v, u.out, Seq::empty(), Some(e)));
            }
            return Err(e);
        }
        let r = me.put_queue();
        let ghost x = me@;
        proof {
            lemma_given_then(
                v,
                u,
                x,
                a,
                Seq::empty(),
                Seq::empty(),
                Seq::empty(),
                Seq::empty(),
                writer::error_of(r),
            );
            assert(a + Seq::<EntryView>::empty() =~= a);
        }
        if let Err(e) = r {
            assert(closed_from(v, x.out, Seq::empty(), Some(e)));
            return Err(e);
        }
        let c: Closing = me.options.close_with();
        match me.out.close(c) {
            Ok((sink, _)) => {
                assert(closed_from(v, x.out, sink@, None));
                Ok(sink)
            },
            Err(e) => {
                assert(closed_from(v, x.out, Seq::empty(), Some(e)));
                Err(e)
            },
        }
    }
}

/// What a writer with workers returns when it is finished: the sink, or why it failed.
pub open spec fn finishes_to(v: MtView, sink: Seq<u8>, err: Option<Error>) -> bool {
    if v.err is Some {
        err == v.err
    } else {
        exists|w: OutputView| #[trigger] closed_from(v, w, sink, err)
    }
}

/// What a writer with workers returns when it is finished, where `w` is what was put
/// out.
pub open spec fn closed_from(v: MtView, w: OutputView, sink: Seq<u8>, err: Option<Error>) -> bool {
    let c = v.options.closing(v.options.generate_index);
    let es = v.entries + pending_entries(v);
    let x = OutputView { started: true, ..w };
    &&& w.wf()
    &&& grown(v.out, w)
    &&& are_frames_of(w.frames, es, v.options.packing())
    &&& w.frames.len() < es.len() ==> w.refusal() is Some && err == Some(
        Error::Index(w.refusal()->0),
    )
    &&& w.frames.len() == es.len() ==> if x.closes(c) {
        err is None && sink == x.before + x.closed(c)
    } else {
        err == Some(Error::Index(index::Error::Invalid("index total exceeds i64 wire range")))
    }
}

proof fn lemma_frames_prefix(
    fs: Seq<Frame>,
    es: Seq<EntryView>,
    more: Seq<EntryView>,
    packing: Option<Level>,
)
    requires
        are_frames_of(fs, es, packing),
        es.is_prefix_of(more),
    ensures
        are_frames_of(fs, more, packing),
{
    assert(es =~= more.subrange(0, es.len() as int));
    assert forall|i: int| 0 <= i < fs.len() implies is_frame_of(
        #[trigger] fs[i],
        more[i],
        packing,
    ) by {
        assert(es[i] == more[i]);
    }
}

proof fn lemma_given_more(
    v: MtView,
    w: MtView,
    a: Seq<EntryView>,
    b: Seq<EntryView>,
    p: Seq<u8>,
    e: Error,
)
    requires
        given(v, w, a, p, Some(e)),
    ensures
        given(v, w, a + b, p, Some(e)),
{
    let y = w.entries;
    let s = v.entries + a;
    let t = v.entries + (a + b);
    assert(y =~= s.subrange(0, y.len() as int));
    assert forall|i: int| 0 <= i < y.len() implies y[i] == t[i] by {
        assert(y[i] == s[i]);
    }
    assert(y =~= t.subrange(0, y.len() as int));
}

/// A block that is given follows those that were given before.
proof fn lemma_next_block(
    v: MtView,
    u: MtView,
    w: MtView,
    done: Seq<Seq<u8>>,
    all: Seq<Seq<u8>>,
    block: Seq<u8>,
    after: Seq<u8>,
    err: Option<Error>,
)
    requires
        v.options.block_size > 0,
        block.len() == v.options.block_size,
        all == done + writer::pieces(
            writer::whole(block + after, v.options.block_size as int),
            v.options.block_size as int,
        ),
        given(v, u, block_entries(done), u.pending, None),
        given(
            MtView { pending: w.pending, ..u },
            w,
            block_entries(seq![block]),
            w.pending,
            err,
        ),
    ensures
        all == done.push(block) + writer::pieces(
            writer::whole(after, v.options.block_size as int),
            v.options.block_size as int,
        ),
        writer::left_over(block + after, v.options.block_size as int) == writer::left_over(
            after,
            v.options.block_size as int,
        ),
        err is None ==> given(v, w, block_entries(done.push(block)), w.pending, None),
        err is Some ==> given(v, w, block_entries(all), w.pending, err),
{
    let n = v.options.block_size as int;
    let tail = writer::pieces(writer::whole(after, n), n);
    writer::lemma_whole_block(block, after, n);
    assert(all =~= done.push(block) + tail);
    assert(done.push(block) =~= done + seq![block]);
    lemma_block_entries(done, seq![block]);
    lemma_block_entries(done + seq![block], tail);
    let x = MtView { pending: w.pending, ..u };
    lemma_given_then(
        v,
        x,
        w,
        block_entries(done),
        block_entries(seq![block]),
        block_entries(tail),
        w.pending,
        w.pending,
        err,
    );
}

proof fn lemma_frames_pushed(v: MtView, w: OutputView, f: Frame)
    requires
        v.wf(),
        v.out.frames.len() < v.entries.len(),
        w == (OutputView { started: true, frames: v.out.frames.push(f), ..v.out }),
        is_frame_of(f, v.entries[v.out.frames.len() as int], v.options.packing()),
    ensures
        grown(v.out, w),
        are_frames_of(w.frames, v.entries, v.options.packing()),
{
    let fs = v.out.frames;
    assert(fs =~= w.frames.subrange(0, fs.len() as int));
    assert forall|i: int| 0 <= i < w.frames.len() implies is_frame_of(
        #[trigger] w.frames[i],
        v.entries[i],
        v.options.packing(),
    ) by {
        if i < fs.len() {
            assert(w.frames[i] == fs[i]);
        }
    }
}

} // verus!
