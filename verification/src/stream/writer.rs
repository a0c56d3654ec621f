//! The stream writer.
use crate::block::load_store::append_range;
use crate::block::Level;
use crate::index;
use crate::stream::chunk;
use crate::stream::crc::Crc32c;
use crate::stream::error::Error;
use crate::stream::format::{
    DEFAULT_BLOCK_SIZE, MAX_BLOCK_SIZE, MAX_USER_CHUNK_SIZE, MAX_USER_NON_SKIPPABLE_CHUNK,
    MIN_BLOCK_SIZE, MIN_USER_SKIPPABLE_CHUNK,
};
use crate::stream::output;
use crate::stream::output::{encode_chunk, Closing, Encoded, Frame, Output, OutputView};
use vstd::prelude::*;
use vstd::slice::slice_subrange;

verus! {

/// Options of a writer.
#[derive(Debug, Clone, Copy, PartialEq, Eq, Structural)]
pub struct WriterOptions {
    /// Largest block.
    pub block_size: usize,
    /// Compression level.
    pub level: Level,
    /// Whether nothing is compressed.
    pub uncompressed: bool,
    /// The size of a closed stream is a multiple of this; 0 for any size.
    pub padding: u32,
    /// Whether each write is put out at once.
    pub flush_on_write: bool,
    /// Whether an index is built.
    pub generate_index: bool,
    /// Whether the index stands at the end of the stream.
    pub append_index: bool,
}

impl WriterOptions {
    /// The options are in range and agree.
    pub open spec fn wf(self) -> bool {
        &&& MIN_BLOCK_SIZE <= self.block_size <= MAX_BLOCK_SIZE
        &&& self.padding <= MAX_BLOCK_SIZE
        &&& self.append_index ==> self.generate_index
    }

    /// The level; none where nothing is compressed.
    pub open spec fn packing(self) -> Option<Level> {
        output::packing_of(self.level, self.uncompressed)
    }

    /// How the stream is closed.
    pub open spec fn closing(self, build_index: bool) -> Closing {
        Closing { padding: self.padding, append_index: self.append_index, build_index }
    }

    /// Returns how the stream of a writer with workers is closed.
    pub fn close_with(&self) -> (r: Closing)
        ensures
            r == self.closing(self.generate_index),
    {
        Closing {
            padding: self.padding,
            append_index: self.append_index,
            build_index: self.generate_index,
        }
    }
}

/// The options of a writer where none are given.
pub open spec fn default_options() -> WriterOptions {
    WriterOptions {
        block_size: DEFAULT_BLOCK_SIZE,
        level: Level::Balanced,
        uncompressed: false,
        padding: 0,
        flush_on_write: false,
        generate_index: true,
        append_index: false,
    }
}

/// Builder for the options of a [`Writer`].
#[must_use]
pub struct WriterBuilder {
    options: WriterOptions,
}

impl View for WriterBuilder {
    type V = WriterOptions;

    closed spec fn view(&self) -> WriterOptions {
        self.options
    }
}

impl Default for WriterBuilder {
    fn default() -> (r: Self)
        ensures
            r@ == default_options(),
    {
        WriterBuilder {
            options: WriterOptions {
                block_size: DEFAULT_BLOCK_SIZE,
                level: Level::Balanced,
                uncompressed: false,
                padding: 0,
                flush_on_write: false,
                generate_index: true,
                append_index: false,
            },
        }
    }
}

impl WriterBuilder {
    #[verifier::type_invariant]
    spec fn inv(self) -> bool {
        self.options.wf()
    }

    /// A builder with the default options.
    pub fn new() -> (r: Self)
        ensures
            r@ == default_options(),
    {
        Self::default()
    }

    /// Sets the largest block.
    pub fn block_size(self, n: usize) -> (r: Self)
        requires
            MIN_BLOCK_SIZE <= n <= MAX_BLOCK_SIZE,
        ensures
            r@ == (WriterOptions { block_size: n, ..self@ }),
    {
        proof {
            use_type_invariant(&self);
        }
        let mut o: WriterOptions = self.options;
        o.block_size = n;
        WriterBuilder { options: o }
    }

    /// Sets the compression level, and turns compression on.
    pub fn level(self, level: Level) -> (r: Self)
        ensures
            r@ == (WriterOptions { level, uncompressed: false, ..self@ }),
    {
        proof {
            use_type_invariant(&self);
        }
        let mut o: WriterOptions = self.options;
        o.level = level;
        o.uncompressed = false;
        WriterBuilder { options: o }
    }

    /// Turns compression off.
    pub fn uncompressed(self) -> (r: Self)
        ensures
            r@ == (WriterOptions { uncompressed: true, ..self@ }),
    {
        proof {
            use_type_invariant(&self);
        }
        let mut o: WriterOptions = self.options;
        o.uncompressed = true;
        WriterBuilder { options: o }
    }

    /// Makes the size of the closed stream a multiple of `n`; 0 and 1 leave it as it
    /// is.
    pub fn padding(self, n: u32) -> (r: Self)
        requires
            n <= MAX_BLOCK_SIZE,
        ensures
            r@ == (WriterOptions {
                padding: if n <= 1 {
                    0
                } else {
                    n
                },
                ..self@
            }),
    {
        proof {
            use_type_invariant(&self);
        }
        let mut o: WriterOptions = self.options;
        o.padding = if n <= 1 {
            0
        } else {
            n
        };
        WriterBuilder { options: o }
    }

    /// Puts each write out at once.
    pub fn flush_on_write(self) -> (r: Self)
        ensures
            r@ == (WriterOptions { flush_on_write: true, ..self@ }),
    {
        proof {
            use_type_invariant(&self);
        }
        let mut o: WriterOptions = self.options;
        o.flush_on_write = true;
        WriterBuilder { options: o }
    }

    /// Sets whether an index is built.
    pub fn generate_index(self, b: bool) -> (r: Self)
        requires
            b || !self@.append_index,
        ensures
            r@ == (WriterOptions { generate_index: b, ..self@ }),
    {
        proof {
            use_type_invariant(&self);
        }
        let mut o: WriterOptions = self.options;
        o.generate_index = b;
        WriterBuilder { options: o }
    }

    /// Puts the index at the end of the stream.
    pub fn append_index(self) -> (r: Self)
        requires
            self@.generate_index,
        ensures
            r@ == (WriterOptions { append_index: true, ..self@ }),
    {
        proof {
            use_type_invariant(&self);
        }
        let mut o: WriterOptions = self.options;
        o.append_index = true;
        WriterBuilder { options: o }
    }

    /// Makes a writer that puts its stream behind what `sink` holds.
    pub fn build(self, sink: Vec<u8>) -> (r: Writer)
        ensures
            r@ == fresh(self@, sink@),
            r.wf(),
    {
        proof {
            use_type_invariant(&self);
        }
        Writer::with_options(sink, self.options)
    }
}

/// What a writer holds.
#[verifier::ext_equal]
pub struct WriterView {
    /// The options.
    pub options: WriterOptions,
    /// What was put out.
    pub out: OutputView,
    /// What was written and not put out yet.
    pub pending: Seq<u8>,
}

/// A writer to which nothing was written.
pub open spec fn fresh(o: WriterOptions, sink: Seq<u8>) -> WriterView {
    WriterView {
        options: o,
        out: OutputView {
            before: sink,
            block_size: o.block_size,
            indexed: o.generate_index,
            started: false,
            frames: Seq::empty(),
        },
        pending: Seq::empty(),
    }
}

impl WriterView {
    /// The parts agree, and less than a block is left over.
    pub open spec fn wf(self) -> bool {
        &&& self.options.wf()
        &&& self.out.wf()
        &&& self.out.block_size == self.options.block_size
        &&& self.out.indexed == self.options.generate_index
        &&& self.pending.len() < self.options.block_size
        &&& self.options.flush_on_write ==> self.pending.len() == 0
    }

    /// All that was written.
    pub open spec fn data(self) -> Seq<u8> {
        output::data_of(self.out.frames) + self.pending
    }
}

/// `data` cut into blocks of `n` bytes; the last one may be shorter.
pub open spec fn pieces(data: Seq<u8>, n: int) -> Seq<Seq<u8>>
    decreases data.len(),
{
    if data.len() == 0 || n <= 0 {
        Seq::empty()
    } else if data.len() <= n {
        seq![data]
    } else {
        seq![data.take(n)] + pieces(data.skip(n), n)
    }
}

/// The whole blocks at the start of `data`.
pub open spec fn whole(data: Seq<u8>, n: int) -> Seq<u8> {
    data.take(data.len() - data.len() as int % n)
}

/// What is left of `data` behind the whole blocks.
pub open spec fn left_over(data: Seq<u8>, n: int) -> Seq<u8> {
    data.skip(data.len() - data.len() as int % n)
}

/// How many frames `w` has more than `v`.
pub open spec fn count_new(v: OutputView, w: OutputView) -> int {
    w.frames.len() - v.frames.len()
}

/// What was put out up to frame `i`.
pub open spec fn out_before(w: OutputView, i: int) -> OutputView {
    OutputView { frames: w.frames.take(i), ..w }
}

/// `w` is `v` after the first of `blocks` were put out, each where it fits in the index.
#[verifier::opaque]
pub open spec fn emitted(
    v: OutputView,
    w: OutputView,
    blocks: Seq<Seq<u8>>,
    packing: Option<Level>,
) -> bool {
    let n = v.frames.len() as int;
    &&& w == OutputView { started: true, frames: w.frames, ..v }
    &&& 0 <= count_new(v, w) <= blocks.len()
    &&& w.frames.take(n) == v.frames
    &&& forall|i: int|
        n <= i < w.frames.len() ==> (#[trigger] w.frames[i] matches Frame::Block(d, c) && d
            == blocks[i - n] && output::is_data_chunk(c, d, packing))
    &&& forall|i: int| n <= i < w.frames.len() ==> (#[trigger] out_before(w, i)).refusal() is None
}

/// What became of putting out `blocks`: all of them, or as many as fit in the index.
pub open spec fn put_all(
    v: OutputView,
    w: OutputView,
    blocks: Seq<Seq<u8>>,
    packing: Option<Level>,
    err: Option<Error>,
) -> bool {
    &&& emitted(v, w, blocks, packing)
    &&& 0 <= count_new(v, w) <= blocks.len()
    &&& count_new(v, w) == blocks.len() ==> err is None
    &&& count_new(v, w) < blocks.len() ==> w.refusal() is Some && err == Some(
        Error::Index(w.refusal()->0),
    )
}

/// What is pending as blocks: one, or none.
pub open spec fn as_blocks(pending: Seq<u8>) -> Seq<Seq<u8>> {
    if pending.len() == 0 {
        Seq::empty()
    } else {
        seq![pending]
    }
}

/// The error of a result.
pub open spec fn error_of<T>(r: Result<T, Error>) -> Option<Error> {
    match r {
        Ok(_) => None,
        Err(e) => Some(e),
    }
}

/// Whole blocks before more data are cut apart from it.
pub proof fn lemma_pieces_concat(a: Seq<u8>, b: Seq<u8>, n: int)
    requires
        n > 0,
        a.len() as int % n == 0,
    ensures
        pieces(a + b, n) == pieces(a, n) + pieces(b, n),
    decreases a.len(),
{
    if a.len() == 0 {
        assert(a + b =~= b);
        assert(pieces(a, n) + pieces(b, n) =~= pieces(b, n));
    } else {
        if a.len() < n {
            vstd::arithmetic::div_mod::lemma_small_mod(a.len() as nat, n as nat);
        }
        let c = a.skip(n);
        if a.len() > n {
            vstd::arithmetic::div_mod::lemma_mod_sub_multiples_vanish(a.len() as int, n);
            lemma_pieces_concat(c, b, n);
            assert((a + b).take(n) =~= a.take(n));
            assert((a + b).skip(n) =~= c + b);
            assert(pieces(a + b, n) =~= pieces(a, n) + pieces(b, n));
        } else {
            assert((a + b).take(n) =~= a);
            assert((a + b).skip(n) =~= b);
            if b.len() == 0 {
                assert(a + b =~= a);
                assert(pieces(a, n) + pieces(b, n) =~= pieces(a, n));
            } else {
                assert(pieces(a + b, n) =~= pieces(a, n) + pieces(b, n));
            }
        }
    }
}

/// Putting out some blocks and then others.
pub proof fn lemma_emitted_then(
    u: OutputView,
    v: OutputView,
    w: OutputView,
    a: Seq<Seq<u8>>,
    b: Seq<Seq<u8>>,
    more: Seq<Seq<u8>>,
    packing: Option<Level>,
)
    requires
        emitted(u, v, a, packing),
        count_new(u, v) == a.len(),
        emitted(v, w, b, packing),
    ensures
        emitted(u, w, a + b + more, packing),
        count_new(u, w) == a.len() + count_new(v, w),
        0 <= count_new(v, w) <= b.len(),
{
    reveal(emitted);
    let blocks = a + b + more;
    let n = u.frames.len() as int;
    let m = v.frames.len() as int;
    assert(w.frames.take(n) =~= w.frames.take(m).take(n));
    assert forall|i: int| n <= i < w.frames.len() implies (#[trigger] w.frames[i] matches Frame::Block(
        d,
        c,
    ) && d == blocks[i - n] && output::is_data_chunk(c, d, packing)) by {
        if i < m {
            assert(w.frames.take(m)[i] == v.frames[i]);
        }
    }
    assert forall|i: int| n <= i < w.frames.len() implies (#[trigger] out_before(w, i)).refusal()
        is None by {
        if i < m {
            assert(w.frames.take(i) =~= v.frames.take(i));
            assert(out_before(w, i) == out_before(v, i));
        }
    }
}

/// A writer of a stream of chunks.
///
/// Its sink is in memory.
pub struct Writer {
    options: WriterOptions,
    out: Output,
    sums: Crc32c,
    ibuf: Vec<u8>,
}

impl View for Writer {
    type V = WriterView;

    closed spec fn view(&self) -> WriterView {
        WriterView { options: self.options, out: self.out@, pending: self.ibuf@ }
    }
}

impl Writer {
    /// The sink holds what was put out.
    pub closed spec fn sink_wf(&self) -> bool {
        self.out.wf()
    }

    /// The writer is in order.
    pub open spec fn wf(&self) -> bool {
        self.sink_wf() && self@.wf()
    }

    /// A writer with the default options that puts its stream behind what `sink`
    /// holds.
    pub fn new(sink: Vec<u8>) -> (r: Self)
        ensures
            r@ == fresh(default_options(), sink@),
            r.wf(),
    {
        WriterBuilder::new().build(sink)
    }

    fn with_options(sink: Vec<u8>, o: WriterOptions) -> (r: Self)
        requires
            o.wf(),
        ensures
            r@ == fresh(o, sink@),
            r.wf(),
    {
        let r = Writer {
            options: o,
            out: Output::new(sink, o.block_size, o.generate_index),
            sums: Crc32c::new(),
            ibuf: Vec::new(),
        };
        assert(r@ =~= fresh(o, sink@));
        r
    }

    /// Starts over with another sink; the options stay.
    pub fn reset(&mut self, sink: Vec<u8>)
        requires
            old(self).wf(),
        ensures
            final(self)@ == fresh(old(self)@.options, sink@),
            final(self).wf(),
    {
        self.out = Output::new(sink, self.options.block_size, self.options.generate_index);
        self.ibuf.clear();
        assert(self@ =~= fresh(old(self)@.options, sink@));
    }

    /// Returns how many bytes were taken in by writes, and the size of the stream so
    /// far.
    pub fn written(&self) -> (r: (u64, u64))
        requires
            self.wf(),
        ensures
            r.0 == chunk::wrapping(self@.out.total(), self@.pending.len() as int),
            r.1 == self@.out.bytes().len(),
    {
        (
            self.out.uncomp_written().wrapping_add(self.ibuf.len() as u64),
            self.out.comp_written(),
        )
    }

    /// Returns what the sink holds: what was there before and what was put out.
    pub fn sink(&self) -> (r: &[u8])
        requires
            self.wf(),
        ensures
            r@ == self@.out.before + self@.out.bytes(),
    {
        self.out.sink()
    }

    /// Puts out a block.
    fn emit_block(&mut self, block: &[u8]) -> (r: Result<(), Error>)
        requires
            old(self).wf(),
            0 < block.len() <= old(self)@.options.block_size,
        ensures
            final(self).wf(),
            final(self)@ == (WriterView { out: final(self)@.out, ..old(self)@ }),
            put_all(
                old(self)@.out,
                final(self)@.out,
                seq![block@],
                old(self)@.options.packing(),
                error_of(r),
            ),
    {
        let e: Encoded = encode_chunk(
            &self.sums,
            block,
            self.options.level,
            self.options.uncompressed,
        );
        let ghost v = self@.out;
        let ghost f = Frame::Block(e.data(), e.chunk());
        let r = self.out.put_block(e);
        proof {
            reveal(emitted);
            let w = self@.out;
            match v.refusal() {
                Some(_) => {
                    assert(w.frames.take(v.frames.len() as int) =~= v.frames);
                    assert(w.refusal() == v.refusal());
                },
                None => {
                    assert(w.frames.take(v.frames.len() as int) =~= v.frames);
                    assert(out_before(w, v.frames.len() as int).refusal() == v.refusal());
                },
            }
        }
        r
    }
}

/// What a writer that puts each write out at once does with `p`, and what a writer
/// that collects whole blocks does.
pub open spec fn blocks_of_write(v: WriterView, p: Seq<u8>) -> Seq<Seq<u8>> {
    let n = v.options.block_size as int;
    if v.options.flush_on_write {
        pieces(p, n)
    } else {
        pieces(whole(v.pending + p, n), n)
    }
}

/// The blocks that a writer puts out first of `p`.
spec fn next_blocks(v: WriterView, p: Seq<u8>) -> Seq<Seq<u8>> {
    let n = v.options.block_size as int;
    if v.pending.len() == 0 && p.len() >= n {
        pieces(whole(p, n), n)
    } else if v.pending.len() + p.len() >= n {
        seq![(v.pending + p).take(n)]
    } else {
        Seq::empty()
    }
}

/// What is pending after a write.
pub open spec fn pending_after_write(v: WriterView, p: Seq<u8>, r: Result<usize, Error>) -> Seq<
    u8,
> {
    if v.options.flush_on_write {
        v.pending
    } else if r is Ok {
        left_over(v.pending + p, v.options.block_size as int)
    } else {
        Seq::empty()
    }
}

/// What a write of `p` makes of a writer.
pub open spec fn writes_to(v: WriterView, w: WriterView, p: Seq<u8>, err: Option<Error>) -> bool {
    let blocks = blocks_of_write(v, p);
    let r: Result<usize, Error> = match err {
        None => Ok(p.len() as usize),
        Some(e) => Err(e),
    };
    if p.len() == 0 {
        err is None && w == v
    } else {
        &&& w == WriterView { out: w.out, pending: pending_after_write(v, p, r), ..v }
        &&& blocks.len() == 0 ==> err is None && w.out == v.out
        &&& blocks.len() > 0 ==> put_all(v.out, w.out, blocks, v.options.packing(), err)
    }
}

/// What putting out all that is pending makes of a writer.
pub open spec fn flushes_to(v: WriterView, w: WriterView, err: Option<Error>) -> bool {
    &&& w == WriterView { out: w.out, pending: Seq::empty(), ..v }
    &&& v.pending.len() == 0 ==> err is None && w == v
    &&& v.pending.len() > 0 ==> put_all(
        v.out,
        w.out,
        seq![v.pending],
        v.options.packing(),
        err,
    )
}

/// A whole block is cut off from what follows.
pub proof fn lemma_whole_block(a: Seq<u8>, b: Seq<u8>, n: int)
    requires
        n > 0,
        a.len() == n,
    ensures
        pieces(whole(a + b, n), n) == seq![a] + pieces(whole(b, n), n),
        left_over(a + b, n) == left_over(b, n),
{
    let len = b.len() as int;
    vstd::arithmetic::div_mod::lemma_mod_add_multiples_vanish(len, n);
    assert((a + b).len() == n + len);
    vstd::arithmetic::div_mod::lemma_mod_bound(len, n);
    assert(len - len % n >= 0) by {
        vstd::arithmetic::div_mod::lemma_mod_decreases(len as nat, n as nat);
    }
    vstd::arithmetic::div_mod::lemma_mod_self_0(n);
    assert(whole(a + b, n) =~= a + whole(b, n));
    assert(left_over(a + b, n) =~= left_over(b, n));
    lemma_pieces_concat(a, whole(b, n), n);
    assert(pieces(a, n) =~= seq![a]);
}

/// The whole blocks of `b`, and what is left over.
pub proof fn lemma_whole_rest(b: Seq<u8>, n: int)
    requires
        n > 0,
    ensures
        whole(b, n).len() as int % n == 0,
        whole(b, n).len() + left_over(b, n).len() == b.len(),
        left_over(b, n).len() < n,
        b == whole(b, n) + left_over(b, n),
        whole(left_over(b, n), n) == Seq::<u8>::empty(),
        left_over(left_over(b, n), n) == left_over(b, n),
{
    let len = b.len() as int;
    vstd::arithmetic::div_mod::lemma_mod_bound(len, n);
    vstd::arithmetic::div_mod::lemma_mod_decreases(len as nat, n as nat);
    vstd::arithmetic::div_mod::lemma_fundamental_div_mod(len, n);
    let q = len / n;
    assert(len - len % n == n * q);
    vstd::arithmetic::div_mod::lemma_mod_multiples_basic(q, n);
    assert(n * q == q * n) by (nonlinear_arith);
    let r = left_over(b, n);
    vstd::arithmetic::div_mod::lemma_small_mod(r.len() as nat, n as nat);
    assert(whole(r, n) =~= Seq::<u8>::empty());
    assert(left_over(r, n) =~= r);
    assert(b =~= whole(b, n) + r);
}

/// Less than a block is left over.
pub proof fn lemma_whole_short(b: Seq<u8>, n: int)
    requires
        b.len() < n,
    ensures
        pieces(whole(b, n), n) == Seq::<Seq<u8>>::empty(),
        left_over(b, n) == b,
{
    vstd::arithmetic::div_mod::lemma_small_mod(b.len() as nat, n as nat);
    assert(whole(b, n) =~= Seq::<u8>::empty());
    assert(left_over(b, n) =~= b);
}

impl Writer {
    /// Puts out `data`, cut into blocks.
    fn write_blocks(&mut self, data: &[u8]) -> (r: Result<(), Error>)
        requires
            old(self).wf(),
        ensures
            final(self).wf(),
            final(self)@ == (WriterView { out: final(self)@.out, ..old(self)@ }),
            put_all(
                old(self)@.out,
                final(self)@.out,
                pieces(data@, old(self)@.options.block_size as int),
                old(self)@.options.packing(),
                error_of(r),
            ),
    {
        let ghost v = self@;
        let ghost n = v.options.block_size as int;
        let ghost packing = v.options.packing();
        let ghost all = pieces(data@, n);
        let ghost mut done: Seq<Seq<u8>> = Seq::empty();
        self.out.ensure_header();
        let size: usize = self.options.block_size;
        let mut i: usize = 0;
        proof {
            reveal(emitted);
            assert(self@.out.frames.take(v.out.frames.len() as int) =~= v.out.frames);
            assert(data@.skip(0) =~= data@);
            assert(done + pieces(data@, n) =~= all);
        }
        while i < data.len()
            invariant
                self.wf(),
                self@ == (WriterView { out: self@.out, ..v }),
                v == old(self)@,
                n == v.options.block_size,
                size == n,
                size > 0,
                packing == v.options.packing(),
                i <= data.len(),
                all == pieces(data@, n),
                all == done + pieces(data@.skip(i as int), n),
                emitted(v.out, self@.out, done, packing),
                count_new(v.out, self@.out) == done.len(),
            decreases data.len() - i,
        {
            let left: usize = data.len() - i;
            let take: usize = if left < size {
                left
            } else {
                size
            };
            let block: &[u8] = slice_subrange(data, i, i + take);
            let ghost u = self@.out;
            let ghost rest = data@.skip(i as int);
            let ghost next = seq![block@];
            let r = self.emit_block(block);
            proof {
                assert(block@ =~= rest.take(take as int));
                assert(data@.skip(i + take) =~= rest.skip(take as int));
                if left <= size {
                    assert(block@ =~= rest);
                    assert(pieces(data@.skip(i + take), n) =~= Seq::<Seq<u8>>::empty());
                }
                assert(pieces(rest, n) =~= next + pieces(data@.skip(i + take), n));
                let tail = pieces(data@.skip(i + take), n);
                assert(all =~= done + next + tail);
                lemma_emitted_then(v.out, u, self@.out, done, next, tail, packing);
                lemma_emitted_then(v.out, u, self@.out, done, next, Seq::empty(), packing);
                assert(done + next + Seq::<Seq<u8>>::empty() =~= done + next);
            }
            if let Err(e) = r {
                return Err(e);
            }
            proof {
                done = done + next;
            }
            i = i + take;
        }
        assert(all =~= done);
        Ok(())
    }

    /// Puts out what is pending. It is gone then, also where it does not fit in the
    /// index.
    fn flush_ibuf(&mut self) -> (r: Result<(), Error>)
        requires
            old(self).out.wf(),
            (WriterView { pending: Seq::empty(), ..old(self)@ }).wf(),
            old(self)@.pending.len() <= old(self)@.options.block_size,
        ensures
            final(self).wf(),
            final(self)@ == (WriterView {
                out: final(self)@.out,
                pending: Seq::empty(),
                ..old(self)@
            }),
            old(self)@.pending.len() == 0 ==> r is Ok && final(self)@ == old(self)@,
            old(self)@.pending.len() > 0 ==> put_all(
                old(self)@.out,
                final(self)@.out,
                seq![old(self)@.pending],
                old(self)@.options.packing(),
                error_of(r),
            ),
    {
        if self.ibuf.len() == 0 {
            assert(self@.pending =~= Seq::<u8>::empty());
            return Ok(());
        }
        let mut buf: Vec<u8> = Vec::new();
        core::mem::swap(&mut buf, &mut self.ibuf);
        let r = self.emit_block(buf.as_slice());
        r
    }

    /// Takes some of `p`: whole blocks, or as much as there is room for. Returns how
    /// much.
    fn write_some(&mut self, p: &[u8]) -> (r: Result<usize, Error>)
        requires
            old(self).wf(),
            !old(self)@.options.flush_on_write,
            p.len() > 0,
        ensures
            final(self).wf(),
            final(self)@ == (WriterView {
                out: final(self)@.out,
                pending: final(self)@.pending,
                ..old(self)@
            }),
            (match r {
                Ok(take) => {
                    let n = old(self)@.options.block_size as int;
                    let next = next_blocks(old(self)@, p@);
                    let before = old(self)@.pending + p@;
                    let after = final(self)@.pending + p@.skip(take as int);
                    &&& 0 < take <= p.len()
                    &&& pieces(whole(before, n), n) == next + pieces(whole(after, n), n)
                    &&& left_over(before, n) == left_over(after, n)
                    &&& next.len() == 0 ==> final(self)@.out == old(self)@.out
                    &&& next.len() > 0 ==> put_all(
                        old(self)@.out,
                        final(self)@.out,
                        next,
                        old(self)@.options.packing(),
                        None,
                    )
                },
                Err(e) => {
                    let n = old(self)@.options.block_size as int;
                    &&& final(self)@.pending == Seq::<u8>::empty()
                    &&& put_all(
                        old(self)@.out,
                        final(self)@.out,
                        pieces(whole(old(self)@.pending + p@, n), n),
                        old(self)@.options.packing(),
                        Some(e),
                    )
                },
            }),
    {
        let size: usize = self.options.block_size;
        let ghost v = self@;
        let ghost n = size as int;
        if self.ibuf.len() == 0 && p.len() >= size {
            let take: usize = p.len() - p.len() % size;
            let part: &[u8] = slice_subrange(p, 0, take);
            proof {
                assert(v.pending + p@ =~= p@);
                assert(part@ =~= whole(p@, n));
                lemma_whole_rest(p@, n);
                assert(p@.skip(take as int) =~= left_over(p@, n));
                lemma_pieces_some(part@, n);
                assert(pieces(whole(left_over(p@, n), n), n) =~= Seq::<Seq<u8>>::empty());
            }
            return match self.write_blocks(part) {
                Err(e) => {
                    assert(self@.pending =~= Seq::<u8>::empty());
                    Err(e)
                },
                Ok(()) => {
                    assert(self@.pending + p@.skip(take as int) =~= left_over(p@, n));
                    Ok(take)
                },
            };
        }
        let free: usize = size - self.ibuf.len();
        let take: usize = if p.len() < free {
            p.len()
        } else {
            free
        };
        append_range(&mut self.ibuf, p, 0, take);
        let ghost full = self@.pending;
        let ghost after = p@.skip(take as int);
        assert(full + after =~= v.pending + p@);
        if self.ibuf.len() == size {
            proof {
                assert(full =~= (v.pending + p@).take(n));
                lemma_whole_block(full, after, n);
            }
            match self.flush_ibuf() {
                Err(e) => {
                    proof {
                        reveal(emitted);
                        assert(put_all(
                            v.out,
                            self@.out,
                            seq![full] + pieces(whole(after, n), n),
                            v.options.packing(),
                            Some(e),
                        ));
                    }
                    return Err(e);
                },
                Ok(()) => {},
            }
            assert(self@.pending + after =~= after);
        } else {
            assert(next_blocks(v, p@) + pieces(whole(v.pending + p@, n), n) =~= pieces(
                whole(v.pending + p@, n),
                n,
            ));
        }
        Ok(take)
    }

    /// Takes `p`. Whole blocks are put out; what is left over is kept for later.
    /// Returns the length of `p`.
    ///
    /// Where a block does not fit in the index, the write fails, and what was not put
    /// out is gone.
    pub fn write(&mut self, p: &[u8]) -> (r: Result<usize, Error>)
        requires
            old(self).wf(),
        ensures
            final(self).wf(),
            r is Ok ==> r == Ok::<usize, Error>(p.len()),
            writes_to(old(self)@, final(self)@, p@, error_of(r)),
    {
        if p.len() == 0 {
            return Ok(0);
        }
        if self.options.flush_on_write {
            return match self.write_blocks(p) {
                Err(e) => Err(e),
                Ok(()) => Ok(p.len()),
            };
        }
        let ghost v = self@;
        let ghost n = v.options.block_size as int;
        let ghost packing = v.options.packing();
        let ghost all = pieces(whole(v.pending + p@, n), n);
        let ghost mut done: Seq<Seq<u8>> = Seq::empty();
        let size: usize = self.options.block_size;
        let mut i: usize = 0;
        proof {
            assert(p@.skip(0) =~= p@);
            assert(done + all =~= all);
        }
        while i < p.len()
            invariant
                self.wf(),
                self@ == (WriterView { out: self@.out, pending: self@.pending, ..v }),
                v == old(self)@,
                !v.options.flush_on_write,
                n == v.options.block_size,
                size == n,
                size > 0,
                packing == v.options.packing(),
                i <= p.len(),
                p.len() > 0,
                all == pieces(whole(v.pending + p@, n), n),
                all == done + pieces(whole(self@.pending + p@.skip(i as int), n), n),
                left_over(self@.pending + p@.skip(i as int), n) == left_over(v.pending + p@, n),
                done.len() == 0 ==> self@.out == v.out,
                done.len() > 0 ==> emitted(v.out, self@.out, done, packing) && count_new(
                    v.out,
                    self@.out,
                ) == done.len(),
            decreases p.len() - i,
        {
            let ghost u = self@;
            let rest: &[u8] = slice_subrange(p, i, p.len());
            assert(rest@ =~= p@.skip(i as int));
            match self.write_some(rest) {
                Err(e) => {
                    proof {
                        let next = pieces(whole(u.pending + rest@, n), n);
                        lemma_put_after(v.out, u.out, self@.out, done, next, packing, Some(e));
                    }
                    return Err(e);
                },
                Ok(take) => {
                    proof {
                        let next = next_blocks(u, rest@);
                        assert(rest@.skip(take as int) =~= p@.skip(i + take));
                        let tail = pieces(whole(self@.pending + p@.skip(i + take), n), n);
                        assert(all =~= done + next + tail);
                        if next.len() > 0 {
                            lemma_put_after(v.out, u.out, self@.out, done, next, packing, None);
                        } else {
                            assert(done + next =~= done);
                        }
                        done = done + next;
                    }
                    i = i + take;
                },
            }
        }
        proof {
            assert(self@.pending + p@.skip(i as int) =~= self@.pending);
            lemma_whole_short(self@.pending, n);
            assert(all =~= done);
        }
        Ok(p.len())
    }
}

/// Data is cut into at least one block.
proof fn lemma_pieces_some(data: Seq<u8>, n: int)
    requires
        data.len() > 0,
        n > 0,
    ensures
        pieces(data, n).len() > 0,
{
}

/// The last blocks of a write follow those before.
proof fn lemma_put_after(
    u: OutputView,
    v: OutputView,
    w: OutputView,
    done: Seq<Seq<u8>>,
    next: Seq<Seq<u8>>,
    packing: Option<Level>,
    err: Option<Error>,
)
    requires
        done.len() == 0 ==> u == v,
        done.len() > 0 ==> emitted(u, v, done, packing) && count_new(u, v) == done.len(),
        put_all(v, w, next, packing, err),
    ensures
        put_all(u, w, done + next, packing, err),
{
    if done.len() == 0 {
        assert(done + next =~= next);
    } else {
        lemma_emitted_then(u, v, w, done, next, Seq::empty(), packing);
        assert(done + next + Seq::<Seq<u8>>::empty() =~= done + next);
    }
}

/// What a writer returns that puts out what is pending and closes the stream: the
/// sink and the index chunk, or why it failed.
pub open spec fn closes_to(
    v: WriterView,
    build_index: bool,
    sink: Seq<u8>,
    index_bytes: Seq<u8>,
    err: Option<Error>,
) -> bool {
    exists|w: OutputView| #[trigger]
        closed_from(v, w, build_index, sink, index_bytes, err)
}

/// What a writer returns that puts out what is pending and closes the stream, without
/// the index chunk.
pub open spec fn finishes_to(v: WriterView, sink: Seq<u8>, err: Option<Error>) -> bool {
    exists|index_bytes: Seq<u8>| #[trigger]
        closes_to(v, v.options.append_index, sink, index_bytes, err)
}

/// What a writer returns that closes the stream, where `w` is what was put out with
/// all that was pending.
pub open spec fn closed_from(
    v: WriterView,
    w: OutputView,
    build_index: bool,
    sink: Seq<u8>,
    index_bytes: Seq<u8>,
    err: Option<Error>,
) -> bool {
    let c = v.options.closing(build_index);
    let blocks = as_blocks(v.pending);
    &&& w.wf()
    &&& emitted(v.out, w, blocks, v.options.packing())
    &&& count_new(v.out, w) < blocks.len() ==> w.refusal() is Some && err == Some(
        Error::Index(w.refusal()->0),
    )
    &&& count_new(v.out, w) == blocks.len() ==> if w.closes(c) {
        &&& err is None
        &&& sink == w.before + w.closed(c)
        &&& index_bytes == w.index_bytes(c)
    } else {
        err == Some(Error::Index(index::Error::Invalid("index total exceeds i64 wire range")))
    }
}

/// What was put out with all that was pending.
proof fn lemma_flushed(v: WriterView, w: OutputView, err: Option<Error>)
    requires
        v.wf(),
        w.wf(),
        v.pending.len() == 0 ==> w == v.out && err is None,
        v.pending.len() > 0 ==> put_all(
            v.out,
            w,
            seq![v.pending],
            v.options.packing(),
            err,
        ),
    ensures
        ({
            let u = OutputView { started: true, ..w };
            &&& u.wf()
            &&& emitted(v.out, u, as_blocks(v.pending), v.options.packing())
            &&& 0 <= count_new(v.out, u) <= as_blocks(v.pending).len()
            &&& v.pending.len() > 0 ==> u == w
            &&& err is None <==> count_new(v.out, u) == as_blocks(v.pending).len()
        }),
{
    reveal(emitted);
    let u = OutputView { started: true, ..w };
    if v.pending.len() > 0 {
        assert(u =~= w);
    } else {
        assert(u.frames.take(v.out.frames.len() as int) =~= v.out.frames);
    }
}

impl Writer {
    /// Writes all of `p`.
    pub fn write_all(&mut self, p: &[u8]) -> (r: Result<(), Error>)
        requires
            old(self).wf(),
        ensures
            final(self).wf(),
            writes_to(old(self)@, final(self)@, p@, error_of(r)),
    {
        match self.write(p) {
            Ok(_) => Ok(()),
            Err(e) => Err(e),
        }
    }

    /// Puts out what is pending. The stream is not ended.
    pub fn flush(&mut self) -> (r: Result<(), Error>)
        requires
            old(self).wf(),
        ensures
            final(self).wf(),
            flushes_to(old(self)@, final(self)@, error_of(r)),
    {
        self.flush_ibuf()
    }

    /// Puts out what is pending, and then a user chunk.
    pub fn add_user_chunk(&mut self, id: u8, data: &[u8]) -> (r: Result<(), Error>)
        requires
            old(self).wf(),
        ensures
            final(self).wf(),
            !chunk::is_user(id) ==> r == Err::<(), Error>(
                Error::UserChunkId(id),
            ) && final(self)@ == old(self)@,
            chunk::is_user(id) && data.len() > MAX_USER_CHUNK_SIZE ==> r == Err::<(), Error>(
                Error::InvalidInput("user-chunk exceeds maximum size"),
            ) && final(self)@ == old(self)@,
            chunk::is_user(id) && data.len() <= MAX_USER_CHUNK_SIZE ==> added_user(
                old(self)@,
                final(self)@,
                id,
                data@,
                error_of(r),
            ),
    {
        if id < MIN_USER_SKIPPABLE_CHUNK || id > MAX_USER_NON_SKIPPABLE_CHUNK {
            return Err(Error::UserChunkId(id));
        }
        if data.len() > MAX_USER_CHUNK_SIZE {
            return Err(Error::InvalidInput("user-chunk exceeds maximum size"));
        }
        let ghost v = self@;
        let r = self.flush_ibuf();
        let ghost w = self@.out;
        proof {
            lemma_flushed(v, w, error_of(r));
        }
        match r {
            Err(e) => Err(e),
            Ok(()) => {
                self.out.put_user(id, data);
                proof {
                    let u = OutputView { started: true, ..w };
                    assert(flushed_to(v, u));
                    assert(self@ =~= with_user(v, u, id, data@));
                }
                Ok(())
            },
        }
    }

    /// Puts out what is pending and closes the stream; returns the sink.
    pub fn finish(self) -> (r: Result<Vec<u8>, Error>)
        requires
            self.wf(),
        ensures
            (match r {
                Ok(sink) => finishes_to(self@, sink@, None),
                Err(e) => finishes_to(self@, Seq::empty(), Some(e)),
            }),
    {
        let build: bool = self.options.append_index;
        let ghost v = self@;
        match self.close_inner(build) {
            Err(e) => {
                assert(closes_to(v, build, Seq::empty(), Seq::empty(), Some(e)));
                Err(e)
            },
            Ok((sink, index_bytes)) => {
                assert(closes_to(v, build, sink@, index_bytes@, None));
                Ok(sink)
            },
        }
    }

    /// Puts out what is pending and closes the stream; returns the sink and the index
    /// chunk. Fails where no index was built.
    pub fn close_index(self) -> (r: Result<(Vec<u8>, Vec<u8>), Error>)
        requires
            self.wf(),
        ensures
            !self@.options.generate_index ==> r == Err::<(Vec<u8>, Vec<u8>), Error>(
                Error::InvalidInput("minlz: close_index called but generate_index is false"),
            ),
            self@.options.generate_index ==> (match r {
                Ok((sink, index_bytes)) => closes_to(self@, true, sink@, index_bytes@, None),
                Err(e) => closes_to(self@, true, Seq::empty(), Seq::empty(), Some(e)),
            }),
    {
        if !self.out.is_indexed() {
            return Err(Error::InvalidInput("minlz: close_index called but generate_index is false"));
        }
        self.close_inner(true)
    }

    fn close_inner(self, build_index: bool) -> (r: Result<(Vec<u8>, Vec<u8>), Error>)
        requires
            self.wf(),
            build_index ==> self@.options.generate_index,
            self@.options.append_index ==> build_index,
        ensures
            (match r {
                Ok((sink, index_bytes)) => closes_to(
                    self@,
                    build_index,
                    sink@,
                    index_bytes@,
                    None,
                ),
                Err(e) => closes_to(self@, build_index, Seq::empty(), Seq::empty(), Some(e)),
            }),
    {
        let ghost v = self@;
        let mut me: Writer = self;
        let r = me.flush_ibuf();
        let ghost w = me@.out;
        let ghost u = OutputView { started: true, ..w };
        proof {
            lemma_flushed(v, w, error_of(r));
        }
        let c: Closing = Closing {
            padding: me.options.padding,
            append_index: me.options.append_index,
            build_index,
        };
        assert(c == v.options.closing(build_index));
        match r {
            Err(e) => {
                proof {
                    assert(closed_from(v, u, build_index, Seq::empty(), Seq::empty(), Some(e)));
                }
                Err(e)
            },
            Ok(()) => {
                match me.out.close(c) {
                    Ok((sink, index_bytes)) => {
                        assert(closed_from(v, u, build_index, sink@, index_bytes@, None));
                        Ok((sink, index_bytes))
                    },
                    Err(e) => {
                        assert(closed_from(v, u, build_index, Seq::empty(), Seq::empty(), Some(e)));
                        Err(e)
                    },
                }
            },
        }
    }
}

/// `u` is what was put out with all that was pending.
pub open spec fn flushed_to(v: WriterView, u: OutputView) -> bool {
    &&& u.wf()
    &&& u.started
    &&& emitted(v.out, u, as_blocks(v.pending), v.options.packing())
    &&& count_new(v.out, u) == as_blocks(v.pending).len()
}

/// The writer that has put out `u` and then a user chunk.
pub open spec fn with_user(v: WriterView, u: OutputView, id: u8, data: Seq<u8>) -> WriterView {
    WriterView {
        out: OutputView { frames: u.frames.push(Frame::User(id, data)), ..u },
        pending: Seq::empty(),
        ..v
    }
}

/// What became of adding a user chunk behind what was pending.
pub open spec fn added_user(
    v: WriterView,
    w: WriterView,
    id: u8,
    data: Seq<u8>,
    err: Option<Error>,
) -> bool {
    match err {
        None => exists|u: OutputView| #[trigger]
            flushed_to(v, u) && w == with_user(v, u, id, data),
        Some(e) => {
            &&& v.pending.len() > 0
            &&& w == WriterView { out: w.out, pending: Seq::empty(), ..v }
            &&& put_all(v.out, w.out, seq![v.pending], v.options.packing(), err)
        },
    }
}

} // verus!
