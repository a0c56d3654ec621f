//! What a writer puts out: the chunks of a stream, in order, and the index over them.
use crate::block;
use crate::block::emit;
use crate::block::encode;
use crate::block::load_store::{append_slice, store32};
use crate::block::{append_encoded_chunk_body, Level};
use crate::index;
use crate::index::wire;
use crate::index::{Index, IndexView};
use crate::stream::chunk;
use crate::stream::crc;
use crate::stream::crc::Crc32c;
use crate::stream::error::Error;
use crate::stream::format as layout;
use crate::stream::format::{
    make_stream_header, put_chunk_header, put_uvarint, CHUNK_TYPE_EOF,
    CHUNK_TYPE_MINLZ_COMPRESSED_DATA, CHUNK_TYPE_PADDING, CHUNK_TYPE_UNCOMPRESSED_DATA,
    MAX_BLOCK_SIZE, MAX_USER_CHUNK_SIZE, MIN_BLOCK_SIZE,
};
use vstd::prelude::*;

verus! {

/// The header of a data chunk with the checksum of `data`.
pub open spec fn data_header(kind: u8, len: int, data: Seq<u8>) -> Seq<u8> {
    layout::chunk_header(kind, 4 + len) + emit::le32_bytes(crc::masked_crc_of(data))
}

/// The uncompressed data chunk that holds `data`.
pub open spec fn stored_chunk(data: Seq<u8>) -> Seq<u8> {
    data_header(CHUNK_TYPE_UNCOMPRESSED_DATA, data.len() as int, data) + data
}

/// `c` is a compressed data chunk that holds `data` in fewer bytes.
pub open spec fn is_packed_chunk(c: Seq<u8>, data: Seq<u8>) -> bool {
    &&& 8 <= c.len() < 8 + data.len()
    &&& c == data_header(CHUNK_TYPE_MINLZ_COMPRESSED_DATA, c.len() - 8, data) + c.skip(8)
    &&& block::chunk_decoded(c.skip(8)) == Ok::<Seq<u8>, crate::error::Error>(data)
}

/// `c` is a data chunk that holds `data`.
#[verifier::opaque]
pub open spec fn is_chunk_of(c: Seq<u8>, data: Seq<u8>) -> bool {
    c == stored_chunk(data) || is_packed_chunk(c, data)
}

/// How long a data chunk is.
pub proof fn lemma_chunk_len(c: Seq<u8>, data: Seq<u8>)
    requires
        is_chunk_of(c, data),
    ensures
        8 <= c.len() <= 8 + data.len(),
{
    reveal(is_chunk_of);
}

/// The data chunk of a block: compressed by the encoder of a level where that makes
/// it smaller, or as it is; always as it is where there is no level.
#[verifier::opaque]
pub open spec fn data_chunk(data: Seq<u8>, packing: Option<Level>) -> Seq<u8> {
    let body = match packing {
        None => None,
        Some(level) => block::smaller_chunk(data, level),
    };
    match body {
        None => stored_chunk(data),
        Some(b) => data_header(CHUNK_TYPE_MINLZ_COMPRESSED_DATA, b.len() as int, data) + b,
    }
}

/// `c` is the data chunk of `data`, and holds it. It is compressed where that makes
/// it smaller: never where there are fewer than sixteen bytes, always where there is
/// one byte over and over for at least thirty-two bytes.
pub open spec fn is_data_chunk(c: Seq<u8>, data: Seq<u8>, packing: Option<Level>) -> bool {
    &&& c == data_chunk(data, packing)
    &&& is_chunk_of(c, data)
    &&& packing is None || data.len() < 16 ==> c == stored_chunk(data)
    &&& packing is Some && encode::is_constant(data) && data.len() >= 32 ==> is_packed_chunk(
        c,
        data,
    )
}

/// The data chunk of a block holds it.
pub proof fn law_data_chunk(data: Seq<u8>, packing: Option<Level>)
    requires
        data.len() <= MAX_BLOCK_SIZE,
    ensures
        is_chunk_of(data_chunk(data, packing), data),
{
    reveal(data_chunk);
    reveal(is_chunk_of);
    if let Some(level) = packing {
        block::law_chunk_inverts(data, level);
        if let Some(b) = block::smaller_chunk(data, level) {
            assert(data_chunk(data, packing).skip(8) =~= b);
        }
    }
}

/// The level; none where compression is off.
pub open spec fn packing_of(level: Level, uncompressed: bool) -> Option<Level> {
    if uncompressed {
        None
    } else {
        Some(level)
    }
}

/// A data chunk that was made from a block.
pub struct Encoded {
    chunk: Vec<u8>,
    len: usize,
    data: Ghost<Seq<u8>>,
    packing: Ghost<Option<Level>>,
}

impl Encoded {
    /// The block.
    pub closed spec fn data(&self) -> Seq<u8> {
        self.data@
    }

    /// The level; none where compression was off.
    pub closed spec fn packing(&self) -> Option<Level> {
        self.packing@
    }

    /// The bytes of the chunk.
    pub closed spec fn chunk(&self) -> Seq<u8> {
        self.chunk@
    }

    #[verifier::type_invariant]
    spec fn inv(self) -> bool {
        &&& is_data_chunk(self.chunk@, self.data@, self.packing@)
        &&& self.len == self.data@.len()
        &&& self.data@.len() <= MAX_BLOCK_SIZE
    }

    /// Returns the length of the block.
    pub fn uncomp_len(&self) -> (r: usize)
        ensures
            r == self.data().len(),
            r <= MAX_BLOCK_SIZE,
            is_chunk_of(self.chunk(), self.data()),
    {
        proof {
            use_type_invariant(self);
        }
        self.len
    }

    /// Returns the bytes of the chunk.
    pub fn as_slice(&self) -> (r: &[u8])
        ensures
            r@ == self.chunk(),
    {
        self.chunk.as_slice()
    }
}

/// Makes the data chunk of a block, compressed where that makes it smaller.
pub fn encode_chunk(sums: &Crc32c, block: &[u8], level: Level, uncompressed: bool) -> (r: Encoded)
    requires
        block.len() <= MAX_BLOCK_SIZE,
    ensures
        r.data() == block@,
        r.packing() == packing_of(level, uncompressed),
        is_data_chunk(r.chunk(), block@, packing_of(level, uncompressed)),
{
    proof {
        reveal(data_chunk);
        reveal(is_chunk_of);
    }
    let sum: u32 = sums.masked_crc32c(block);
    let mut body: Vec<u8> = Vec::new();
    let packed: bool = if uncompressed {
        false
    } else {
        match append_encoded_chunk_body(&mut body, block, level) {
            Ok(ok) => ok,
            Err(_) => false,
        }
    };
    let mut chunk: Vec<u8> = Vec::new();
    if packed {
        assert(Some(body@) == block::smaller_chunk(block@, level));
        put_chunk_header(&mut chunk, CHUNK_TYPE_MINLZ_COMPRESSED_DATA, 4 + body.len());
        store32(&mut chunk, sum);
        append_slice(&mut chunk, body.as_slice());
        proof {
            let h = data_header(CHUNK_TYPE_MINLZ_COMPRESSED_DATA, body@.len() as int, block@);
            assert(chunk@ =~= h + body@);
            assert(chunk@.skip(8) =~= body@);
            lemma_kinds_differ(chunk@, block@);
        }
    } else {
        put_chunk_header(&mut chunk, CHUNK_TYPE_UNCOMPRESSED_DATA, 4 + block.len());
        store32(&mut chunk, sum);
        append_slice(&mut chunk, block);
        assert(chunk@ =~= stored_chunk(block@));
    }
    Encoded { chunk, len: block.len(), data: Ghost(block@), packing: Ghost(packing_of(level, uncompressed)) }
}

/// A compressed chunk is no uncompressed one.
proof fn lemma_kinds_differ(c: Seq<u8>, data: Seq<u8>)
    requires
        is_packed_chunk(c, data),
    ensures
        c != stored_chunk(data),
{
    assert(c[0] == CHUNK_TYPE_MINLZ_COMPRESSED_DATA);
    assert(stored_chunk(data)[0] == CHUNK_TYPE_UNCOMPRESSED_DATA);
}

/// One thing that a writer has put out.
pub enum Frame {
    /// A block and its data chunk.
    Block(Seq<u8>, Seq<u8>),
    /// A user chunk: its type and its payload.
    User(u8, Seq<u8>),
}

impl Frame {
    /// The bytes of the frame in the stream.
    pub open spec fn bytes(self) -> Seq<u8> {
        match self {
            Frame::Block(_, c) => c,
            Frame::User(id, b) => layout::chunk_header(id, b.len() as int) + b,
        }
    }

    /// The data in the frame.
    pub open spec fn data(self) -> Seq<u8> {
        match self {
            Frame::Block(d, _) => d,
            Frame::User(_, _) => Seq::empty(),
        }
    }

    /// The frame is one that a writer with blocks of at most `block_size` bytes puts
    /// out.
    pub open spec fn wf(self, block_size: int) -> bool {
        match self {
            Frame::Block(d, c) => {
                &&& 0 < d.len() <= block_size
                &&& is_chunk_of(c, d)
            },
            Frame::User(id, b) => chunk::is_user(id) && b.len() <= MAX_USER_CHUNK_SIZE,
        }
    }
}

/// The bytes of all the frames.
pub open spec fn bytes_of(fs: Seq<Frame>) -> Seq<u8>
    decreases fs.len(),
{
    if fs.len() == 0 {
        Seq::empty()
    } else {
        bytes_of(fs.drop_last()) + fs.last().bytes()
    }
}

/// The data in all the frames.
pub open spec fn data_of(fs: Seq<Frame>) -> Seq<u8>
    decreases fs.len(),
{
    if fs.len() == 0 {
        Seq::empty()
    } else {
        data_of(fs.drop_last()) + fs.last().data()
    }
}

/// What an output has taken.
#[verifier::ext_equal]
pub struct OutputView {
    /// What the sink held before.
    pub before: Seq<u8>,
    /// Largest block.
    pub block_size: usize,
    /// Whether an index is built.
    pub indexed: bool,
    /// Whether the stream was started.
    pub started: bool,
    /// What was put out since.
    pub frames: Seq<Frame>,
}

impl OutputView {
    /// The chunk that starts the stream, once it was put out.
    pub open spec fn header(self) -> Seq<u8> {
        if self.started {
            layout::stream_header(layout::indicator_of(self.block_size as int))
        } else {
            Seq::empty()
        }
    }

    /// The bytes of the stream so far.
    pub open spec fn bytes(self) -> Seq<u8> {
        self.header() + bytes_of(self.frames)
    }

    /// The uncompressed size so far.
    pub open spec fn total(self) -> u64 {
        chunk::wrapping(0, data_of(self.frames).len() as int)
    }

    /// The index of the stream so far.
    pub open spec fn index(self) -> IndexView {
        index_of(self.block_size, self.frames)
    }

    /// Why the next block cannot be put out: its offsets do not fit in an index.
    pub open spec fn refusal(self) -> Option<index::Error> {
        let started = OutputView { started: true, ..self };
        if !self.indexed {
            None
        } else {
            match index::added(self.index(), started.bytes().len() as u64, self.total()) {
                Ok(_) => None,
                Err(e) => Some(e),
            }
        }
    }

    /// The block size is in range, nothing comes before the start, and the frames are
    /// in order.
    pub open spec fn wf(self) -> bool {
        &&& MIN_BLOCK_SIZE <= self.block_size <= MAX_BLOCK_SIZE
        &&& !self.started ==> self.frames.len() == 0
        &&& forall|i: int|
            0 <= i < self.frames.len() ==> (#[trigger] self.frames[i]).wf(self.block_size as int)
    }
}

/// The index over frames: each block is added at its offsets in the stream.
pub open spec fn index_of(block_size: usize, fs: Seq<Frame>) -> IndexView
    decreases fs.len(),
{
    if fs.len() == 0 {
        IndexView {
            est_block_uncomp: index::spacing(block_size as int) as u64,
            ..index::empty_index()
        }
    } else {
        let before = fs.drop_last();
        let v = index_of(block_size, before);
        match fs.last() {
            Frame::Block(_, _) => match index::added(
                v,
                (10 + bytes_of(before).len()) as u64,
                chunk::wrapping(0, data_of(before).len() as int),
            ) {
                Ok(w) => w,
                Err(_) => v,
            },
            Frame::User(_, _) => v,
        }
    }
}

/// The chunk that ends a stream of `total` uncompressed bytes.
pub open spec fn end_chunk(total: u64) -> Seq<u8> {
    let v = block::format::uvarint(total as nat);
    layout::chunk_header(CHUNK_TYPE_EOF, v.len() as int) + v
}

/// `k` raised by `multiple` until there is room for the header of a chunk.
pub open spec fn room_for_chunk(k: int, multiple: int) -> int
    decreases
        (if k < 4 {
            4 - k
        } else {
            0
        }),
    when multiple > 0
{
    if k < 4 {
        room_for_chunk(k + multiple, multiple)
    } else {
        k
    }
}

/// How many bytes of padding a stream of `len` bytes gets.
pub open spec fn padding_len(padding: u32, len: int) -> int {
    if padding < 2 || len % (padding as int) == 0 {
        0
    } else {
        room_for_chunk(padding - len % (padding as int), padding as int)
    }
}

/// A padding chunk of `n` bytes, or nothing.
pub open spec fn padding_chunk(n: int) -> Seq<u8> {
    if n == 0 {
        Seq::empty()
    } else {
        layout::chunk_header(CHUNK_TYPE_PADDING, n - 4) + Seq::new((n - 4) as nat, |i: int| 0u8)
    }
}

/// How a stream is closed.
#[derive(Debug, Clone, Copy, PartialEq, Eq, Structural)]
pub struct Closing {
    /// The size of a closed stream is a multiple of this.
    pub padding: u32,
    /// Whether the index stands at the end of the stream.
    pub append_index: bool,
    /// Whether the index is wanted.
    pub build_index: bool,
}

impl Closing {
    /// The padding is in range.
    pub open spec fn wf(self) -> bool {
        self.padding <= MAX_BLOCK_SIZE
    }
}

impl OutputView {
    /// The stream with its end.
    pub open spec fn ended(self) -> Seq<u8> {
        self.bytes() + end_chunk(self.total())
    }

    /// The compressed size that is stored in the index. That of a padded stream is
    /// not known.
    pub open spec fn stored_size(self, c: Closing) -> Option<u64> {
        if c.padding <= 1 {
            Some(self.ended().len() as u64)
        } else {
            None
        }
    }

    /// The index chunk, where it is wanted.
    pub open spec fn index_bytes(self, c: Closing) -> Seq<u8> {
        if c.build_index {
            wire::index_chunk(
                wire::payload(
                    index::finished(self.index(), Some(self.total()), self.stored_size(c)),
                ),
            )
        } else {
            Seq::empty()
        }
    }

    /// What stands at the end of the closed stream: the index, or nothing.
    pub open spec fn appended(self, c: Closing) -> Seq<u8> {
        if c.append_index {
            self.index_bytes(c)
        } else {
            Seq::empty()
        }
    }

    /// The closed stream: its end, padding, and the index.
    pub open spec fn closed(self, c: Closing) -> Seq<u8> {
        let tail = self.appended(c);
        self.ended() + padding_chunk(
            padding_len(c.padding, (self.ended().len() + tail.len()) as int),
        ) + tail
    }

    /// Whether the sizes fit in the index that is wanted.
    pub open spec fn closes(self, c: Closing) -> bool {
        c.build_index ==> index::total_fits(Some(self.total())) && index::total_fits(
            self.stored_size(c),
        )
    }
}

/// A sink that takes the chunks of a stream in order and keeps the index over them.
pub struct Output {
    sink: Vec<u8>,
    base: usize,
    block_size: usize,
    index: Option<Index>,
    started: bool,
    uncomp_written: u64,
    frames: Ghost<Seq<Frame>>,
}

impl View for Output {
    type V = OutputView;

    closed spec fn view(&self) -> OutputView {
        OutputView {
            before: self.sink@.take(self.base as int),
            block_size: self.block_size,
            indexed: self.index is Some,
            started: self.started,
            frames: self.frames@,
        }
    }
}

impl Output {
    /// The output is in order.
    pub open spec fn wf(&self) -> bool {
        self.sink_wf() && self@.wf()
    }

    /// The sink holds what was there before and the stream; the index and the size
    /// are those of the frames.
    pub closed spec fn sink_wf(&self) -> bool {
        &&& self.base <= self.sink@.len()
        &&& self.sink@ == self@.before + self@.bytes()
        &&& self.uncomp_written == self@.total()
        &&& self.index is Some ==> (self.index->0)@ == self@.index() && (self.index->0)@.wf()
    }

    /// An output that puts a stream behind what `sink` holds.
    pub fn new(sink: Vec<u8>, block_size: usize, indexed: bool) -> (r: Self)
        requires
            MIN_BLOCK_SIZE <= block_size <= MAX_BLOCK_SIZE,
        ensures
            r.wf(),
            r@ == (OutputView {
                before: sink@,
                block_size,
                indexed,
                started: false,
                frames: Seq::empty(),
            }),
    {
        let index = if indexed {
            let mut idx: Index = Index::new();
            idx.reset(block_size);
            Some(idx)
        } else {
            None
        };
        let base: usize = sink.len();
        let r = Output {
            sink,
            base,
            block_size,
            index,
            started: false,
            uncomp_written: 0,
            frames: Ghost(Seq::empty()),
        };
        assert(r@.before =~= sink@);
        assert(sink@ =~= r@.before + r@.bytes());
        r
    }

    /// The uncompressed size of the blocks that were put out.
    pub fn uncomp_written(&self) -> (r: u64)
        requires
            self.wf(),
        ensures
            r == self@.total(),
    {
        self.uncomp_written
    }

    /// The size of the stream so far.
    pub fn comp_written(&self) -> (r: u64)
        requires
            self.wf(),
        ensures
            r == self@.bytes().len(),
    {
        (self.sink.len() - self.base) as u64
    }

    /// What the sink holds: what was there before and the stream so far.
    pub fn sink(&self) -> (r: &[u8])
        requires
            self.wf(),
        ensures
            r@ == self@.before + self@.bytes(),
    {
        self.sink.as_slice()
    }

    /// Whether an index is built.
    pub fn is_indexed(&self) -> (r: bool)
        ensures
            r == self@.indexed,
    {
        self.index.is_some()
    }

    /// Starts the stream, once.
    pub fn ensure_header(&mut self)
        requires
            old(self).wf(),
        ensures
            final(self).wf(),
            final(self)@ == (OutputView { started: true, ..old(self)@ }),
    {
        if !self.started {
            let h: Vec<u8> = make_stream_header(self.block_size);
            append_slice(&mut self.sink, h.as_slice());
            self.started = true;
            proof {
                let ghost v = old(self)@;
                assert(v.bytes() =~= Seq::<u8>::empty());
                assert(self@.frames =~= Seq::<Frame>::empty());
                assert(self@.bytes() =~= h@);
                assert(self.sink@ =~= v.before + h@);
                assert(self@.before =~= v.before);
            }
        }
    }

    /// Adds the place of the next block to the index, if there is one.
    fn add_to_index(&mut self) -> (r: Result<(), index::Error>)
        requires
            old(self).wf(),
            old(self)@.started,
        ensures
            final(self).sink == old(self).sink,
            final(self).base == old(self).base,
            final(self).block_size == old(self).block_size,
            final(self).started == old(self).started,
            final(self).uncomp_written == old(self).uncomp_written,
            final(self).frames == old(self).frames,
            final(self).index is Some == old(self).index is Some,
            (match old(self)@.refusal() {
                Some(x) => r == Err::<(), index::Error>(x) && final(self).wf(),
                None => {
                    &&& r is Ok
                    &&& final(self).index is Some ==> {
                        &&& (final(self).index->0)@.wf()
                        &&& index::added(
                            old(self)@.index(),
                            old(self)@.bytes().len() as u64,
                            old(self)@.total(),
                        ) == Ok::<IndexView, index::Error>((final(self).index->0)@)
                    }
                },
            }),
    {
        let comp: u64 = self.comp_written();
        let uncomp: u64 = self.uncomp_written;
        let mut idx: Option<Index> = None;
        core::mem::swap(&mut idx, &mut self.index);
        match idx {
            None => Ok(()),
            Some(mut i) => {
                let res = i.add(comp, uncomp);
                self.index = Some(i);
                assert(old(self)@ == self@);
                res
            },
        }
    }

    /// Puts out a data chunk. Fails where its offsets do not fit in the index.
    #[verifier::rlimit(40)]
    #[verifier::spinoff_prover]
    pub fn put_block(&mut self, e: Encoded) -> (r: Result<(), Error>)
        requires
            old(self).wf(),
            0 < e.data().len() <= old(self)@.block_size,
        ensures
            final(self).wf(),
            (match old(self)@.refusal() {
                Some(x) => {
                    &&& r == Err::<(), Error>(Error::Index(x))
                    &&& final(self)@ == (OutputView { started: true, ..old(self)@ })
                },
                None => {
                    &&& r is Ok
                    &&& final(self)@ == (OutputView {
                        started: true,
                        frames: old(self)@.frames.push(Frame::Block(e.data(), e.chunk())),
                        ..old(self)@
                    })
                },
            }),
    {
        self.ensure_header();
        let ghost v = self@;
        let ghost f = Frame::Block(e.data(), e.chunk());
        assert(v.index() == old(self)@.index());
        match self.add_to_index() {
            Err(x) => {
                return Err(Error::Index(x));
            },
            Ok(()) => {},
        }
        let n: usize = e.uncomp_len();
        append_slice(&mut self.sink, e.as_slice());
        self.uncomp_written = self.uncomp_written.wrapping_add(n as u64);
        self.frames = Ghost(v.frames.push(f));
        proof {
            lemma_frame_pushed(v, f);
            assert(self@.before =~= v.before);
            assert(self.sink@ =~= v.before + self@.bytes());
            lemma_wrapping(data_of(v.frames).len() as int, n as int);
        }
        Ok(())
    }

    /// Puts out a user chunk.
    pub fn put_user(&mut self, id: u8, data: &[u8])
        requires
            old(self).wf(),
            chunk::is_user(id),
            data.len() <= MAX_USER_CHUNK_SIZE,
        ensures
            final(self).wf(),
            final(self)@ == (OutputView {
                started: true,
                frames: old(self)@.frames.push(Frame::User(id, data@)),
                ..old(self)@
            }),
    {
        self.ensure_header();
        let ghost v = self@;
        let ghost f = Frame::User(id, data@);
        put_chunk_header(&mut self.sink, id, data.len());
        append_slice(&mut self.sink, data);
        self.frames = Ghost(v.frames.push(f));
        proof {
            lemma_frame_pushed(v, f);
            assert(self@.before =~= v.before);
            assert(self.sink@ =~= v.before + self@.bytes());
        }
    }
}

proof fn lemma_wrapping(a: int, n: int)
    ensures
        chunk::wrapping(chunk::wrapping(0, a), n) == chunk::wrapping(0, a + n),
{
}

/// What a frame more adds.
pub proof fn lemma_frame_pushed(v: OutputView, f: Frame)
    requires
        v.wf(),
        v.started,
        f.wf(v.block_size as int),
    ensures
        ({
            let w = OutputView { frames: v.frames.push(f), ..v };
            &&& w.wf()
            &&& w.bytes() == v.bytes() + f.bytes()
            &&& data_of(w.frames) == data_of(v.frames) + f.data()
            &&& f is User ==> w.index() == v.index()
            &&& f is Block ==> w.index() == match index::added(
                v.index(),
                v.bytes().len() as u64,
                v.total(),
            ) {
                Ok(i) => i,
                Err(_) => v.index(),
            }
        }),
{
    let fs = v.frames.push(f);
    let w = OutputView { frames: fs, ..v };
    assert(fs.drop_last() =~= v.frames);
    assert(w.bytes() =~= v.bytes() + f.bytes());
    assert forall|i: int| 0 <= i < fs.len() implies (#[trigger] fs[i]).wf(v.block_size as int) by {
        if i < v.frames.len() {
            assert(fs[i] == v.frames[i]);
        }
    }
}

/// Appends the chunk that ends a stream of `total` uncompressed bytes.
fn emit_eof(dst: &mut Vec<u8>, total: u64)
    ensures
        final(dst)@ == old(dst)@ + end_chunk(total),
{
    let mut v: Vec<u8> = Vec::new();
    put_uvarint(&mut v, total);
    proof {
        assert(v@ =~= block::format::uvarint(total as nat));
        block::format::lemma_uvarint_roundtrip(total, Seq::empty());
        block::format::lemma_parse_uvarint_bounds(block::format::uvarint(total as nat) + Seq::empty());
    }
    put_chunk_header(dst, CHUNK_TYPE_EOF, v.len());
    append_slice(dst, v.as_slice());
    assert(dst@ =~= old(dst)@ + end_chunk(total));
}

proof fn lemma_room(k: int, multiple: int)
    requires
        0 < k <= multiple,
    ensures
        room_for_chunk(k, multiple) >= 4,
        room_for_chunk(k, multiple) < multiple + 4,
        room_for_chunk(k, multiple) % multiple == k % multiple,
    decreases
            (if k < 4 {
                4 - k
            } else {
                0
            }),
{
    lemma_room_from(k, k, multiple);
}

proof fn lemma_room_from(j: int, k: int, multiple: int)
    requires
        0 < k <= multiple,
        k <= j < multiple + 4,
        j % multiple == k % multiple,
    ensures
        room_for_chunk(j, multiple) >= 4,
        room_for_chunk(j, multiple) < multiple + 4,
        room_for_chunk(j, multiple) % multiple == k % multiple,
    decreases
            (if j < 4 {
                4 - j
            } else {
                0
            }),
{
    if j < 4 {
        vstd::arithmetic::div_mod::lemma_mod_add_multiples_vanish(j, multiple);
        lemma_room_from(j + multiple, k, multiple);
    }
}

/// Padding makes the size of a stream a multiple, with a chunk or nothing.
pub proof fn law_padding(padding: u32, len: int)
    requires
        len >= 0,
    ensures
        padding_len(padding, len) == 0 || 4 <= padding_len(padding, len) < padding + 4,
        padding >= 2 ==> (len + padding_len(padding, len)) % (padding as int) == 0,
        padding_chunk(padding_len(padding, len)).len() == padding_len(padding, len),
{
    let n = padding as int;
    if padding >= 2 && len % n != 0 {
        let k = n - len % n;
        lemma_room(k, n);
        let r = room_for_chunk(k, n);
        vstd::arithmetic::div_mod::lemma_mod_bound(len, n);
        vstd::arithmetic::div_mod::lemma_add_mod_noop(len, r, n);
        vstd::arithmetic::div_mod::lemma_add_mod_noop(len, k, n);
        assert((len + k) % n == 0) by {
            vstd::arithmetic::div_mod::lemma_fundamental_div_mod(len, n);
            assert(len + k == n * (len / n) + n);
            assert(n * (len / n) + n == n * (len / n + 1)) by (nonlinear_arith);
            vstd::arithmetic::div_mod::lemma_mod_multiples_basic(len / n + 1, n);
            assert(n * (len / n + 1) == (len / n + 1) * n) by (nonlinear_arith);
        }
    }
}

/// The size of a closed stream is a multiple of its padding.
pub proof fn law_padded_size(w: OutputView, c: Closing)
    requires
        c.padding >= 2,
    ensures
        w.closed(c).len() as int % (c.padding as int) == 0,
{
    law_padding(c.padding, (w.ended().len() + w.appended(c).len()) as int);
}

/// Appends padding to a stream of `len` bytes.
fn emit_padding(dst: &mut Vec<u8>, padding: u32, len: u128)
    requires
        padding <= MAX_BLOCK_SIZE,
    ensures
        final(dst)@ == old(dst)@ + padding_chunk(padding_len(padding, len as int)),
{
    proof {
        law_padding(padding, len as int);
    }
    if padding < 2 {
        assert(dst@ =~= old(dst)@ + Seq::<u8>::empty());
        return ;
    }
    let multiple: u64 = padding as u64;
    let leftover: u64 = (len % (multiple as u128)) as u64;
    if leftover == 0 {
        assert(dst@ =~= old(dst)@ + Seq::<u8>::empty());
        return ;
    }
    let mut to_add: u64 = multiple - leftover;
    while to_add < 4
        invariant
            2 <= multiple <= MAX_BLOCK_SIZE,
            to_add <= MAX_BLOCK_SIZE + 4,
            room_for_chunk(to_add as int, multiple as int) == padding_len(padding, len as int),
        decreases
                (if to_add < 4 {
                    4 - to_add
                } else {
                    0
                }),
    {
        to_add = to_add + multiple;
    }
    let body_len: usize = (to_add - 4) as usize;
    put_chunk_header(dst, CHUNK_TYPE_PADDING, body_len);
    let mut i: usize = 0;
    let ghost head = dst@;
    while i < body_len
        invariant
            i <= body_len,
            dst@ == head + Seq::new(i as nat, |j: int| 0u8),
        decreases body_len - i,
    {
        dst.push(0);
        i = i + 1;
        assert(dst@ =~= head + Seq::new(i as nat, |j: int| 0u8));
    }
    assert(dst@ =~= old(dst)@ + padding_chunk(to_add as int));
}

/// Returns the index chunk of a stream of `total` uncompressed bytes that ends after
/// `ended` bytes, where it is wanted.
fn index_chunk(idx: Option<Index>, c: Closing, total: u64, ended: u64) -> (r: Result<
    Vec<u8>,
    index::Error,
>)
    requires
        c.build_index ==> idx is Some && (idx->0)@.wf(),
    ensures
        ({
            let size = if c.padding <= 1 {
                Some(ended)
            } else {
                None
            };
            let fits = index::total_fits(Some(total)) && index::total_fits(size);
            &&& !c.build_index ==> r is Ok && (r->Ok_0)@ == Seq::<u8>::empty()
            &&& c.build_index && fits ==> {
                &&& r is Ok
                &&& (r->Ok_0)@ == wire::index_chunk(
                    wire::payload(index::finished((idx->0)@, Some(total), size)),
                )
            }
            &&& c.build_index && !fits ==> r == Err::<Vec<u8>, index::Error>(
                index::Error::Invalid("index total exceeds i64 wire range"),
            )
        }),
{
    let mut b: Vec<u8> = Vec::new();
    if c.build_index {
        if let Some(i) = idx {
            let mut i: Index = i;
            let size: Option<u64> = if c.padding <= 1 {
                Some(ended)
            } else {
                None
            };
            match i.append_to(&mut b, Some(total), size) {
                Err(e) => {
                    return Err(e);
                },
                Ok(()) => {},
            }
            assert(b@ =~= wire::index_chunk(wire::payload(i@)));
        }
    }
    Ok(b)
}

impl Output {
    /// Closes the stream: its end, padding, and the index. Returns the sink and the
    /// index chunk, empty where it is not wanted. Fails where the sizes do not fit in
    /// the index.
    pub fn close(self, c: Closing) -> (r: Result<(Vec<u8>, Vec<u8>), Error>)
        requires
            self.wf(),
            c.wf(),
            c.build_index ==> self@.indexed,
            c.append_index ==> c.build_index,
        ensures
            ({
                let v = OutputView { started: true, ..self@ };
                &&& v.closes(c) ==> {
                    &&& r is Ok
                    &&& (r->Ok_0).0@ == v.before + v.closed(c)
                    &&& (r->Ok_0).1@ == v.index_bytes(c)
                }
                &&& !v.closes(c) ==> r == Err::<(Vec<u8>, Vec<u8>), Error>(
                    Error::Index(index::Error::Invalid("index total exceeds i64 wire range")),
                )
            }),
    {
        let mut out: Output = self;
        out.ensure_header();
        let ghost v = out@;
        let base: usize = out.base;
        let total: u64 = out.uncomp_written;
        let mut sink: Vec<u8> = out.sink;
        emit_eof(&mut sink, total);
        assert(sink@ =~= v.before + v.ended());
        let ended: u64 = (sink.len() - base) as u64;
        let index_bytes: Vec<u8> = match index_chunk(out.index, c, total, ended) {
            Err(e) => {
                return Err(Error::Index(e));
            },
            Ok(b) => b,
        };
        assert(index_bytes@ == v.index_bytes(c));
        let mut size: u128 = ended as u128;
        if c.append_index {
            size = size + index_bytes.len() as u128;
        }
        emit_padding(&mut sink, c.padding, size);
        if c.append_index {
            append_slice(&mut sink, index_bytes.as_slice());
        }
        assert(sink@ =~= v.before + v.closed(c));
        Ok((sink, index_bytes))
    }
}

} // verus!
