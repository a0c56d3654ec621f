//! Chunks: what a reader makes of one.
//!
//! A chunk is handled in two parts. [`plan_chunk`] decides from its header alone
//! whether its body is wanted; [`finish_chunk`] takes the body. What is known of
//! the stream between two chunks is a [`Progress`].
use crate::block;
use crate::block::load_store::{append_range, load32};
use crate::block::{append_decoded_chunk_body, decoded_len_chunk_body, max_encoded_len};
use crate::stream::crc;
use crate::stream::crc::Crc32c;
use crate::stream::error::Error;
use crate::stream::format as layout;
use crate::stream::format::{
    block_size_from_indicator, get_uvarint, CHUNK_TYPE_EOF, CHUNK_TYPE_MINLZ_COMPRESSED_DATA,
    CHUNK_TYPE_MINLZ_COMPRESSED_DATA_COMP_CRC, CHUNK_TYPE_STREAM_IDENTIFIER,
    CHUNK_TYPE_UNCOMPRESSED_DATA, MAX_BLOCK_SIZE, MAX_NON_SKIPPABLE_CHUNK,
    MAX_USER_NON_SKIPPABLE_CHUNK, MIN_USER_NON_SKIPPABLE_CHUNK, MIN_USER_SKIPPABLE_CHUNK,
};
use vstd::prelude::*;
use vstd::slice::slice_subrange;

verus! {

/// What takes the user chunks of a stream.
///
/// What a handler does may be stated in [`state`](UserChunkHandler::state) and
/// [`may_answer`](UserChunkHandler::may_answer). One that states nothing may do anything.
pub trait UserChunkHandler {
    /// What the handler remembers, as a number.
    open spec fn state(&self) -> int {
        0
    }

    /// Whether the handler, given a chunk of type `id`, may answer `r` and remember `then`.
    open spec fn may_answer(&self, id: u8, payload: Seq<u8>, r: Answer, then: int) -> bool {
        true
    }

    /// Takes the payload of a chunk of type `id`. An error ends decoding.
    fn user_chunk(&mut self, id: u8, payload: &[u8]) -> (r: Answer)
        ensures
            old(self).may_answer(id, payload@, r, final(self).state()),
    ;
}

/// A callback for user chunks.
pub type UserChunkCb = Box<dyn UserChunkHandler>;

/// What a callback answers to a user chunk.
pub type Answer = Result<(), Error>;

/// Callbacks by the type of the user chunks that they get.
pub type Callbacks = Seq<Option<UserChunkCb>>;

/// A handler as a callback.
///
/// It is not stated that what the handler states of itself holds of the callback too: a proof
/// speaks of `state` and `may_answer` of the callback.
pub open spec fn as_callback<F: UserChunkHandler + 'static>(cb: F) -> UserChunkCb {
    Box::new(cb)
}

/// There are callbacks for the same types.
pub open spec fn same_types(a: Callbacks, b: Callbacks) -> bool {
    &&& a.len() == b.len()
    &&& forall|i: int| 0 <= i < a.len() ==> (#[trigger] a[i] is Some <==> b[i] is Some)
}

/// The callbacks are the same, but for the one at `i`.
pub open spec fn same_but(a: Callbacks, b: Callbacks, i: int) -> bool {
    &&& a.len() == b.len()
    &&& forall|j: int| 0 <= j < a.len() && j != i ==> (#[trigger] b[j]) == a[j]
}

/// Of the callbacks `a`, the one for the type of a chunk was called with it, once. It
/// answered `x`. The callbacks are then `b`: that one may have changed, the others have
/// not.
pub open spec fn called(a: Callbacks, c: (u8, Seq<u8>), x: Answer, b: Callbacks) -> bool {
    let i = c.0 - MIN_USER_SKIPPABLE_CHUNK;
    &&& 0 <= i < a.len()
    &&& a[i] is Some
    &&& b[i] is Some
    &&& same_but(a, b, i)
    &&& a[i]->0.may_answer(c.0, c.1, x, b[i]->0.state())
}

/// The callbacks `a` were called with chunks, one after the other, each once, and answered
/// so. They are then `b`.
#[verifier::opaque]
pub open spec fn took(
    a: Callbacks,
    chunks: Seq<(u8, Seq<u8>)>,
    answers: Seq<Answer>,
    b: Callbacks,
) -> bool
    decreases chunks.len(),
{
    &&& answers.len() == chunks.len()
    &&& if chunks.len() == 0 {
        b == a
    } else {
        exists|m: Callbacks|
            #![trigger called(m, chunks.last(), answers.last(), b)]
            took(a, chunks.drop_last(), answers.drop_last(), m) && called(
                m,
                chunks.last(),
                answers.last(),
                b,
            )
    }
}

/// Calls leave the types for which there is a callback.
pub proof fn lemma_took_types(
    a: Callbacks,
    chunks: Seq<(u8, Seq<u8>)>,
    answers: Seq<Answer>,
    b: Callbacks,
)
    requires
        took(a, chunks, answers, b),
    ensures
        same_types(a, b),
    decreases chunks.len(),
{
    reveal(took);
    if chunks.len() > 0 {
        let m = choose|m: Callbacks|
            #![trigger called(m, chunks.last(), answers.last(), b)]
            took(a, chunks.drop_last(), answers.drop_last(), m) && called(
                m,
                chunks.last(),
                answers.last(),
                b,
            );
        lemma_took_types(a, chunks.drop_last(), answers.drop_last(), m);
    }
}

/// At first nothing was called.
pub proof fn lemma_took_none(a: Callbacks)
    ensures
        took(a, Seq::empty(), Seq::empty(), a),
{
    reveal(took);
}

/// One more call.
pub proof fn lemma_took_push(
    a: Callbacks,
    chunks: Seq<(u8, Seq<u8>)>,
    answers: Seq<Answer>,
    m: Callbacks,
    c: (u8, Seq<u8>),
    x: Answer,
    b: Callbacks,
)
    requires
        took(a, chunks, answers, m),
        called(m, c, x, b),
    ensures
        took(a, chunks.push(c), answers.push(x), b),
{
    reveal(took);
    assert(chunks.push(c).drop_last() =~= chunks);
    assert(answers.push(x).drop_last() =~= answers);
    assert(called(m, chunks.push(c).last(), answers.push(x).last(), b));
}

/// Each chunk was given to the callback for its type, which was then as the chunks before
/// had left it, and gave the answer.
pub proof fn law_each_called(
    a: Callbacks,
    chunks: Seq<(u8, Seq<u8>)>,
    answers: Seq<Answer>,
    b: Callbacks,
    i: int,
)
    requires
        took(a, chunks, answers, b),
        0 <= i < chunks.len(),
    ensures
        exists|m: Callbacks, n: Callbacks|
            took(a, chunks.take(i), answers.take(i), m) && #[trigger] called(
                m,
                chunks[i],
                answers[i],
                n,
            ) && took(a, chunks.take(i + 1), answers.take(i + 1), n),
    decreases chunks.len(),
{
    reveal(took);
    let before = chunks.drop_last();
    let said = answers.drop_last();
    let m = choose|m: Callbacks|
        #![trigger called(m, chunks.last(), answers.last(), b)]
        took(a, before, said, m) && called(m, chunks.last(), answers.last(), b);
    if i == chunks.len() - 1 {
        assert(chunks.take(i) =~= before);
        assert(answers.take(i) =~= said);
        assert(chunks.take(i + 1) =~= chunks);
        assert(answers.take(i + 1) =~= answers);
        assert(called(m, chunks[i], answers[i], b));
    } else {
        law_each_called(a, before, said, m, i);
        assert(before.take(i) =~= chunks.take(i));
        assert(said.take(i) =~= answers.take(i));
        assert(before.take(i + 1) =~= chunks.take(i + 1));
        assert(said.take(i + 1) =~= answers.take(i + 1));
        assert(before[i] == chunks[i] && said[i] == answers[i]);
    }
}

/// The first of the answers; where there are none, a chunk is accepted.
pub open spec fn first_answer(a: Seq<Answer>) -> Answer {
    if a.len() == 0 {
        Ok(())
    } else {
        a[0]
    }
}

/// The answers behind the first one.
pub open spec fn later_answers(a: Seq<Answer>) -> Seq<Answer> {
    if a.len() == 0 {
        a
    } else {
        a.skip(1)
    }
}

/// No chunk is refused.
pub open spec fn accepting(a: Seq<Answer>) -> bool {
    forall|i: int| 0 <= i < a.len() ==> #[trigger] a[i] == Ok::<(), Error>(())
}

/// None of the first `n` chunks is refused.
pub open spec fn accepting_first(a: Seq<Answer>, n: int) -> bool {
    forall|i: int| 0 <= i < a.len() && i < n ==> #[trigger] a[i] == Ok::<(), Error>(())
}

/// How many types of user chunks there are.
pub const USER_CB_COUNT: usize = 126;

/// Options of a reader.
pub struct Options {
    /// Largest block that is accepted.
    pub max_block_size: usize,
    /// Whether the chunk that starts a stream may be missing.
    pub ignore_stream_id: bool,
    /// Whether checksums are left unchecked.
    pub ignore_crc: bool,
    /// The callbacks for user chunks, by type.
    pub callbacks: Vec<Option<UserChunkCb>>,
}

/// The options as plain values, with what the callback answers to the next user chunk.
#[verifier::ext_equal]
pub struct OptionsView {
    /// Largest block that is accepted.
    pub max_block_size: usize,
    /// Whether the chunk that starts a stream may be missing.
    pub ignore_stream_id: bool,
    /// Whether checksums are left unchecked.
    pub ignore_crc: bool,
    /// The callbacks for user chunks, by type.
    pub callbacks: Callbacks,
    /// What the callback answers to the next one.
    pub answer: Answer,
}

impl View for Options {
    type V = OptionsView;

    open spec fn view(&self) -> OptionsView {
        OptionsView {
            max_block_size: self.max_block_size,
            ignore_stream_id: self.ignore_stream_id,
            ignore_crc: self.ignore_crc,
            callbacks: self.callbacks@,
            answer: Ok(()),
        }
    }
}

impl OptionsView {
    /// The options are in range.
    pub open spec fn wf(self) -> bool {
        &&& 0 < self.max_block_size <= MAX_BLOCK_SIZE
        &&& self.callbacks.len() == USER_CB_COUNT
    }

    /// Whether there is a callback for user chunks of type `id`.
    pub open spec fn callback(self, id: u8) -> bool {
        self.callbacks[id - MIN_USER_SKIPPABLE_CHUNK] is Some
    }

    /// The options with other callbacks.
    pub open spec fn having(self, cbs: Callbacks) -> OptionsView {
        OptionsView { callbacks: cbs, ..self }
    }

    /// The options where a callback answers `x`.
    pub open spec fn answering(self, x: Answer) -> OptionsView {
        OptionsView { answer: x, ..self }
    }
}

/// What is known of a stream between two of its chunks.
#[derive(Debug, Clone, Copy, PartialEq, Eq, Structural)]
pub struct Progress {
    /// Largest block that the stream may hold.
    pub max_block: usize,
    /// Whether the chunk that starts the stream was seen.
    pub header_read: bool,
    /// Whether the chunk that ends the stream is still to come.
    pub expect_eof: bool,
    /// Uncompressed bytes of the stream so far.
    pub total: u64,
}

impl Progress {
    /// The largest block is in range.
    pub open spec fn wf(self) -> bool {
        0 < self.max_block <= MAX_BLOCK_SIZE
    }
}

/// The state before the first chunk.
pub open spec fn at_start(o: OptionsView) -> Progress {
    Progress {
        max_block: o.max_block_size,
        header_read: o.ignore_stream_id,
        expect_eof: false,
        total: 0,
    }
}

/// Returns the state before the first chunk.
pub fn start(o: &Options) -> (p: Progress)
    ensures
        p == at_start(o@),
{
    Progress {
        max_block: o.max_block_size,
        header_read: o.ignore_stream_id,
        expect_eof: false,
        total: 0,
    }
}

/// How a chunk is to be handled.
#[derive(Debug, Clone, Copy, PartialEq, Eq, Structural)]
pub enum Plan {
    /// Decode a compressed block.
    Compressed,
    /// Take a block as it is.
    Uncompressed,
    /// End the stream.
    End,
    /// Start a stream.
    Start,
    /// Hand a user chunk out.
    User,
    /// Leave it out.
    Skip,
}

/// What a chunk turned out to be.
#[verifier::ext_equal]
pub enum ItemView {
    /// A block of data.
    Data(Seq<u8>),
    /// The start of a stream.
    Start,
    /// The end of a stream.
    End,
    /// A user chunk.
    User(u8, Seq<u8>),
    /// A chunk without a meaning here.
    Skipped,
}

/// What a chunk turned out to be.
#[derive(Debug)]
pub enum Item {
    /// A block of data.
    Data(Vec<u8>),
    /// The start of a stream.
    Start,
    /// The end of a stream.
    End,
    /// A user chunk: its type and its payload.
    User(u8, Vec<u8>),
    /// A chunk without a meaning here: padding, an index, or reserved.
    Skipped,
}

impl View for Item {
    type V = ItemView;

    open spec fn view(&self) -> ItemView {
        match self {
            Item::Data(b) => ItemView::Data(b@),
            Item::Start => ItemView::Start,
            Item::End => ItemView::End,
            Item::User(id, b) => ItemView::User(*id, b@),
            Item::Skipped => ItemView::Skipped,
        }
    }
}

/// The most bytes that the body of a compressed data chunk may have; where workers
/// decode, that of any data chunk.
pub open spec fn max_body(max_block: int) -> int {
    max_block + 6
}

/// Whether `kind` is the type of a compressed data chunk.
pub open spec fn is_compressed(kind: u8) -> bool {
    kind == CHUNK_TYPE_MINLZ_COMPRESSED_DATA || kind == CHUNK_TYPE_MINLZ_COMPRESSED_DATA_COMP_CRC
}

/// Whether `kind` is the type of a user chunk.
pub open spec fn is_user(kind: u8) -> bool {
    MIN_USER_SKIPPABLE_CHUNK <= kind <= MAX_USER_NON_SKIPPABLE_CHUNK
}

/// How a chunk of type `kind` with a body of `len` bytes is handled. A reader that
/// hands blocks to workers (`concurrent`) names some errors otherwise.
pub open spec fn planned(o: OptionsView, p: Progress, concurrent: bool, kind: u8, len: int)
    -> Result<Plan, Error> {
    if !p.header_read && kind != CHUNK_TYPE_STREAM_IDENTIFIER && kind <= MAX_NON_SKIPPABLE_CHUNK
        && kind != CHUNK_TYPE_EOF {
        Err(Error::Corrupt)
    } else if is_compressed(kind) || kind == CHUNK_TYPE_UNCOMPRESSED_DATA {
        if len < 4 {
            Err(
                if concurrent {
                    Error::Unsupported
                } else {
                    Error::Corrupt
                },
            )
        } else if (is_compressed(kind) || concurrent) && len > max_body(p.max_block as int) {
            Err(Error::Corrupt)
        } else if is_compressed(kind) {
            Ok(Plan::Compressed)
        } else if len - 4 > p.max_block {
            Err(Error::TooLarge)
        } else {
            Ok(Plan::Uncompressed)
        }
    } else if kind == CHUNK_TYPE_EOF {
        if len > 10 {
            Err(Error::Corrupt)
        } else {
            Ok(Plan::End)
        }
    } else if kind == CHUNK_TYPE_STREAM_IDENTIFIER {
        if len != 6 {
            Err(Error::Corrupt)
        } else {
            Ok(Plan::Start)
        }
    } else if kind <= MAX_NON_SKIPPABLE_CHUNK {
        Err(Error::Unsupported)
    } else if is_user(kind) && o.callback(kind) {
        Ok(Plan::User)
    } else if is_user(kind) && kind >= MIN_USER_NON_SKIPPABLE_CHUNK {
        Err(Error::Corrupt)
    } else {
        Ok(Plan::Skip)
    }
}

/// Whether a chunk of type `kind` with a body of `len` bytes can be handled so.
pub open spec fn suits(plan: Plan, kind: u8, len: int) -> bool {
    match plan {
        Plan::Compressed | Plan::Uncompressed => len >= 4,
        Plan::Start => len == 6,
        Plan::User => is_user(kind),
        Plan::End | Plan::Skip => true,
    }
}

/// Decides from its type and length how a chunk is handled.
pub fn plan_chunk(o: &Options, p: &Progress, concurrent: bool, kind: u8, len: usize) -> (r: Result<
    Plan,
    Error,
>)
    requires
        o@.wf(),
        p.wf(),
    ensures
        r == planned(o@, *p, concurrent, kind, len as int),
        r is Ok ==> suits(r->Ok_0, kind, len as int),
{
    if !p.header_read && kind != CHUNK_TYPE_STREAM_IDENTIFIER && kind <= MAX_NON_SKIPPABLE_CHUNK
        && kind != CHUNK_TYPE_EOF {
        return Err(Error::Corrupt);
    }
    let compressed: bool = kind == CHUNK_TYPE_MINLZ_COMPRESSED_DATA || kind
        == CHUNK_TYPE_MINLZ_COMPRESSED_DATA_COMP_CRC;
    if compressed || kind == CHUNK_TYPE_UNCOMPRESSED_DATA {
        if len < 4 {
            return Err(
                if concurrent {
                    Error::Unsupported
                } else {
                    Error::Corrupt
                },
            );
        }
        if (compressed || concurrent) && len > max_buf_size(p.max_block) {
            return Err(Error::Corrupt);
        }
        if compressed {
            return Ok(Plan::Compressed);
        }
        if len - 4 > p.max_block {
            return Err(Error::TooLarge);
        }
        return Ok(Plan::Uncompressed);
    }
    if kind == CHUNK_TYPE_EOF {
        return if len > 10 {
            Err(Error::Corrupt)
        } else {
            Ok(Plan::End)
        };
    }
    if kind == CHUNK_TYPE_STREAM_IDENTIFIER {
        return if len != 6 {
            Err(Error::Corrupt)
        } else {
            Ok(Plan::Start)
        };
    }
    if kind <= MAX_NON_SKIPPABLE_CHUNK {
        return Err(Error::Unsupported);
    }
    if kind >= MIN_USER_SKIPPABLE_CHUNK && kind <= MAX_USER_NON_SKIPPABLE_CHUNK {
        if o.callbacks[(kind - MIN_USER_SKIPPABLE_CHUNK) as usize].is_some() {
            return Ok(Plan::User);
        }
        if kind >= MIN_USER_NON_SKIPPABLE_CHUNK {
            return Err(Error::Corrupt);
        }
    }
    Ok(Plan::Skip)
}

/// The most bytes that the body of a compressed data chunk may have: a block that
/// is stored as it is, and its checksum.
fn max_buf_size(max_block: usize) -> (r: usize)
    requires
        0 < max_block <= MAX_BLOCK_SIZE,
    ensures
        r == max_body(max_block as int),
{
    match max_encoded_len(max_block) {
        Some(n) => n + 4,
        None => MAX_BLOCK_SIZE + 4,
    }
}

/// What the checksum of a compressed data chunk covers: the data, or the
/// compressed bytes behind the length.
pub open spec fn covered(kind: u8, chunk: Seq<u8>, out: Seq<u8>) -> Seq<u8> {
    if kind == CHUNK_TYPE_MINLZ_COMPRESSED_DATA_COMP_CRC {
        match block::chunk_header_of(chunk) {
            Ok((_, at)) => chunk.skip(at),
            Err(_) => chunk,
        }
    } else {
        out
    }
}

/// The data of a compressed data chunk, without its checksum `sum`.
pub open spec fn unpacked(ignore_crc: bool, max_block: int, kind: u8, sum: u32, chunk: Seq<u8>)
    -> Result<Seq<u8>, Error> {
    match block::chunk_decoded_len(chunk) {
        Err(e) => Err(Error::Block(e)),
        Ok(n) => if n > max_block {
            Err(Error::TooLarge)
        } else {
            match block::chunk_decoded(chunk) {
                Err(e) => Err(Error::Block(e)),
                Ok(out) => if !ignore_crc && crc::masked_crc_of(covered(kind, chunk, out))
                    != sum {
                    Err(Error::Crc)
                } else {
                    Ok(out)
                },
            }
        },
    }
}

/// The data of an uncompressed data chunk.
pub open spec fn stored(ignore_crc: bool, body: Seq<u8>) -> Result<Seq<u8>, Error> {
    if !ignore_crc && crc::masked_crc_of(body.skip(4)) != crc::word_of(body) {
        Err(Error::Crc)
    } else {
        Ok(body.skip(4))
    }
}

/// The sum modulo two to the power of sixty-four.
pub open spec fn wrapping(a: u64, n: int) -> u64 {
    ((a + n) % 0x1_0000_0000_0000_0000) as u64
}

/// What the chunk that ends a stream makes of the progress.
pub open spec fn ended(o: OptionsView, p: Progress, body: Seq<u8>) -> Result<Progress, Error> {
    let done = Progress { expect_eof: false, header_read: false, ..p };
    if body.len() == 0 || o.ignore_stream_id {
        Ok(done)
    } else {
        match block::format::parse_uvarint(body) {
            None => Err(Error::Corrupt),
            Some((want, n)) => if n != body.len() || want != p.total {
                Err(Error::Corrupt)
            } else {
                Ok(done)
            },
        }
    }
}

/// What the chunk that starts a stream makes of the progress.
pub open spec fn started(o: OptionsView, p: Progress, body: Seq<u8>) -> Result<Progress, Error> {
    if body.take(5) != layout::magic() {
        Err(Error::Unsupported)
    } else if body[5] >= 64 {
        Err(Error::Corrupt)
    } else {
        match layout::size_of_indicator(body[5]) {
            None => Err(Error::Corrupt),
            Some(n) => if n > o.max_block_size {
                Err(Error::TooLarge)
            } else {
                Ok(Progress { max_block: n as usize, header_read: true, expect_eof: true, total: 0 })
            },
        }
    }
}

/// What the body of a chunk gives: the progress after it, and what it was.
pub open spec fn finished(o: OptionsView, p: Progress, plan: Plan, kind: u8, body: Seq<u8>)
    -> Result<(Progress, ItemView), Error> {
    match plan {
        Plan::Compressed => match unpacked(
            o.ignore_crc,
            p.max_block as int,
            kind,
            crc::word_of(body),
            body.skip(4),
        ) {
            Err(e) => Err(e),
            Ok(out) => Ok(
                (
                    Progress { total: wrapping(p.total, out.len() as int), ..p },
                    ItemView::Data(out),
                ),
            ),
        },
        Plan::Uncompressed => match stored(o.ignore_crc, body) {
            Err(e) => Err(e),
            Ok(out) => Ok(
                (
                    Progress { total: wrapping(p.total, out.len() as int), ..p },
                    ItemView::Data(out),
                ),
            ),
        },
        Plan::End => match ended(o, p, body) {
            Err(e) => Err(e),
            Ok(p2) => Ok((p2, ItemView::End)),
        },
        Plan::Start => match started(o, p, body) {
            Err(e) => Err(e),
            Ok(p2) => Ok((p2, ItemView::Start)),
        },
        Plan::User => Ok((p, ItemView::User(kind, body))),
        Plan::Skip => Ok((p, ItemView::Skipped)),
    }
}

/// Decodes the body of a compressed data chunk, without its checksum `sum`.
pub fn unpack(
    sums: &Crc32c,
    ignore_crc: bool,
    max_block: usize,
    kind: u8,
    sum: u32,
    chunk: &[u8],
) -> (r: Result<Vec<u8>, Error>)
    ensures
        (match unpacked(ignore_crc, max_block as int, kind, sum, chunk@) {
            Ok(out) => r is Ok && (r->Ok_0)@ == out,
            Err(e) => r == Err::<Vec<u8>, Error>(e),
        }),
{
    match decoded_len_chunk_body(chunk) {
        Err(e) => {
            return Err(Error::Block(e));
        },
        Ok(n) => {
            if n > max_block {
                return Err(Error::TooLarge);
            }
        },
    }
    let mut out: Vec<u8> = Vec::new();
    match append_decoded_chunk_body(&mut out, chunk) {
        Err(e) => {
            return Err(Error::Block(e));
        },
        Ok(()) => {},
    }
    assert(out@ =~= block::chunk_decoded(chunk@)->Ok_0);
    if !ignore_crc {
        let have: u32 = if kind == CHUNK_TYPE_MINLZ_COMPRESSED_DATA_COMP_CRC {
            sums.masked_crc32c(strip_dlen_varint(chunk))
        } else {
            sums.masked_crc32c(out.as_slice())
        };
        if have != sum {
            return Err(Error::Crc);
        }
    }
    Ok(out)
}

/// The compressed bytes of a chunk body, behind the length.
fn strip_dlen_varint(chunk: &[u8]) -> (r: &[u8])
    requires
        block::chunk_header_of(chunk@) is Ok,
    ensures
        r@ == covered(CHUNK_TYPE_MINLZ_COMPRESSED_DATA_COMP_CRC, chunk@, chunk@),
{
    match get_uvarint(chunk) {
        Some((_, n)) => {
            let r: &[u8] = slice_subrange(chunk, n, chunk.len());
            assert(r@ =~= chunk@.skip(n as int));
            r
        },
        None => chunk,
    }
}

/// Takes the data of an uncompressed data chunk.
fn take_stored(sums: &Crc32c, ignore_crc: bool, body: &[u8]) -> (r: Result<Vec<u8>, Error>)
    requires
        body.len() >= 4,
    ensures
        (match stored(ignore_crc, body@) {
            Ok(out) => r is Ok && (r->Ok_0)@ == out,
            Err(e) => r == Err::<Vec<u8>, Error>(e),
        }),
{
    let mut out: Vec<u8> = Vec::new();
    append_range(&mut out, body, 4, body.len() - 4);
    assert(out@ =~= body@.skip(4));
    if !ignore_crc && sums.masked_crc32c(out.as_slice()) != load32(body, 0) {
        return Err(Error::Crc);
    }
    Ok(out)
}

/// Takes the body of the chunk that ends a stream.
fn end_stream(o: &Options, p: &Progress, body: &[u8]) -> (r: Result<Progress, Error>)
    ensures
        r == ended(o@, *p, body@),
{
    if body.len() != 0 && !o.ignore_stream_id {
        match get_uvarint(body) {
            None => {
                return Err(Error::Corrupt);
            },
            Some((want, n)) => {
                if n != body.len() || want != p.total {
                    return Err(Error::Corrupt);
                }
            },
        }
    }
    Ok(Progress { expect_eof: false, header_read: false, ..*p })
}

/// Takes the body of the chunk that starts a stream.
fn start_stream(o: &Options, p: &Progress, body: &[u8]) -> (r: Result<Progress, Error>)
    requires
        o@.wf(),
        body.len() == 6,
    ensures
        r == started(o@, *p, body@),
        r is Ok ==> (r->Ok_0).wf(),
{
    let known: bool = body[0] == 0x4d && body[1] == 0x69 && body[2] == 0x6e && body[3] == 0x4c
        && body[4] == 0x7a;
    proof {
        let b = body@.take(5);
        if known {
            assert(b =~= layout::magic());
        } else if b == layout::magic() {
            assert(b[0] == body@[0] && b[1] == body@[1] && b[2] == body@[2] && b[3] == body@[3]
                && b[4] == body@[4]);
        }
    }
    if !known {
        return Err(Error::Unsupported);
    }
    if body[5] >= 64 {
        return Err(Error::Corrupt);
    }
    match block_size_from_indicator(body[5]) {
        None => Err(Error::Corrupt),
        Some(n) => {
            if n > o.max_block_size {
                Err(Error::TooLarge)
            } else {
                Ok(Progress { max_block: n, header_read: true, expect_eof: true, total: 0 })
            }
        },
    }
}

/// Takes the body of a data chunk: the data.
fn take_data(
    o: &Options,
    p: &Progress,
    sums: &Crc32c,
    plan: Plan,
    kind: u8,
    body: &[u8],
) -> (r: Result<Vec<u8>, Error>)
    requires
        plan is Compressed || plan is Uncompressed,
        body.len() >= 4,
    ensures
        (match finished(o@, *p, plan, kind, body@) {
            Ok((p2, item)) => {
                &&& r is Ok
                &&& item == ItemView::Data((r->Ok_0)@)
                &&& p2 == (Progress {
                    total: wrapping(p.total, (r->Ok_0)@.len() as int),
                    ..*p
                })
            },
            Err(e) => r == Err::<Vec<u8>, Error>(e),
        }),
{
    if let Plan::Compressed = plan {
        let chunk: &[u8] = slice_subrange(body, 4, body.len());
        assert(chunk@ =~= body@.skip(4));
        unpack(sums, o.ignore_crc, p.max_block, kind, load32(body, 0), chunk)
    } else {
        take_stored(sums, o.ignore_crc, body)
    }
}

/// Takes the body of a chunk: moves the progress on and says what the chunk was. On
/// an error the progress stays as it is.
pub fn finish_chunk(
    o: &Options,
    p: &mut Progress,
    sums: &Crc32c,
    plan: Plan,
    kind: u8,
    body: &[u8],
) -> (r: Result<Item, Error>)
    requires
        o@.wf(),
        old(p).wf(),
        suits(plan, kind, body.len() as int),
    ensures
        final(p).wf(),
        (match finished(o@, *old(p), plan, kind, body@) {
            Ok((p2, item)) => r is Ok && (r->Ok_0)@ == item && *final(p) == p2,
            Err(e) => r == Err::<Item, Error>(e) && *final(p) == *old(p),
        }),
{
    match plan {
        Plan::Compressed | Plan::Uncompressed => {
            match take_data(o, p, sums, plan, kind, body) {
                Err(e) => Err(e),
                Ok(out) => {
                    p.total = p.total.wrapping_add(out.len() as u64);
                    Ok(Item::Data(out))
                },
            }
        },
        Plan::End => {
            match end_stream(o, p, body) {
                Err(e) => Err(e),
                Ok(p2) => {
                    *p = p2;
                    Ok(Item::End)
                },
            }
        },
        Plan::Start => {
            match start_stream(o, p, body) {
                Err(e) => Err(e),
                Ok(p2) => {
                    *p = p2;
                    Ok(Item::Start)
                },
            }
        },
        Plan::User => {
            let mut out: Vec<u8> = Vec::new();
            append_range(&mut out, body, 0, body.len());
            assert(out@ =~= body@);
            Ok(Item::User(kind, out))
        },
        Plan::Skip => Ok(Item::Skipped),
    }
}

/// Hands a user chunk to the callback for its type, and returns what it answers. Without
/// one, the chunk is accepted.
pub fn ask(o: &mut Options, id: u8, payload: &[u8]) -> (r: Answer)
    requires
        old(o)@.wf(),
        is_user(id),
    ensures
        final(o)@ == old(o)@.having(final(o)@.callbacks),
        old(o)@.callback(id) ==> called(
            old(o)@.callbacks,
            (id, payload@),
            r,
            final(o)@.callbacks,
        ),
        !old(o)@.callback(id) ==> r is Ok && final(o)@ == old(o)@,
{
    let i: usize = (id - MIN_USER_SKIPPABLE_CHUNK) as usize;
    let r = match &mut o.callbacks[i] {
        None => Ok(()),
        Some(cb) => cb.user_chunk(id, payload),
    };
    if let Ok(()) = r {
        assert(!old(o)@.callback(id) ==> o.callbacks@ =~= old(o).callbacks@);
    }
    r
}

} // verus!
