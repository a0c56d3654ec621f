//! Random access to a stream by its index.
use crate::index;
use crate::index::parse;
use crate::index::wire;
use crate::index::wire::is_header_at;
use crate::index::{
    restore_index_headers, Index, IndexView, CHUNK_TYPE_INDEX, LEGACY_INDEX_CHUNK,
};
use crate::error::ErrorKind;
use crate::stream::chunk;
use crate::stream::chunk::{Answer, Callbacks};
use crate::stream::error::Error;
use crate::stream::reader;
use crate::stream::reader::{Reader, ReaderView};
use vstd::prelude::*;

verus! {

/// Where to go in the uncompressed stream.
#[derive(Debug, Clone, Copy, PartialEq, Eq, Structural)]
pub enum SeekFrom {
    /// So far from the start.
    Start(u64),
    /// So far from the end.
    End(i64),
    /// So far from the next byte that is read.
    Current(i64),
}

/// Whether `b` is a whole index chunk, by its type and its header.
pub open spec fn is_full_index(b: Seq<u8>) -> bool {
    &&& b.len() >= 10
    &&& b[0] == CHUNK_TYPE_INDEX || b[0] == LEGACY_INDEX_CHUNK
    &&& b.subrange(4, 10) == wire::index_header()
}

/// The index that `b` stands for: a whole chunk, the payload alone, or, where it is
/// empty, what the stream ends in.
pub open spec fn index_from(b: Seq<u8>, source: Seq<u8>) -> Result<IndexView, index::Error> {
    if b.len() == 0 {
        index::index_at_end(source)
    } else {
        let c = if is_full_index(b) {
            b
        } else {
            wire::index_chunk(b)
        };
        match parse::parse_index(c) {
            Ok((v, _)) => Ok(v),
            Err(e) => Err(e),
        }
    }
}

/// The offset that is meant, or why there is none.
pub open spec fn target(v: ReaderView, idx: IndexView, pos: SeekFrom) -> Result<u64, Error> {
    let t = match pos {
        SeekFrom::Start(o) => signed(o),
        SeekFrom::Current(d) => signed(chunk::wrapping(v.block_start, v.pos)) + d,
        SeekFrom::End(d) => match idx.total_uncompressed {
            Some(total) => signed(total) + d,
            None => 0,
        },
    };
    if pos is End && idx.total_uncompressed is None {
        Err(Error::NoSeek("seek from end requires known total_uncompressed"))
    } else if t < i64::MIN || t > i64::MAX {
        Err(Error::InvalidInput("seek overflow"))
    } else if t < 0 {
        Err(Error::InvalidInput("seek before start of file"))
    } else {
        Ok(t as u64)
    }
}

/// A 64-bit number taken for a signed one.
pub open spec fn signed(x: u64) -> int {
    if x > i64::MAX {
        x - 0x1_0000_0000_0000_0000
    } else {
        x as int
    }
}

/// The reader that has seen the start of the stream.
pub open spec fn primed(v: ReaderView) -> (ReaderView, Option<Error>) {
    if v.progress.header_read {
        (v, None)
    } else {
        let (u, f) = reader::filled(ReaderView { at: 0, ..v });
        (
            u,
            match f {
                Ok(_) => None,
                Err(e) => Some(e),
            },
        )
    }
}

/// The reader at `offset`: within the current block, or from the entry of the index
/// before it.
pub open spec fn located(v: ReaderView, idx: IndexView, offset: u64) -> (ReaderView, Option<Error>) {
    if v.block_start <= offset < v.block_start + v.block.len() {
        (ReaderView { pos: offset - v.block_start, ..v }, None)
    } else {
        let e = index::entry_before(idx.offsets, offset as int);
        reader::skipped(
            reader::jumped(v, e.compressed as int, e.uncompressed),
            offset - e.uncompressed,
        )
    }
}

/// What a seek makes of the reader.
pub open spec fn sought(v: ReaderView, idx: IndexView, pos: SeekFrom) -> (
    ReaderView,
    Result<u64, Error>,
) {
    match v.err {
        Some(e) if e.kind_of() != ErrorKind::UnexpectedEof => (v, Err(e)),
        _ => {
            let r = ReaderView { err: None, ..v };
            match target(r, idx, pos) {
                Err(e) => (r, Err(e)),
                Ok(offset) => match primed(r) {
                    (p, Some(e)) => (p, Err(e)),
                    (p, None) => match located(p, idx, offset) {
                        (q, Some(e)) => (q, Err(e)),
                        (q, None) => (q, Ok(offset)),
                    },
                },
            }
        },
    }
}

/// A reader with random access to its stream.
pub struct ReadSeeker {
    reader: Reader,
    index: Index,
}

/// Whether `b` is a whole index chunk rather than its payload.
fn looks_like_full_index_chunk(b: &[u8]) -> (r: bool)
    ensures
        r == is_full_index(b@),
{
    if b.len() < 10 {
        return false;
    }
    if b[0] != CHUNK_TYPE_INDEX && b[0] != LEGACY_INDEX_CHUNK {
        return false;
    }
    is_header_at(b, 4)
}

impl ReadSeeker {
    /// The reader.
    pub closed spec fn reader(&self) -> ReaderView {
        self.reader@
    }

    /// The index.
    pub closed spec fn index_view(&self) -> IndexView {
        self.index@
    }

    /// The reader and the index are in order. The callbacks were called with the user chunks
    /// that came up, and gave the answers.
    pub open spec fn wf(&self) -> bool {
        &&& self.reader().wf()
        &&& self.reader().settled()
        &&& chunk::took(
            self.reader().options.callbacks,
            self.reader().chunks,
            self.reader().answers,
            self.callbacks(),
        )
        &&& self.index_view().wf()
    }

    /// The callbacks as they are now.
    pub closed spec fn callbacks(&self) -> Callbacks {
        self.reader.callbacks()
    }

    /// Makes a reader with random access from `reader`. The index is a whole index
    /// chunk, its payload alone, or, where `index_bytes` is empty, what the stream
    /// ends in.
    pub fn new(reader: Reader, index_bytes: &[u8]) -> (r: Result<Self, Error>)
        requires
            reader.wf(),
            index_bytes.len() + 20 <= usize::MAX,
        ensures
            (match index_from(index_bytes@, reader@.source) {
                Ok(v) => {
                    &&& r is Ok
                    &&& (r->Ok_0).wf()
                    &&& (r->Ok_0).reader() == reader@
                    &&& (r->Ok_0).callbacks() == reader.callbacks()
                    &&& (r->Ok_0).index_view() == v
                },
                Err(e) => r == Err::<Self, Error>(Error::Index(e)),
            }),
    {
        let mut index: Index = Index::new();
        if index_bytes.len() == 0 {
            return match index.load_stream(reader.source()) {
                Err(e) => Err(Error::Index(e)),
                Ok(()) => Ok(ReadSeeker { reader, index }),
            };
        }
        if looks_like_full_index_chunk(index_bytes) {
            return match index.load(index_bytes) {
                Err(e) => Err(Error::Index(e)),
                Ok(_) => Ok(ReadSeeker { reader, index }),
            };
        }
        let restored: Vec<u8> = restore_index_headers(index_bytes);
        match index.load(restored.as_slice()) {
            Err(e) => Err(Error::Index(e)),
            Ok(_) => Ok(ReadSeeker { reader, index }),
        }
    }

    /// Returns the index.
    pub fn index(&self) -> (r: &Index)
        ensures
            r@ == self.index_view(),
    {
        &self.index
    }

    fn target(&self, pos: SeekFrom) -> (r: Result<u64, Error>)
        ensures
            r == target(self.reader(), self.index_view(), pos),
    {
        let t: i128 = match pos {
            SeekFrom::Start(o) => to_signed(o),
            SeekFrom::Current(d) => to_signed(self.reader.current_offset()) + d as i128,
            SeekFrom::End(d) => match self.index.total_uncompressed() {
                Some(total) => to_signed(total) + d as i128,
                None => {
                    return Err(Error::NoSeek("seek from end requires known total_uncompressed"));
                },
            },
        };
        if t < i64::MIN as i128 || t > i64::MAX as i128 {
            return Err(Error::InvalidInput("seek overflow"));
        }
        if t < 0 {
            return Err(Error::InvalidInput("seek before start of file"));
        }
        Ok(t as u64)
    }

    /// Goes to an offset in the uncompressed stream, and returns it. A stream that ends
    /// before it is an error, after which another seek may follow.
    pub fn seek_uncompressed(&mut self, pos: SeekFrom) -> (r: Result<u64, Error>)
        requires
            old(self).wf(),
        ensures
            final(self).wf(),
            final(self).index_view() == old(self).index_view(),
            old(self).reader().answers.is_prefix_of(final(self).reader().answers),
            (final(self).reader(), r) == sought(
                old(self).reader().told(final(self).reader().answers),
                old(self).index_view(),
                pos,
            ),
            r is Ok ==> final(self).reader().err is None,
    {
        let ghost v = self.reader@;
        if let Some(e) = self.reader.error() {
            match e.kind() {
                ErrorKind::UnexpectedEof => {
                    self.reader.clear_error();
                },
                _ => {
                    return Err(e);
                },
            }
        }
        assert(self.reader@ =~= ReaderView { err: None, ..v });
        let offset: u64 = match self.target(pos) {
            Err(e) => {
                return Err(e);
            },
            Ok(o) => o,
        };
        let ghost r0 = self.reader@;
        let primed = self.prime();
        let ghost p = self.reader@;
        assert(ReaderView { err: None, ..v.told(p.answers) } =~= r0.told(p.answers));
        if let Err(e) = primed {
            return Err(e);
        }
        let located = self.locate(offset);
        proof {
            let a = self.reader@.answers;
            lemma_primed_told(r0, p.answers, a);
            assert(ReaderView { err: None, ..v.told(a) } =~= r0.told(a));
        }
        match located {
            Err(e) => Err(e),
            Ok(()) => Ok(offset),
        }
    }

    /// Reads the start of the stream, where it was not seen.
    fn prime(&mut self) -> (r: Result<(), Error>)
        requires
            old(self).wf(),
            old(self).reader().err is None,
        ensures
            final(self).wf(),
            final(self).index_view() == old(self).index_view(),
            old(self).reader().answers.is_prefix_of(final(self).reader().answers),
            r is Ok ==> final(self).reader().err is None,
            (match primed(old(self).reader().told(final(self).reader().answers)) {
                (p, Some(e)) => r == Err::<(), Error>(e) && final(self).reader() == p,
                (p, None) => r is Ok && final(self).reader() == p,
            }),
    {
        let ghost v = self.reader@;
        assert(v.told(v.answers) =~= v);
        if self.reader.header_read() {
            return Ok(());
        }
        self.reader.rewind();
        let ghost z = self.reader@;
        let r: Result<(), Error> = match self.reader.fill_buf() {
            Err(e) => Err(e),
            Ok(_) => Ok(()),
        };
        proof {
            let a = self.reader@.answers;
            assert(z.told(a) =~= ReaderView { at: 0, ..v.told(a) });
            reader::lemma_filled_moves(z.told(a));
        }
        r
    }

    /// Goes to `offset`: within the current block, or from the entry of the index before
    /// it.
    fn locate(&mut self, offset: u64) -> (r: Result<(), Error>)
        requires
            old(self).wf(),
            old(self).reader().err is None,
        ensures
            final(self).wf(),
            final(self).index_view() == old(self).index_view(),
            old(self).reader().answers.is_prefix_of(final(self).reader().answers),
            r is Ok ==> final(self).reader().err is None,
            (match located(
                old(self).reader().told(final(self).reader().answers),
                old(self).index_view(),
                offset,
            ) {
                (q, Some(e)) => r == Err::<(), Error>(e) && final(self).reader() == q,
                (q, None) => r is Ok && final(self).reader() == q,
            }),
    {
        let ghost v = self.reader@;
        assert(v.told(v.answers) =~= v);
        if self.reader.move_in_block(offset) {
            return Ok(());
        }
        let entry = self.index.find(offset);
        proof {
            index::law_entry_before(self.index@.offsets, offset as int);
        }
        self.reader.jump(entry.compressed, entry.uncompressed);
        let ghost x = self.reader@;
        let r: Result<(), Error> = if entry.uncompressed < offset {
            self.reader.skip(offset - entry.uncompressed)
        } else {
            Ok(())
        };
        proof {
            let a = self.reader@.answers;
            assert(x.told(x.answers) =~= x);
            assert(x.told(a) =~= reader::jumped(
                v.told(a),
                entry.compressed as int,
                entry.uncompressed,
            ));
        }
        r
    }
}

/// Seeing the start of the stream does not depend on what callbacks answer later.
proof fn lemma_primed_told(v: ReaderView, a: Seq<Answer>, b: Seq<Answer>)
    requires
        v.wf(),
        a.is_prefix_of(b),
        primed(v.told(a)).0.chunks.len() <= a.len(),
    ensures
        primed(v.told(b)) == (primed(v.told(a)).0.told(b), primed(v.told(a)).1),
{
    if !v.progress.header_read {
        let z = ReaderView { at: 0, ..v };
        assert(ReaderView { at: 0, ..v.told(a) } =~= z.told(a));
        assert(ReaderView { at: 0, ..v.told(b) } =~= z.told(b));
        reader::lemma_filled_told(z, a, b);
    }
}

/// A seek does not depend on what callbacks answer later.
proof fn lemma_sought_told(
    v: ReaderView,
    idx: IndexView,
    pos: SeekFrom,
    a: Seq<Answer>,
    b: Seq<Answer>,
)
    requires
        v.wf(),
        a.is_prefix_of(b),
        sought(v.told(a), idx, pos).0.chunks.len() <= a.len(),
    ensures
        sought(v.told(b), idx, pos) == (
            sought(v.told(a), idx, pos).0.told(b),
            sought(v.told(a), idx, pos).1,
        ),
{
    let r = ReaderView { err: None, ..v };
    let ra = r.told(a);
    let rb = r.told(b);
    assert(ReaderView { err: None, ..v.told(a) } =~= ra);
    assert(ReaderView { err: None, ..v.told(b) } =~= rb);
    assert(target(ra, idx, pos) == target(rb, idx, pos));
    if !(v.err matches Some(e) && e.kind_of() != ErrorKind::UnexpectedEof) {
        if let Ok(offset) = target(ra, idx, pos) {
            let (m, e) = primed(ra);
            if !r.progress.header_read {
                reader::lemma_drained_filled(ReaderView { at: 0, ..ra });
                reader::lemma_filled_moves(ReaderView { at: 0, ..ra });
            }
            assert(m.told(a) =~= m);
            if e is None && !(m.block_start <= offset < m.block_start + m.block.len()) {
                let n = index::entry_before(idx.offsets, offset as int);
                let x = reader::jumped(m, n.compressed as int, n.uncompressed);
                assert(x.told(a) =~= x);
                assert(x.told(b) =~= reader::jumped(
                    m.told(b),
                    n.compressed as int,
                    n.uncompressed,
                ));
                reader::lemma_skipped_told(x, offset - n.uncompressed, a, b);
            }
            lemma_primed_told(r, a, b);
        }
    }
}

impl ReadSeeker {
    /// Goes to an offset in the uncompressed stream, and returns it.
    pub fn seek(&mut self, pos: SeekFrom) -> (r: Result<u64, Error>)
        requires
            old(self).wf(),
        ensures
            final(self).wf(),
            final(self).index_view() == old(self).index_view(),
            old(self).reader().answers.is_prefix_of(final(self).reader().answers),
            (final(self).reader(), r) == sought(
                old(self).reader().told(final(self).reader().answers),
                old(self).index_view(),
                pos,
            ),
    {
        self.seek_uncompressed(pos)
    }

    /// Reads data into `p`; returns how many bytes, zero at the end of the stream.
    pub fn read(&mut self, p: &mut [u8]) -> (r: Result<usize, Error>)
        requires
            old(self).wf(),
        ensures
            final(self).wf(),
            final(self).index_view() == old(self).index_view(),
            final(p)@.len() == old(p)@.len(),
            old(self).reader().answers.is_prefix_of(final(self).reader().answers),
            reader::read_some(
                old(self).reader().told(final(self).reader().answers),
                old(p)@,
                final(self).reader(),
                final(p)@,
                r,
            ),
    {
        self.reader.read(p)
    }

    /// Returns the data at hand, after reading more where there is none; nothing at the
    /// end of the stream.
    pub fn fill_buf(&mut self) -> (r: Result<&[u8], Error>)
        requires
            old(self).wf(),
        ensures
            final(self).wf(),
            final(self).index_view() == old(self).index_view(),
            old(self).reader().answers.is_prefix_of(final(self).reader().answers),
            (match old(self).reader().err {
                Some(e) => r == Err::<&[u8], Error>(e) && final(self).reader()
                    == old(self).reader(),
                None => {
                    let (u, f) = reader::filled(
                        old(self).reader().told(final(self).reader().answers),
                    );
                    &&& final(self).reader() == u
                    &&& match f {
                        Err(e) => r == Err::<&[u8], Error>(e),
                        Ok(_) => r is Ok && (r->Ok_0)@ == u.pending(),
                    }
                },
            }),
    {
        self.reader.fill_buf()
    }

    /// Counts `amt` bytes of the data at hand, or all there are, as read.
    pub fn consume(&mut self, amt: usize)
        requires
            old(self).wf(),
        ensures
            final(self).wf(),
            final(self).index_view() == old(self).index_view(),
            final(self).callbacks() == old(self).callbacks(),
            final(self).reader() == (ReaderView {
                pos: if amt < old(self).reader().pending().len() {
                    old(self).reader().pos + amt
                } else {
                    old(self).reader().block.len() as int
                },
                ..old(self).reader()
            }),
    {
        self.reader.consume(amt)
    }

    /// Reads exactly as many bytes as `p` holds.
    pub fn read_exact(&mut self, p: &mut [u8]) -> (r: Result<(), Error>)
        requires
            old(self).wf(),
        ensures
            final(self).wf(),
            final(self).index_view() == old(self).index_view(),
            final(p)@.len() == old(p)@.len(),
            old(self).reader().err is Some && old(p)@.len() > 0 ==> {
                &&& r == Err::<(), Error>(old(self).reader().err->0)
                &&& final(self).reader() == old(self).reader()
                &&& final(p)@ == old(p)@
            },
            old(self).reader().answers.is_prefix_of(final(self).reader().answers),
            old(self).reader().err is None || old(p)@.len() == 0 ==> {
                let v = old(self).reader().told(final(self).reader().answers);
                let d = reader::drained(v);
                let n = old(p)@.len() as int;
                &&& final(self).reader() == reader::taken(v, n)
                &&& n <= d.data.len() ==> r is Ok && final(p)@ == d.data.take(n)
                &&& n > d.data.len() ==> {
                    &&& r == Err::<(), Error>(
                        match d.err {
                            Some(e) => e,
                            None => Error::UnexpectedEof,
                        },
                    )
                    &&& final(p)@ == d.data + old(p)@.skip(d.data.len() as int)
                }
            },
    {
        self.reader.read_exact(p)
    }

    /// Reads data at `offset` into `p`, as much as there is; returns how many bytes. The
    /// reader then stands behind them.
    pub fn read_at(&mut self, p: &mut [u8], offset: u64) -> (r: Result<usize, Error>)
        requires
            old(self).wf(),
        ensures
            final(self).wf(),
            final(self).index_view() == old(self).index_view(),
            final(p)@.len() == old(p)@.len(),
            old(self).reader().answers.is_prefix_of(final(self).reader().answers),
            (match sought(
                old(self).reader().told(final(self).reader().answers),
                old(self).index_view(),
                SeekFrom::Start(offset),
            ) {
                (v, Err(e)) => {
                    &&& r == Err::<usize, Error>(e)
                    &&& final(self).reader() == v
                    &&& final(p)@ == old(p)@
                },
                (v, Ok(_)) => {
                    let d = reader::drained(v);
                    let n = old(p)@.len() as int;
                    &&& n <= d.data.len() ==> {
                        &&& r == Ok::<usize, Error>(n as usize)
                        &&& final(self).reader() == reader::taken(v, n)
                        &&& final(p)@ == d.data.take(n)
                    }
                    &&& n > d.data.len() ==> {
                        &&& final(self).reader() == d.reader
                        &&& final(p)@ == d.data + old(p)@.skip(d.data.len() as int)
                        &&& r == match d.err {
                            Some(e) => Err::<usize, Error>(e),
                            None => Ok::<usize, Error>(d.data.len() as usize),
                        }
                    }
                },
            }),
    {
        let ghost v = self.reader@;
        let ghost idx = self.index@;
        match self.seek_uncompressed(SeekFrom::Start(offset)) {
            Err(e) => {
                return Err(e);
            },
            Ok(_) => {},
        }
        let ghost u = self.reader@;
        let r = self.reader.read_full(p);
        proof {
            lemma_sought_told(v, idx, SeekFrom::Start(offset), u.answers, self.reader@.answers);
        }
        r
    }

    /// Reads exactly as many bytes at `offset` as `p` holds; fails where the stream
    /// ends before that.
    pub fn read_exact_at(&mut self, p: &mut [u8], offset: u64) -> (r: Result<(), Error>)
        requires
            old(self).wf(),
        ensures
            final(self).wf(),
            final(self).index_view() == old(self).index_view(),
            final(p)@.len() == old(p)@.len(),
            old(self).reader().answers.is_prefix_of(final(self).reader().answers),
            (match sought(
                old(self).reader().told(final(self).reader().answers),
                old(self).index_view(),
                SeekFrom::Start(offset),
            ) {
                (v, Err(e)) => {
                    &&& r == Err::<(), Error>(e)
                    &&& final(self).reader() == v
                    &&& final(p)@ == old(p)@
                },
                (v, Ok(_)) => {
                    let d = reader::drained(v);
                    let n = old(p)@.len() as int;
                    &&& n <= d.data.len() ==> {
                        &&& r is Ok
                        &&& final(self).reader() == reader::taken(v, n)
                        &&& final(p)@ == d.data.take(n)
                    }
                    &&& n > d.data.len() ==> {
                        &&& final(self).reader() == d.reader
                        &&& final(p)@ == d.data + old(p)@.skip(d.data.len() as int)
                        &&& r == Err::<(), Error>(
                            match d.err {
                                Some(e) => e,
                                None => Error::UnexpectedEof,
                            },
                        )
                    }
                },
            }),
    {
        match self.read_at(p, offset) {
            Err(e) => Err(e),
            Ok(n) => {
                if n < p.len() {
                    Err(Error::UnexpectedEof)
                } else {
                    Ok(())
                }
            },
        }
    }
}

/// Takes a 64-bit number for a signed one.
fn to_signed(x: u64) -> (r: i128)
    ensures
        r == signed(x),
{
    if x > i64::MAX as u64 {
        x as i128 - 0x1_0000_0000_0000_0000
    } else {
        x as i128
    }
}

} // verus!
