//! Decompressing a file.
use crate::block;
use crate::block::decode;
use crate::block::load_store::append_range;
use crate::index;
use crate::mz::args::{Options, OptionsView};
use crate::mz::error::Error;
use crate::mz::path;
use crate::mz::path::{
    extension_matches, is_compressed_filename, is_stdio_path, strip_extension,
};
use crate::mz::text::joined;
use crate::stream::concurrent;
use crate::stream::laws;
use crate::stream::output;
use crate::stream::reader;
use crate::stream::chunk::Answer;
use crate::stream::reader::{Reader, ReaderView};
use crate::stream::silent;
use crate::stream::seek;
use crate::stream::seek::{ReadSeeker, SeekFrom};
use vstd::prelude::*;
use vstd::slice::slice_subrange;
use vstd::string::*;

verus! {

/// What to do to decompress a file.
#[derive(Debug, Clone, Copy, PartialEq, Eq, Structural)]
pub enum DecompressJob {
    /// Decompress it again and again, and take the time.
    Bench,
    /// It is a single block.
    Block,
    /// It is a stream that grows; wait for more at its end.
    Follow,
    /// It is a stream of which a part is wanted.
    Seek,
    /// It is a stream, to be read with so many workers.
    Stream(usize),
}

/// What options and a file's name ask for.
pub open spec fn job(o: OptionsView, input: Seq<char>, threads: usize) -> DecompressJob {
    if o.bench_n is Some {
        DecompressJob::Bench
    } else if o.block || path::extension(input) == Some("mzb"@) {
        DecompressJob::Block
    } else if o.follow {
        DecompressJob::Follow
    } else if o.offset is Some || o.tail is Some {
        DecompressJob::Seek
    } else if o.verify {
        DecompressJob::Stream(1)
    } else {
        DecompressJob::Stream(threads)
    }
}

/// Returns what to do with the file, which is needed. A stream that is only checked is read
/// without workers.
pub fn run(opts: &Options, input: &Option<String>, threads: usize) -> (r: Result<
    DecompressJob,
    Error,
>)
    ensures
        (match input {
            None => r == Err::<DecompressJob, Error>(
                Error::Other("no input file given (use - for stdin)"),
            ),
            Some(p) => r == Ok::<DecompressJob, Error>(job(opts@, p@, threads)),
        }),
{
    match input {
        None => Err(Error::Other("no input file given (use - for stdin)")),
        Some(p) => {
            if opts.bench_n.is_some() {
                Ok(DecompressJob::Bench)
            } else if opts.block || extension_matches(p.as_str(), "mzb") {
                Ok(DecompressJob::Block)
            } else if opts.follow {
                Ok(DecompressJob::Follow)
            } else if opts.offset.is_some() || opts.tail.is_some() {
                Ok(DecompressJob::Seek)
            } else if opts.verify {
                Ok(DecompressJob::Stream(1))
            } else {
                Ok(DecompressJob::Stream(threads))
            }
        },
    }
}

/// Where a decompressed file goes: nowhere, to standard output, where it was asked to, or
/// next to what it was made of, without its extension.
pub open spec fn dest(input: Seq<char>, o: OptionsView) -> Seq<char> {
    if o.verify {
        "(verify)"@
    } else if o.stdout {
        "-"@
    } else {
        match o.output {
            Some(out) => out,
            None => if path::is_stdio(input) {
                "-"@
            } else if path::is_compressed(input) {
                path::without_extension(input)
            } else {
                input + ".out"@
            },
        }
    }
}

/// Returns where a decompressed file goes.
pub fn dest_path(input: &str, opts: &Options) -> (r: String)
    ensures
        r@ == dest(input@, opts@),
{
    if opts.verify {
        return "(verify)".to_owned();
    }
    if opts.stdout {
        return "-".to_owned();
    }
    if let Some(out) = &opts.output {
        return out.clone();
    }
    if is_stdio_path(input) {
        return "-".to_owned();
    }
    if is_compressed_filename(input) {
        strip_extension(input)
    } else {
        joined(input, ".out")
    }
}

/// The part of `total` bytes that is wanted: where it starts, and how long it is.
pub open spec fn part(offset: Option<u64>, tail: Option<u64>, total: u64) -> (int, int) {
    match (offset, tail) {
        (None, None) => (0, total as int),
        (Some(o), None) => (o as int, span(o as int, total as int)),
        (None, Some(t)) => if t < total {
            (total - t, t as int)
        } else {
            (0, total as int)
        },
        (Some(o), Some(t)) => {
            let end = if o + t < total {
                o + t
            } else {
                total as int
            };
            (o as int, span(o as int, end))
        },
    }
}

/// The distance from one place to another; none where it is behind.
pub open spec fn span(from: int, to: int) -> int {
    if from < to {
        to - from
    } else {
        0
    }
}

/// Returns where the part that is wanted starts, and how long it is.
pub fn seek_range(offset: Option<u64>, tail: Option<u64>, total: u64) -> (r: (u64, u64))
    requires
        offset is Some || tail is Some,
    ensures
        (r.0 as int, r.1 as int) == part(offset, tail, total),
        offset matches Some(x) ==> r.0 == x,
        offset is None ==> r.0 + r.1 == total,
        r.1 == 0 || r.0 + r.1 <= total,
        tail matches Some(t) ==> r.1 <= t,
        r.0 + r.1 < total ==> tail == Some(r.1),
        offset is None && r.0 > 0 ==> tail == Some(r.1),
{
    match (offset, tail) {
        (None, None) => (0, total),
        (Some(off), None) => (off, total.saturating_sub(off)),
        (None, Some(t)) => {
            let n: u64 = if t < total {
                t
            } else {
                total
            };
            (total - n, n)
        },
        (Some(off), Some(t)) => {
            let sum: u64 = off.saturating_add(t);
            let end: u64 = if sum < total {
                sum
            } else {
                total
            };
            (off, end.saturating_sub(off))
        },
    }
}

/// What stands behind the first line end, if there is one.
pub open spec fn behind_line(data: Seq<u8>) -> Option<Seq<u8>>
    decreases data.len(),
{
    if data.len() == 0 {
        None
    } else if data[0] == 10 {
        Some(data.skip(1))
    } else {
        behind_line(data.skip(1))
    }
}

/// The first line end at `i`, or none before it.
pub proof fn lemma_behind_line(data: Seq<u8>, i: int)
    requires
        0 <= i <= data.len(),
        forall|j: int| 0 <= j < i ==> data[j] != 10,
    ensures
        i < data.len() && data[i] == 10 ==> behind_line(data) == Some(data.skip(i + 1)),
        behind_line(data) == behind_line(data.skip(i)),
    decreases i,
{
    if i == 0 {
        assert(data.skip(0) =~= data);
    } else {
        let t = data.skip(1);
        assert forall|j: int| 0 <= j < i - 1 implies t[j] != 10 by {
            assert(t[j] == data[j + 1]);
        }
        lemma_behind_line(t, i - 1);
        assert(t.skip(i - 1) =~= data.skip(i));
        if i < data.len() {
            assert(t[i - 1] == data[i]);
            assert(t.skip(i) =~= data.skip(i + 1));
        }
    }
}

/// Where the first line end in `b` is; its length where there is none.
fn find_newline(b: &[u8]) -> (r: usize)
    ensures
        r <= b.len(),
        forall|j: int| 0 <= j < r ==> b@[j] != 10,
        r < b.len() ==> b@[r as int] == 10,
{
    let mut i: usize = 0;
    while i < b.len() && b[i] != 10
        invariant
            i <= b.len(),
            forall|j: int| 0 <= j < i ==> b@[j] != 10,
        decreases b.len() - i,
    {
        i = i + 1;
    }
    i
}

/// What is left to read behind the next line end, or why it failed. Where there is none, it
/// is nothing.
pub open spec fn from_next_line(v: ReaderView, w: ReaderView, r: Result<(), Error>) -> bool {
    let d = reader::drained(v);
    match behind_line(d.data) {
        Some(rest) => {
            &&& r is Ok
            &&& w.err is None
            &&& reader::drained(w).data == rest
            &&& reader::drained(w).err == d.err
            &&& reader::drained(w).reader == d.reader
        },
        None => {
            &&& w == d.reader
            &&& match d.err {
                Some(e) => r == Err::<(), Error>(Error::Stream(e)),
                None => r is Ok && w.err is None,
            }
        },
    }
}

/// Reads on to behind the next line end.
pub fn advance_past_newline(rs: &mut ReadSeeker) -> (r: Result<(), Error>)
    requires
        old(rs).wf(),
        old(rs).reader().err is None,
    ensures
        final(rs).wf(),
        final(rs).index_view() == old(rs).index_view(),
        old(rs).reader().answers.is_prefix_of(final(rs).reader().answers),
        final(rs).reader().options == old(rs).reader().options,
        from_next_line(
            old(rs).reader().told(final(rs).reader().answers),
            final(rs).reader(),
            r,
        ),
{
    loop
        invariant
            rs.wf(),
            rs.index_view() == old(rs).index_view(),
            rs.reader().err is None,
            old(rs).reader().answers.is_prefix_of(rs.reader().answers),
            rs.reader().options == old(rs).reader().options,
            looks_on(old(rs).reader(), rs.reader()),
        decreases
                rs.reader().source.len() - rs.reader().at,
                rs.reader().pending().len(),
    {
        let ghost v = rs.reader();
        let found: Result<(usize, usize), Error> = match rs.fill_buf() {
            Err(e) => Err(Error::Stream(e)),
            Ok(b) => Ok((b.len(), find_newline(b))),
        };
        let ghost u = rs.reader();
        proof {
            let x = v.told(u.answers);
            reader::lemma_drained_filled(x);
            reader::lemma_filled_moves(x);
            assert(old(rs).reader().answers.is_prefix_of(u.answers));
            assert(v.answers.is_prefix_of(u.answers));
            assert(u.answers.is_prefix_of(u.answers));
            assert(u.told(u.answers) =~= u);
        }
        let (len, i): (usize, usize) = match found {
            Err(e) => {
                return Err(e);
            },
            Ok(x) => x,
        };
        if len == 0 {
            return Ok(());
        }
        let n: usize = if i < len {
            i + 1
        } else {
            len
        };
        rs.consume(n);
        proof {
            let w = rs.reader();
            assert(w =~= ReaderView { pos: u.pos + n, ..u });
            lemma_line_found(old(rs).reader(), v, u, i as int, n as int);
            assert(w.answers.is_prefix_of(w.answers));
            assert(w.told(w.answers) =~= w);
        }
        if i < len {
            return Ok(());
        }
    }
}

/// What is behind the next line end from `v` on is what is behind it from `w` on.
spec fn looks_on(v: ReaderView, w: ReaderView) -> bool {
    forall|a: Seq<Answer>| #[trigger]
        w.answers.is_prefix_of(a) ==> {
            let d = reader::drained(v.told(a));
            let e = reader::drained(w.told(a));
            &&& behind_line(e.data) == behind_line(d.data)
            &&& e.err == d.err
            &&& e.reader == d.reader
        }
}

/// The first `i` bytes at hand are no line end; `n` bytes are taken, with the line end
/// behind them, if there is one.
proof fn lemma_line_found(v0: ReaderView, v: ReaderView, u: ReaderView, i: int, n: int)
    requires
        v.wf(),
        u.settled(),
        v.answers.is_prefix_of(u.answers),
        (u, Ok::<bool, crate::stream::error::Error>(true)) == reader::filled(v.told(u.answers)),
        looks_on(v0, v),
        0 <= i <= u.pending().len(),
        forall|j: int| 0 <= j < i ==> u.pending()[j] != 10,
        i < u.pending().len() ==> u.pending()[i] == 10 && n == i + 1,
        i == u.pending().len() ==> n == i,
    ensures
        ({
            let w = ReaderView { pos: u.pos + n, ..u };
            if i < u.pending().len() {
                let d = reader::drained(v0.told(u.answers));
                &&& behind_line(d.data) == Some(reader::drained(w).data)
                &&& reader::drained(w).err == d.err
                &&& reader::drained(w).reader == d.reader
            } else {
                looks_on(v0, w)
            }
        }),
{
    let w = ReaderView { pos: u.pos + n, ..u };
    assert forall|a: Seq<Answer>| #[trigger] w.answers.is_prefix_of(a) implies {
        let d = reader::drained(v0.told(a));
        let e = reader::drained(w.told(a));
        &&& i < u.pending().len() ==> behind_line(d.data) == Some(e.data)
        &&& i == u.pending().len() ==> behind_line(e.data) == behind_line(d.data)
        &&& e.err == d.err
        &&& e.reader == d.reader
    } by {
        assert(v.answers.is_prefix_of(a));
        reader::lemma_filled_told(v, u.answers, a);
        reader::lemma_drained_filled(v.told(a));
        let y = u.told(a);
        let x = reader::drained(y).data;
        let b = y.pending();
        assert(b == u.pending());
        reader::lemma_drained_take(y, n);
        assert(w.told(a) =~= ReaderView { pos: y.pos + n, ..y });
        assert forall|j: int| 0 <= j < b.len() implies x[j] == b[j] by {
            assert(x.take(b.len() as int)[j] == b[j]);
        }
        lemma_behind_line(x, i);
    }
    assert(w.answers.is_prefix_of(w.answers));
    assert(w.told(w.answers) =~= w);
}

/// Reads at most `limit` bytes.
fn read_up_to(rs: &mut ReadSeeker, limit: u64) -> (r: Result<Vec<u8>, Error>)
    requires
        old(rs).wf(),
        old(rs).reader().err is None,
        silent::silent(old(rs).reader().options),
    ensures
        ({
            let d = reader::drained(old(rs).reader());
            if limit <= d.data.len() {
                r is Ok && (r->Ok_0)@ == d.data.take(limit as int)
            } else {
                match d.err {
                    Some(e) => r == Err::<Vec<u8>, Error>(Error::Stream(e)),
                    None => r is Ok && (r->Ok_0)@ == d.data,
                }
            }
        }),
{
    let ghost d = reader::drained(rs.reader());
    let mut out: Vec<u8> = Vec::new();
    proof {
        assert(out@ =~= d.data.take(0));
        assert(d.data.skip(0) =~= d.data);
    }
    while (out.len() as u64) < limit
        invariant
            rs.wf(),
            rs.reader().err is None,
            silent::silent(rs.reader().options),
            d == reader::drained(old(rs).reader()),
            out@.len() <= limit,
            out@.len() <= d.data.len(),
            out@ == d.data.take(out@.len() as int),
            reader::drained(rs.reader()).data == d.data.skip(out@.len() as int),
            reader::drained(rs.reader()).err == d.err,
        decreases limit - out@.len(),
    {
        let ghost v = rs.reader();
        proof {
            reader::lemma_drained_filled(v);
            reader::lemma_filled_moves(v);
        }
        let left: u64 = limit - out.len() as u64;
        let ghost got = out@;
        let found: Result<usize, Error> = match rs.fill_buf() {
            Err(e) => Err(Error::Stream(e)),
            Ok(b) => {
                let n: usize = if (b.len() as u64) < left {
                    b.len()
                } else {
                    left as usize
                };
                append_range(&mut out, b, 0, n);
                Ok(n)
            },
        };
        let ghost u = rs.reader();
        proof {
            silent::lemma_silent_fill(v, u, reader::filled(v.told(u.answers)).1);
        }
        let n: usize = match found {
            Err(e) => {
                assert(d.data.skip(got.len() as int).len() == 0);
                return Err(e);
            },
            Ok(n) => n,
        };
        if n == 0 {
            proof {
                assert(d.data.skip(got.len() as int).len() == 0);
                assert(out@ =~= got);
                assert(d.data.take(got.len() as int) =~= d.data);
            }
            return Ok(out);
        }
        rs.consume(n);
        proof {
            let x = reader::drained(u).data;
            let b = u.pending();
            reader::lemma_drained_take(u, n as int);
            assert(rs.reader() =~= ReaderView { pos: u.pos + n, ..u });
            assert forall|j: int| 0 <= j < n implies b[j] == d.data[got.len() + j] by {
                assert(x.take(b.len() as int)[j] == b[j]);
            }
            assert(out@ =~= d.data.take(got.len() + n));
            assert(x.skip(n as int) =~= d.data.skip(got.len() + n));
        }
    }
    Ok(out)
}

/// `r` is the part of a stream that is wanted, with the size of all its data, or why there
/// is none.
pub open spec fn extracts(
    source: Seq<u8>,
    o: OptionsView,
    r: Result<(Seq<u8>, u64), Error>,
) -> bool {
    let start = reader::fresh(reader::default_options(), source);
    match seek::index_from(Seq::empty(), source) {
        Err(e) => r == Err::<(Seq<u8>, u64), Error>(
            Error::NoIndex(crate::stream::error::Error::Index(e)),
        ),
        Ok(idx) => match idx.total_uncompressed {
            None => r == Err::<(Seq<u8>, u64), Error>(
                Error::Other("--offset / --tail require an index with known total size"),
            ),
            Some(total) => {
                let (from, len) = part(o.offset, o.tail, total);
                match seek::sought(start, idx, SeekFrom::Start(from as u64)) {
                    (_, Err(e)) => r == Err::<(Seq<u8>, u64), Error>(Error::Stream(e)),
                    (v, Ok(_)) => r == read_part(v, o.tail_next_nl, len, total),
                }
            },
        },
    }
}

/// At most `len` bytes of what a reader has before it, from the next line on where it is
/// asked to.
pub open spec fn read_part(v: ReaderView, next_line: bool, len: int, total: u64) -> Result<
    (Seq<u8>, u64),
    Error,
> {
    let d = reader::drained(v);
    let data = if !next_line {
        d.data
    } else {
        match behind_line(d.data) {
            Some(rest) => rest,
            None => Seq::empty(),
        }
    };
    let whole_line = !next_line || behind_line(d.data) is Some;
    if whole_line && len <= data.len() {
        Ok((data.take(len), total))
    } else {
        match d.err {
            Some(e) => Err(Error::Stream(e)),
            None => Ok((data, total)),
        }
    }
}

/// The data of a result.
pub open spec fn part_of(r: Result<(Vec<u8>, u64), Error>) -> Result<(Seq<u8>, u64), Error> {
    match r {
        Ok((d, t)) => Ok((d@, t)),
        Err(e) => Err(e),
    }
}

/// Reads the part of a stream that is wanted; returns it and the size of all the data. The
/// stream must end in an index that holds that size.
pub fn decompress_stream_seek(source: Vec<u8>, opts: &Options) -> (r: Result<
    (Vec<u8>, u64),
    Error,
>)
    requires
        opts.offset is Some || opts.tail is Some,
    ensures
        extracts(source@, opts@, part_of(r)),
{
    let none: Vec<u8> = Vec::new();
    assert(none@ =~= Seq::<u8>::empty());
    let mut rs: ReadSeeker = match ReadSeeker::new(Reader::new(source), none.as_slice()) {
        Err(e) => {
            return Err(Error::NoIndex(e));
        },
        Ok(rs) => rs,
    };
    let total: u64 = match rs.index().total_uncompressed() {
        None => {
            return Err(
                Error::Other("--offset / --tail require an index with known total size"),
            );
        },
        Some(t) => t,
    };
    let (start, limit): (u64, u64) = seek_range(opts.offset, opts.tail, total);
    let ghost v0 = rs.reader();
    let ghost idx = rs.index_view();
    let sought = rs.seek_uncompressed(SeekFrom::Start(start));
    let ghost v = rs.reader();
    proof {
        silent::lemma_default_silent();
        silent::lemma_silent_sought(v0.told(v.answers), idx, SeekFrom::Start(start));
        silent::lemma_nothing_answered(v0, v);
    }
    match sought {
        Err(e) => {
            return Err(Error::Stream(e));
        },
        Ok(_) => {},
    }
    if opts.tail_next_nl {
        let advanced = advance_past_newline(&mut rs);
        proof {
            let a = rs.reader().answers;
            silent::lemma_silent_drained(v, a);
            if advanced is Ok && behind_line(reader::drained(v).data) is None {
                laws::law_end_is_end(v.told(a));
            }
        }
        match advanced {
            Err(e) => {
                return Err(e);
            },
            Ok(()) => {},
        }
    }
    match read_up_to(&mut rs, limit) {
        Err(e) => Err(e),
        Ok(data) => {
            proof {
                if opts.tail_next_nl && behind_line(reader::drained(v).data) is None {
                    assert(data@ =~= Seq::<u8>::empty());
                }
            }
            Ok((data, total))
        },
    }
}

/// Reads the data of a stream, with `threads` workers. It fails where the stream is
/// malformed; without workers, for the reason that a reader finds first.
pub fn decompress_stream(source: Vec<u8>, threads: usize) -> (r: Result<Vec<u8>, Error>)
    ensures
        ({
            let d = reader::drained(reader::fresh(reader::default_options(), source@));
            match d.err {
                None => r is Ok && (r->Ok_0)@ == d.data,
                Some(e) => r is Err && r->Err_0 is Stream && (threads <= 1 ==> r == Err::<
                    Vec<u8>,
                    Error,
                >(Error::Stream(e))),
            }
        }),
{
    let mut reader: Reader = Reader::new(source);
    let ghost v = reader@;
    let mut out: Vec<u8> = Vec::new();
    assert(out@ =~= Seq::<u8>::empty());
    if threads <= 1 {
        let r = reader.read_to_end(&mut out);
        proof {
            silent::lemma_default_silent();
            silent::lemma_silent_drained(v, reader@.answers);
        }
        return match r {
            Err(e) => Err(Error::Stream(e)),
            Ok(_) => {
                assert(out@ =~= reader::drained(v).data);
                Ok(out)
            },
        };
    }
    let r = reader.decode_concurrent(out, threads);
    proof {
        let w = v.told(reader@.answers);
        silent::lemma_default_silent();
        silent::lemma_silent_drained(v, reader@.answers);
        assert(w.pending() =~= Seq::<u8>::empty());
        concurrent::law_concurrent_matches_reading(w);
    }
    match r {
        Err(e) => Err(Error::Stream(e)),
        Ok(d) => {
            assert(d.writer@ =~= reader::drained(v).data);
            Ok(d.writer)
        },
    }
}

/// Decodes a single block.
pub fn decompress_block(source: &[u8]) -> (r: Result<Vec<u8>, Error>)
    ensures
        (match block::block_decoded(source@) {
            Ok(data) => r is Ok && (r->Ok_0)@ == data,
            Err(e) => r == Err::<Vec<u8>, Error>(Error::Block(e)),
        }),
{
    let mut out: Vec<u8> = Vec::new();
    match decode(&mut out, source) {
        Err(e) => Err(Error::Block(e)),
        Ok(()) => Ok(out),
    }
}

/// What is left of `data` without its first `skip` bytes, from the next line on where it is
/// asked to.
pub open spec fn cut(skip: int, next_line: bool, data: Seq<u8>) -> Seq<u8> {
    if data.len() <= skip {
        Seq::empty()
    } else if next_line {
        match behind_line(data.skip(skip)) {
            Some(rest) => rest,
            None => Seq::empty(),
        }
    } else {
        data.skip(skip)
    }
}

/// Leaves out the start of data that comes block by block: so many bytes, and then, where
/// it is asked to, what is left of the line.
#[derive(Debug)]
pub struct Cutter {
    skip: u64,
    next_line: bool,
}

impl Cutter {
    /// How many bytes are still left out.
    pub closed spec fn skip(&self) -> int {
        self.skip as int
    }

    /// Whether the rest of a line is still left out.
    pub closed spec fn next_line(&self) -> bool {
        self.next_line
    }

    /// Leaves out `skip` bytes, and the rest of the line where it is asked to.
    pub fn new(skip: u64, next_line: bool) -> (r: Self)
        ensures
            r.skip() == skip,
            r.next_line() == next_line,
    {
        Cutter { skip, next_line }
    }

    /// Takes the next block. Returns where in it that begins which is not left out.
    pub fn pass(&mut self, block: &[u8]) -> (r: usize)
        ensures
            r <= block.len(),
            forall|rest: Seq<u8>| #[trigger]
                cut(old(self).skip(), old(self).next_line(), block@ + rest) == block@.skip(
                    r as int,
                ) + cut(final(self).skip(), final(self).next_line(), rest),
    {
        let n: usize = block.len();
        if self.skip >= n as u64 {
            let ghost before = self.skip as int;
            self.skip = self.skip - n as u64;
            proof {
                assert(block@.skip(n as int) =~= Seq::<u8>::empty());
                assert forall|rest: Seq<u8>| #[trigger]
                    cut(before, self.next_line, block@ + rest) == block@.skip(n as int) + cut(
                        self.skip as int,
                        self.next_line,
                        rest,
                    ) by {
                    if before < n + rest.len() {
                        assert((block@ + rest).skip(before) =~= rest.skip(before - n));
                    }
                    lemma_no_line(before - n, self.next_line, rest);
                }
            }
            return n;
        }
        let k: usize = self.skip as usize;
        self.skip = 0;
        let ghost line = self.next_line;
        if !self.next_line {
            proof {
                assert forall|rest: Seq<u8>| #[trigger]
                    cut(k as int, line, block@ + rest) == block@.skip(k as int) + cut(
                        0,
                        line,
                        rest,
                    ) by {
                    assert((block@ + rest).skip(k as int) =~= block@.skip(k as int) + rest);
                    assert(rest.skip(0) =~= rest);
                    if rest.len() == 0 {
                        assert(block@.skip(k as int) + rest =~= block@.skip(k as int));
                    }
                }
            }
            return k;
        }
        let tail: &[u8] = slice_subrange(block, k, n);
        let i: usize = find_newline(tail);
        if i < tail.len() {
            self.next_line = false;
        }
        proof {
            let r = if i < tail.len() {
                k + i + 1
            } else {
                n as int
            };
            assert forall|rest: Seq<u8>| #[trigger]
                cut(k as int, line, block@ + rest) == block@.skip(r) + cut(
                    0,
                    self.next_line,
                    rest,
                ) by {
                lemma_cut_line(block@, k as int, i as int, rest);
            }
        }
        if i < tail.len() {
            k + i + 1
        } else {
            n
        }
    }
}

/// Without data there is nothing left.
proof fn lemma_no_line(skip: int, next_line: bool, data: Seq<u8>)
    requires
        skip >= 0,
    ensures
        Seq::<u8>::empty() + cut(skip, next_line, data) == cut(skip, next_line, data),
{
    assert(Seq::<u8>::empty() + cut(skip, next_line, data) =~= cut(skip, next_line, data));
}

/// A block in which a line ends, or does not.
proof fn lemma_cut_line(block: Seq<u8>, k: int, i: int, rest: Seq<u8>)
    requires
        0 <= k < block.len(),
        0 <= i <= block.len() - k,
        forall|j: int| 0 <= j < i ==> block.skip(k)[j] != 10,
        k + i < block.len() ==> block[k + i] == 10,
    ensures
        ({
            let r = if k + i < block.len() {
                k + i + 1
            } else {
                block.len() as int
            };
            cut(k, true, block + rest) == block.skip(r) + cut(0, k + i >= block.len(), rest)
        }),
{
    let all = (block + rest).skip(k);
    assert(all =~= block.skip(k) + rest);
    assert forall|j: int| 0 <= j < i implies all[j] != 10 by {
        assert(all[j] == block.skip(k)[j]);
    }
    lemma_behind_line(all, i);
    if k + i < block.len() {
        assert(all[i] == 10);
        assert(all.skip(i + 1) =~= block.skip(k + i + 1) + rest);
        assert(rest.skip(0) =~= rest);
        assert(block.skip(k + i + 1) + cut(0, false, rest) =~= block.skip(k + i + 1) + rest);
    } else {
        assert(all.skip(i) =~= rest);
        assert(block.skip(block.len() as int) =~= Seq::<u8>::empty());
        assert(rest.skip(0) =~= rest);
        let c = cut(0, true, rest);
        assert(Seq::<u8>::empty() + c =~= c);
    }
}

} // verus!
