//! Compressing a file.
use crate::block;
use crate::block::{decode, encode, Level};
use crate::mz::args::{Options, OptionsView};
use crate::mz::error::Error;
use crate::mz::path;
use crate::mz::path::is_stdio_path;
use crate::mz::text::joined;
use crate::stream::error as stream_error;
use crate::stream::format::{MAX_BLOCK_SIZE, MIN_BLOCK_SIZE};
use crate::stream::in_step;
use crate::stream::mt_laws;
use crate::stream::mt_writer;
use crate::stream::mt_writer::{MtView, MtWriter, MtWriterBuilder};
use crate::stream::output;
use crate::stream::reader;
use crate::stream::roundtrip;
use crate::stream::success;
use crate::stream::writer;
use crate::stream::writer::{Writer, WriterBuilder, WriterOptions, WriterView};
use vstd::prelude::*;
use vstd::string::*;

verus! {

/// Largest block where none is given.
pub const CLI_DEFAULT_BLOCK_SIZE: usize = 0x80_0000;

/// What to do to compress a file.
#[derive(Debug, Clone, Copy, PartialEq, Eq, Structural)]
pub enum CompressJob {
    /// Compress it again and again, and take the time.
    Bench,
    /// Make a single block of it.
    Block,
    /// Make a stream of it, with so many workers.
    Stream(usize),
}

/// What options ask for.
pub open spec fn job(o: OptionsView, threads: usize) -> CompressJob {
    if o.bench_n is Some {
        CompressJob::Bench
    } else if o.block {
        CompressJob::Block
    } else {
        CompressJob::Stream(threads)
    }
}

/// Returns what to do with the file, which is needed.
pub fn run(opts: &Options, input: &Option<String>, threads: usize) -> (r: Result<
    CompressJob,
    Error,
>)
    ensures
        input is None ==> r == Err::<CompressJob, Error>(
            Error::Other("no input file given (use - for stdin)"),
        ),
        input is Some ==> r == Ok::<CompressJob, Error>(job(opts@, threads)),
{
    if input.is_none() {
        return Err(Error::Other("no input file given (use - for stdin)"));
    }
    if opts.bench_n.is_some() {
        Ok(CompressJob::Bench)
    } else if opts.block {
        Ok(CompressJob::Block)
    } else {
        Ok(CompressJob::Stream(threads))
    }
}

/// Where a compressed file goes: to standard output, where it was asked to, or next to
/// what it was made of, with an extension more.
pub open spec fn dest(input: Seq<char>, o: OptionsView, ext: Seq<char>) -> Seq<char> {
    if o.stdout {
        "-"@
    } else {
        match o.output {
            Some(out) => out,
            None => if path::is_stdio(input) {
                "-"@
            } else {
                input + "."@ + ext
            },
        }
    }
}

/// Returns where a compressed file goes.
pub fn dest_path(input: &str, opts: &Options, ext: &str) -> (r: String)
    ensures
        r@ == dest(input@, opts@, ext@),
{
    if opts.stdout {
        return "-".to_owned();
    }
    if let Some(out) = &opts.output {
        return out.clone();
    }
    if is_stdio_path(input) {
        return "-".to_owned();
    }
    let p: String = joined(input, ".");
    joined(p.as_str(), ext)
}

/// The level of a block.
pub open spec fn block_level(o: OptionsView) -> Level {
    if o.uncompressed {
        Level::Fastest
    } else {
        match o.level {
            Some(l) => l,
            None => Level::Balanced,
        }
    }
}

/// Returns the level of a block.
pub fn level_of(opts: &Options) -> (r: Level)
    ensures
        r == block_level(opts@),
{
    if opts.uncompressed {
        return Level::Fastest;
    }
    match opts.level {
        Some(l) => l,
        None => Level::Balanced,
    }
}

/// Fails where a file of `size` bytes does not fit in a block.
pub fn check_block_size(size: u64) -> (r: Result<(), Error>)
    ensures
        size > MAX_BLOCK_SIZE ==> r == Err::<(), Error>(
            Error::Other("maximum block size of 8 MiB exceeded"),
        ),
        size <= MAX_BLOCK_SIZE ==> r is Ok,
{
    if size > MAX_BLOCK_SIZE as u64 {
        return Err(Error::Other("maximum block size of 8 MiB exceeded"));
    }
    Ok(())
}

/// Whether two slices hold the same.
pub fn same_bytes(a: &[u8], b: &[u8]) -> (r: bool)
    ensures
        r == (a@ == b@),
{
    if a.len() != b.len() {
        return false;
    }
    let mut i: usize = 0;
    while i < a.len()
        invariant
            a.len() == b.len(),
            i <= a.len(),
            forall|j: int| 0 <= j < i ==> a@[j] == b@[j],
        decreases a.len() - i,
    {
        if a[i] != b[i] {
            return false;
        }
        i = i + 1;
    }
    assert(a@ =~= b@);
    true
}

/// Makes a single block of `data`. Where it is asked to, decodes it again and compares.
pub fn compress_block(data: &[u8], opts: &Options) -> (r: Result<Vec<u8>, Error>)
    ensures
        data.len() > MAX_BLOCK_SIZE ==> r == Err::<Vec<u8>, Error>(
            Error::Other("maximum block size of 8 MiB exceeded"),
        ),
        data.len() <= MAX_BLOCK_SIZE ==> {
            &&& r is Ok
            &&& (r->Ok_0)@ == block::encoded(data@, block_level(opts@))
            &&& block::encodes((r->Ok_0)@, data@)
        },
{
    match check_block_size(data.len() as u64) {
        Err(e) => {
            return Err(e);
        },
        Ok(()) => {},
    }
    let mut enc: Vec<u8> = Vec::new();
    match encode(&mut enc, data, level_of(opts)) {
        Err(e) => {
            return Err(Error::Block(e));
        },
        Ok(()) => {},
    }
    if opts.verify {
        let mut dec: Vec<u8> = Vec::new();
        match decode(&mut dec, enc.as_slice()) {
            Err(e) => {
                return Err(Error::Block(e));
            },
            Ok(()) => {},
        }
        if !same_bytes(dec.as_slice(), data) {
            return Err(Error::Other("verify: decoded content mismatch"));
        }
    }
    Ok(enc)
}

/// The options of the stream that a file is made into.
pub open spec fn stream_options(o: OptionsView) -> WriterOptions {
    WriterOptions {
        block_size: match o.block_size {
            Some(n) => n,
            None => CLI_DEFAULT_BLOCK_SIZE,
        },
        level: match o.level {
            Some(l) if !o.uncompressed => l,
            _ => Level::Balanced,
        },
        uncompressed: o.uncompressed,
        padding: match o.padding {
            Some(n) if n > 1 => n,
            _ => 0,
        },
        flush_on_write: false,
        generate_index: o.index,
        append_index: o.index,
    }
}

/// Returns the options of the stream that a file is made into, for a writer with workers.
/// Whether they are in range is not checked.
pub fn stream_builder(opts: &Options, threads: usize) -> (r: MtWriterBuilder)
    ensures
        r@ == (stream_options(opts@), Some(threads)),
{
    let mut b: MtWriterBuilder = MtWriterBuilder::new();
    if opts.uncompressed {
        b = b.uncompressed();
    } else if let Some(l) = opts.level {
        b = b.level(l);
    }
    b = b.block_size(
        match opts.block_size {
            Some(n) => n,
            None => CLI_DEFAULT_BLOCK_SIZE,
        },
    ).concurrency(threads);
    if let Some(pad) = opts.padding {
        b = b.padding(pad);
    }
    if opts.index {
        b = b.append_index();
    } else {
        b = b.generate_index(false);
    }
    b
}

/// Returns a writer without workers of the stream that a file is made into. Fails where an
/// option is out of range.
pub fn stream_writer(opts: &Options) -> (r: Result<Writer, Error>)
    ensures
        (match mt_writer::mistake(stream_options(opts@), None) {
            Some(e) => r == Err::<Writer, Error>(Error::Stream(e)),
            None => {
                &&& r is Ok
                &&& (r->Ok_0).wf()
                &&& (r->Ok_0)@ == writer::fresh(stream_options(opts@), Seq::empty())
            },
        }),
{
    let size: usize = match opts.block_size {
        Some(n) => n,
        None => CLI_DEFAULT_BLOCK_SIZE,
    };
    if size < MIN_BLOCK_SIZE || size > MAX_BLOCK_SIZE {
        return Err(
            Error::Stream(
                stream_error::Error::Config(
                    "block_size must be in [MIN_BLOCK_SIZE, MAX_BLOCK_SIZE]",
                ),
            ),
        );
    }
    let mut b: WriterBuilder = WriterBuilder::new();
    if opts.uncompressed {
        b = b.uncompressed();
    } else if let Some(l) = opts.level {
        b = b.level(l);
    }
    b = b.block_size(size);
    if let Some(pad) = opts.padding {
        if pad as usize > MAX_BLOCK_SIZE {
            return Err(
                Error::Stream(
                    stream_error::Error::Config("padding must be \u{2264} MAX_BLOCK_SIZE"),
                ),
            );
        }
        b = b.padding(pad);
    }
    if opts.index {
        b = b.append_index();
    } else {
        b = b.generate_index(false);
    }
    let none: Vec<u8> = Vec::new();
    assert(none@ =~= Seq::<u8>::empty());
    Ok(b.build(none))
}

/// A stream reads as `data`, without an error.
pub open spec fn reads_as(sink: Seq<u8>, data: Seq<u8>) -> bool {
    let d = reader::drained(reader::fresh(reader::default_options(), sink));
    d.data == data && d.err is None
}

/// `v` is a writer to which `data` was written.
spec fn holds(v: WriterView, o: WriterOptions, data: Seq<u8>) -> bool {
    &&& v.wf()
    &&& v.options == o
    &&& v.out.before == Seq::<u8>::empty()
    &&& v.data() == data
    &&& success::only_blocks(v.out.frames)
}

/// `v` is a writer with workers to which `data` was written.
spec fn mt_holds(v: MtView, o: WriterOptions, data: Seq<u8>) -> bool {
    &&& v.wf()
    &&& v.options == o
    &&& v.out.before == Seq::<u8>::empty()
    &&& v.data() == data
    &&& mt_laws::only_blocks(v.entries)
}

/// What a writer without workers returns that has made a stream of `data`.
proof fn lemma_streamed(v: WriterView, o: WriterOptions, data: Seq<u8>, sink: Seq<u8>)
    requires
        holds(v, o, data),
        writer::finishes_to(v, sink, None),
    ensures
        reads_as(sink, data),
{
    roundtrip::lemma_block_size(v.options.block_size);
    assert(roundtrip::readable(reader::default_options(), v.out));
    roundtrip::law_reader_inverts_writer(v, sink, reader::default_options());
}

/// What a writer with workers returns that has made a stream of `data`.
proof fn lemma_mt_streamed(v: MtView, o: WriterOptions, data: Seq<u8>, sink: Seq<u8>)
    requires
        mt_holds(v, o, data),
        mt_writer::finishes_to(v, sink, None),
    ensures
        reads_as(sink, data),
{
    roundtrip::lemma_block_size(v.options.block_size);
    assert(mt_laws::readable(reader::default_options(), v));
    mt_laws::law_reader_inverts_mt_writer(v, sink, reader::default_options());
}

/// A writer to which nothing was written holds nothing.
proof fn lemma_written(v: WriterView, w: WriterView, o: WriterOptions, data: Seq<u8>)
    requires
        v == writer::fresh(o, Seq::empty()),
        v.wf(),
        w.wf(),
        !o.flush_on_write,
        data.len() <= usize::MAX,
        data.len() == 0 ==> w == v,
        data.len() > 0 ==> {
            let blocks = writer::blocks_of_write(v, data);
            &&& w == WriterView {
                out: w.out,
                pending: writer::pending_after_write(v, data, Ok(data.len() as usize)),
                ..v
            }
            &&& blocks.len() == 0 ==> w.out == v.out
            &&& blocks.len() > 0 ==> writer::put_all(
                v.out,
                w.out,
                blocks,
                o.packing(),
                None,
            )
        },
    ensures
        holds(w, o, data),
{
    assert(v.data() =~= Seq::<u8>::empty());
    let blocks = writer::blocks_of_write(v, data);
    if data.len() > 0 {
        roundtrip::law_write_appends(v, w, data);
        assert(v.data() + data =~= data);
        if blocks.len() > 0 {
            success::lemma_only_blocks(v.out, w.out, blocks, o.packing());
            reveal(writer::emitted);
        }
    } else {
        assert(data =~= Seq::<u8>::empty());
    }
}

/// Writing nothing leaves a writer as it is.
proof fn lemma_wrote(v: WriterView, w: WriterView, data: Seq<u8>)
    requires
        v.wf(),
        v.pending == Seq::<u8>::empty(),
        !v.options.flush_on_write,
        data.len() == 0 ==> w == v,
        data.len() > 0 ==> in_step::wrote(v, w, data),
    ensures
        in_step::wrote(v, w, data),
{
    if data.len() == 0 {
        let n = v.options.block_size as int;
        assert(v.pending + data =~= Seq::<u8>::empty());
        writer::lemma_whole_rest(Seq::<u8>::empty(), n);
        assert(writer::whole(Seq::<u8>::empty(), n) =~= Seq::<u8>::empty());
        assert(writer::left_over(Seq::<u8>::empty(), n) =~= Seq::<u8>::empty());
    }
}

/// Makes a stream of `data` with a writer to which nothing was written. Fails where there is
/// more data than fits in the index.
pub fn stream_single(w: Writer, data: &[u8]) -> (r: Result<Vec<u8>, Error>)
    requires
        w.wf(),
        w@ == writer::fresh(w@.options, Seq::empty()),
        !w@.options.flush_on_write,
    ensures
        (match r {
            Ok(s) => s@ == in_step::stream_of(w@.options, data@) && reads_as(s@, data@),
            Err(e) => (e matches Error::Stream(x) && x is Index) && data.len()
                >= 0x200_0000_0000_0000,
        }),
{
    let ghost v = w@;
    let ghost o = v.options;
    let mut w: Writer = w;
    let r = w.write_all(data);
    let ghost u = w@;
    if let Err(e) = r {
        proof {
            if data.len() < 0x200_0000_0000_0000 {
                assert(v.data() =~= Seq::<u8>::empty());
                success::law_roomy(v, data@.len() as int);
                success::law_write_succeeds(v, u.out, data@, Some(e));
            }
        }
        return Err(Error::Stream(e));
    }
    proof {
        assert(data@.len() == data.len());
        lemma_written(v, u, o, data@);
    }
    match w.finish() {
        Err(e) => {
            proof {
                let build = u.options.append_index;
                let ib = choose|ib: Seq<u8>| #[trigger]
                    writer::closes_to(u, build, Seq::empty(), ib, Some(e));
                if data.len() < 0x200_0000_0000_0000 {
                    success::law_roomy(u, 0);
                    success::law_close_succeeds(u, build, Seq::empty(), ib, Some(e));
                }
                let x = choose|x: output::OutputView| #[trigger]
                    writer::closed_from(u, x, build, Seq::empty(), ib, Some(e));
                reveal(writer::emitted);
                assert(e is Index);
            }
            Err(Error::Stream(e))
        },
        Ok(s) => {
            proof {
                lemma_streamed(u, o, data@, s@);
                lemma_wrote(v, u, data@);
                in_step::law_stream_of(o, Seq::empty(), u, data@, s@);
                assert(Seq::<u8>::empty() + in_step::stream_of(o, data@) =~= s@);
            }
            Ok(s)
        },
    }
}

/// Makes a stream of `data` with a writer with workers to which nothing was written. Fails
/// where there is more data than fits in the index.
pub fn stream_with_workers(w: MtWriter, data: &[u8]) -> (r: Result<Vec<u8>, Error>)
    requires
        w.wf(),
        w@ == mt_writer::fresh(w@.options, Seq::empty()),
    ensures
        (match r {
            Ok(s) => s@ == in_step::stream_of(w@.options, data@) && reads_as(s@, data@),
            Err(e) => (e matches Error::Stream(x) && x is Index) && data.len()
                >= 0x200_0000_0000_0000,
        }),
{
    let ghost v = w@;
    let ghost o = v.options;
    let mut w: MtWriter = w;
    assert(v.data() =~= Seq::<u8>::empty());
    let r = w.write_all(data);
    let ghost u = w@;
    if let Err(e) = r {
        proof {
            if data.len() < 0x200_0000_0000_0000 {
                mt_laws::law_write_succeeds(v, u, data@, Some(e));
            }
        }
        return Err(Error::Stream(e));
    }
    proof {
        mt_laws::law_write_appends(v, u, data@);
        assert(v.data() + data@ =~= data@);
        mt_laws::lemma_only_blocks(v, u, data@);
    }
    match w.finish() {
        Err(e) => {
            proof {
                if data.len() < 0x200_0000_0000_0000 {
                    mt_laws::law_close_succeeds(u, Seq::empty(), Some(e));
                }
                let x = choose|x: output::OutputView| #[trigger]
                    mt_writer::closed_from(u, x, Seq::empty(), Some(e));
                assert(e is Index);
            }
            Err(Error::Stream(e))
        },
        Ok(s) => {
            proof {
                lemma_mt_streamed(u, o, data@, s@);
                in_step::law_mt_stream_of(o, Seq::empty(), u, data@, s@);
                assert(Seq::<u8>::empty() + in_step::stream_of(o, data@) =~= s@);
            }
            Ok(s)
        },
    }
}

/// Makes a stream of `data`, with `threads` workers. Fails where an option is out of
/// range, and where there is more data than fits in the index.
pub fn compress_stream(data: &[u8], opts: &Options, threads: usize) -> (r: Result<Vec<u8>, Error>)
    requires
        threads >= 1,
    ensures
        (match mt_writer::mistake(stream_options(opts@), Some(threads)) {
            Some(e) => r == Err::<Vec<u8>, Error>(Error::Stream(e)),
            None => match r {
                Ok(s) => s@ == in_step::stream_of(stream_options(opts@), data@) && reads_as(
                    s@,
                    data@,
                ),
                Err(e) => (e matches Error::Stream(x) && x is Index) && data.len()
                    >= 0x200_0000_0000_0000,
            },
        }),
{
    if threads <= 1 {
        match stream_writer(opts) {
            Err(e) => Err(e),
            Ok(w) => stream_single(w, data),
        }
    } else {
        let none: Vec<u8> = Vec::new();
        assert(none@ =~= Seq::<u8>::empty());
        assert(mt_writer::settled(stream_options(opts@)) == stream_options(opts@));
        match stream_builder(opts, threads).build(none) {
            Err(e) => Err(Error::Stream(e)),
            Ok(w) => stream_with_workers(w, data),
        }
    }
}

} // verus!
