//! Compressing and decompressing again and again. Taking the time is left to the caller.
use crate::block::load_store::append_slice;
use crate::block::Level;
use crate::mz::args::{Options, OptionsView};
use crate::mz::compress;
use crate::mz::compress::{
    level_of, same_bytes, stream_single, stream_with_workers, CLI_DEFAULT_BLOCK_SIZE,
};
use crate::mz::decompress::decompress_stream;
use crate::mz::error::Error;
use crate::stream::chunk;
use crate::stream::concurrent;
use crate::stream::error as stream_error;
use crate::stream::format::{MAX_BLOCK_SIZE, MIN_BLOCK_SIZE};
use crate::stream::in_step;
use crate::stream::mt_writer;
use crate::stream::mt_writer::MtWriterBuilder;
use crate::stream::reader;
use crate::stream::reader::{Reader, ReaderView};
use crate::stream::silent;
use crate::stream::writer::{WriterBuilder, WriterOptions};
use vstd::prelude::*;
use vstd::string::*;

verus! {

/// What is repeated.
#[derive(Debug, Clone, Copy, PartialEq, Eq, Structural)]
pub enum BenchMode {
    /// Compressing a file.
    Compress,
    /// Decompressing a file.
    Decompress,
    /// Compressing a file, and decompressing the result.
    Both,
}

/// How a benchmark is done.
#[derive(Debug, Clone, Copy, PartialEq, Eq, Structural)]
pub struct BenchPlan {
    /// What is repeated.
    pub mode: BenchMode,
    /// How often.
    pub iterations: u32,
    /// Compression level.
    pub level: Level,
    /// Largest block.
    pub block_size: usize,
    /// How many workers there are.
    pub threads: usize,
    /// Whether results are decoded again and compared.
    pub verify: bool,
    /// Whether each round compresses.
    pub encode: bool,
    /// Whether each round decompresses.
    pub decode: bool,
}

/// The plan that options ask for.
pub open spec fn planned(o: OptionsView, mode: BenchMode, threads: usize) -> BenchPlan {
    BenchPlan {
        mode,
        iterations: match o.bench_n {
            Some(n) => n,
            None => 5,
        },
        level: compress::block_level(o),
        block_size: match o.block_size {
            Some(n) => n,
            None => CLI_DEFAULT_BLOCK_SIZE,
        },
        threads,
        verify: o.verify,
        encode: mode != BenchMode::Decompress,
        decode: mode != BenchMode::Compress || o.verify,
    }
}

fn plan(opts: &Options, mode: BenchMode, threads: usize) -> (r: BenchPlan)
    ensures
        r == planned(opts@, mode, threads),
{
    BenchPlan {
        mode,
        iterations: match opts.bench_n {
            Some(n) => n,
            None => 5,
        },
        level: level_of(opts),
        block_size: match opts.block_size {
            Some(n) => n,
            None => CLI_DEFAULT_BLOCK_SIZE,
        },
        threads,
        verify: opts.verify,
        encode: mode != BenchMode::Decompress,
        decode: mode != BenchMode::Compress || opts.verify,
    }
}

/// Plans a benchmark of compressing and decompressing a file, which is needed.
pub fn run(opts: &Options, input: &Option<String>, threads: usize) -> (r: Result<BenchPlan, Error>)
    ensures
        (match input {
            None => r == Err::<BenchPlan, Error>(Error::Other("no input file given")),
            Some(_) => r == Ok::<BenchPlan, Error>(planned(opts@, BenchMode::Both, threads)),
        }),
{
    match input {
        None => Err(Error::Other("no input file given")),
        Some(_) => Ok(plan(opts, BenchMode::Both, threads)),
    }
}

/// Plans a benchmark of compressing a file.
pub fn run_compress(opts: &Options, threads: usize) -> (r: BenchPlan)
    ensures
        r == planned(opts@, BenchMode::Compress, threads),
{
    plan(opts, BenchMode::Compress, threads)
}

/// Plans a benchmark of decompressing a file.
pub fn run_decompress(opts: &Options, threads: usize) -> (r: BenchPlan)
    ensures
        r == planned(opts@, BenchMode::Decompress, threads),
{
    plan(opts, BenchMode::Decompress, threads)
}

/// The options of the streams that a benchmark makes.
pub open spec fn stream_options(p: BenchPlan) -> WriterOptions {
    WriterOptions {
        block_size: p.block_size,
        level: p.level,
        uncompressed: false,
        padding: 0,
        flush_on_write: false,
        generate_index: true,
        append_index: false,
    }
}

/// `r` is a stream that reads as `data`, or it failed: an option is out of range, or there is
/// more data than fits in the index.
pub open spec fn encodes_to(p: BenchPlan, data: Seq<u8>, r: Result<Seq<u8>, Error>) -> bool {
    match mt_writer::mistake(stream_options(p), Some(p.threads)) {
        Some(e) => r == Err::<Seq<u8>, Error>(Error::Stream(e)),
        None => match r {
            Ok(s) => s == in_step::stream_of(stream_options(p), data) && compress::reads_as(
                s,
                data,
            ),
            Err(e) => (e matches Error::Stream(x) && x is Index) && data.len()
                >= 0x200_0000_0000_0000,
        },
    }
}

/// The bytes of a result.
pub open spec fn bytes_of(r: Result<Vec<u8>, Error>) -> Result<Seq<u8>, Error> {
    match r {
        Ok(v) => Ok(v@),
        Err(e) => Err(e),
    }
}

/// Returns the options of the streams that a benchmark makes, for a writer with workers.
/// Whether they are in range is not checked.
pub fn stream_builder(p: &BenchPlan) -> (r: MtWriterBuilder)
    ensures
        r@ == (stream_options(*p), Some(p.threads)),
{
    MtWriterBuilder::new().level(p.level).block_size(p.block_size).concurrency(p.threads)
}

/// Makes a stream of `data` once.
pub fn encode_once(data: &[u8], p: &BenchPlan) -> (r: Result<Vec<u8>, Error>)
    requires
        p.threads >= 1,
    ensures
        encodes_to(*p, data@, bytes_of(r)),
{
    let none: Vec<u8> = Vec::new();
    assert(none@ =~= Seq::<u8>::empty());
    if p.threads <= 1 {
        if p.block_size < MIN_BLOCK_SIZE || p.block_size > MAX_BLOCK_SIZE {
            return Err(
                Error::Stream(
                    stream_error::Error::Config(
                        "block_size must be in [MIN_BLOCK_SIZE, MAX_BLOCK_SIZE]",
                    ),
                ),
            );
        }
        let w = WriterBuilder::new().level(p.level).block_size(p.block_size).build(none);
        stream_single(w, data)
    } else {
        let b = stream_builder(p);
        assert(mt_writer::settled(stream_options(*p)) == stream_options(*p));
        match b.build(none) {
            Err(e) => Err(Error::Stream(e)),
            Ok(w) => stream_with_workers(w, data),
        }
    }
}

/// Returns a copy of `b`.
fn copy_of(b: &[u8]) -> (r: Vec<u8>)
    ensures
        r@ == b@,
{
    let mut v: Vec<u8> = Vec::new();
    append_slice(&mut v, b);
    assert(v@ =~= b@);
    v
}

/// Compresses `data` for one round of a benchmark. Where it is asked to, reads the stream
/// again and compares, which succeeds.
pub fn encode_round(data: &[u8], p: &BenchPlan) -> (r: Result<Vec<u8>, Error>)
    requires
        p.threads >= 1,
    ensures
        encodes_to(*p, data@, bytes_of(r)),
{
    let buf: Vec<u8> = match encode_once(data, p) {
        Err(e) => {
            return Err(e);
        },
        Ok(b) => b,
    };
    if p.verify {
        if let Err(e) = verify_round(buf.as_slice(), data) {
            return Err(e);
        }
    }
    Ok(buf)
}

/// Reads a stream that was made for one round of a benchmark, and compares what it holds
/// with `data`.
pub fn verify_round(encoded: &[u8], data: &[u8]) -> (r: Result<(), Error>)
    ensures
        ({
            let d = reader::drained(reader::fresh(reader::default_options(), encoded@));
            r == (match d.err {
                Some(e) => Err::<(), Error>(Error::Stream(e)),
                None => if d.data == data@ {
                    Ok(())
                } else {
                    Err(Error::Other("bench: verify mismatch"))
                },
            })
        }),
{
    match decompress_stream(copy_of(encoded), 1) {
        Err(e) => Err(e),
        Ok(dec) => {
            if same_bytes(dec.as_slice(), data) {
                Ok(())
            } else {
                Err(Error::Other("bench: verify mismatch"))
            }
        },
    }
}

/// What the rounds of a benchmark decompress, and how much data it holds.
#[derive(Debug)]
pub struct Prepared {
    /// The stream.
    pub encoded: Vec<u8>,
    /// The size of its data.
    pub size: u64,
}

/// Prepares a benchmark: compresses `data` once, or, where `data` is a stream already, reads
/// it once.
pub fn prepare(data: &[u8], p: &BenchPlan) -> (r: Result<Prepared, Error>)
    requires
        p.threads >= 1,
    ensures
        p.mode != BenchMode::Decompress ==> {
            let e: Result<Seq<u8>, Error> = match r {
                Ok(x) => Ok(x.encoded@),
                Err(e) => Err(e),
            };
            &&& encodes_to(*p, data@, e)
            &&& r is Ok ==> (r->Ok_0).size == data.len()
        },
        p.mode == BenchMode::Decompress ==> {
            let d = reader::drained(reader::fresh(reader::default_options(), data@));
            match d.err {
                None => {
                    &&& r is Ok
                    &&& (r->Ok_0).encoded@ == data@
                    &&& (r->Ok_0).size == d.data.len() as u64
                },
                Some(e) => r == Err::<Prepared, Error>(Error::Stream(e)),
            }
        },
{
    match p.mode {
        BenchMode::Decompress => {
            match decompress_stream(copy_of(data), 1) {
                Err(e) => Err(e),
                Ok(probe) => Ok(Prepared { encoded: copy_of(data), size: probe.len() as u64 }),
            }
        },
        _ => {
            match encode_round(data, p) {
                Err(e) => Err(e),
                Ok(encoded) => Ok(Prepared { encoded, size: data.len() as u64 }),
            }
        },
    }
}

/// Reading a stream gives `size` bytes.
pub open spec fn reads_so_much(source: Seq<u8>, size: u64) -> bool {
    let d = reader::drained(reader::fresh(reader::default_options(), source));
    d.err is None && d.data.len() == size
}

/// Reads a stream for one round of a benchmark. Fails where it is malformed, or does not hold
/// `size` bytes of data.
pub fn decode_round(source: Vec<u8>, size: u64) -> (r: Result<u64, Error>)
    ensures
        r is Ok <==> reads_so_much(source@, size),
        ({
            let d = reader::drained(reader::fresh(reader::default_options(), source@));
            r == (match d.err {
                Some(e) => Err::<u64, Error>(Error::Stream(e)),
                None => if d.data.len() == size {
                    Ok(size)
                } else {
                    Err(Error::Other("bench: decoded length mismatch"))
                },
            })
        }),
{
    let data: Vec<u8> = match decompress_stream(source, 1) {
        Err(e) => {
            return Err(e);
        },
        Ok(d) => d,
    };
    if data.len() as u64 != size {
        return Err(Error::Other("bench: decoded length mismatch"));
    }
    Ok(size)
}

/// Reads a stream block by block, and counts.
fn count_blocks(source: Vec<u8>) -> (r: Result<u64, Error>)
    ensures
        ({
            let d = reader::drained(reader::fresh(reader::default_options(), source@));
            match d.err {
                None => r == Ok::<u64, Error>(chunk::wrapping(0, d.data.len() as int)),
                Some(e) => r == Err::<u64, Error>(Error::Stream(e)),
            }
        }),
{
    let mut reader: Reader = Reader::new(source);
    let ghost d = reader::drained(reader@);
    proof {
        silent::lemma_default_silent();
    }
    let mut acc: u64 = 0;
    let ghost mut done: int = 0;
    loop
        invariant
            reader.wf(),
            reader@.err is None,
            silent::silent(reader@.options),
            d == reader::drained(reader::fresh(reader::default_options(), source@)),
            done + reader::drained(reader@).data.len() == d.data.len(),
            done >= 0,
            acc == chunk::wrapping(0, done),
            reader::drained(reader@).err == d.err,
        decreases reader@.source.len() - reader@.at, reader@.pending().len(),
    {
        let ghost v = reader@;
        proof {
            reader::lemma_drained_filled(v);
            reader::lemma_filled_moves(v);
        }
        let found: Result<usize, Error> = match reader.fill_buf() {
            Err(e) => Err(Error::Stream(e)),
            Ok(b) => Ok(b.len()),
        };
        let ghost u = reader@;
        proof {
            silent::lemma_silent_fill(v, u, reader::filled(v.told(u.answers)).1);
        }
        let n: usize = match found {
            Err(e) => {
                return Err(e);
            },
            Ok(n) => n,
        };
        if n == 0 {
            return Ok(acc);
        }
        acc = acc.wrapping_add(n as u64);
        reader.consume(n);
        proof {
            reader::lemma_drained_take(u, n as int);
            assert(reader@ =~= ReaderView { pos: u.pos + n, ..u });
            done = done + n;
        }
    }
}

/// Reads a stream in another way for one round of a benchmark: with workers, or block by
/// block without copying. Fails where it is malformed, or does not hold `size` bytes of data.
pub fn alt_decode_round(source: Vec<u8>, threads: usize, size: u64) -> (r: Result<u64, Error>)
    ensures
        ({
            let d = reader::drained(reader::fresh(reader::default_options(), source@));
            match d.err {
                Some(e) => {
                    &&& r matches Err(Error::Stream(_))
                    &&& threads <= 1 ==> r == Err::<u64, Error>(Error::Stream(e))
                },
                None => r == (if chunk::wrapping(0, d.data.len() as int) == size {
                    Ok::<u64, Error>(size)
                } else {
                    Err(Error::Other("bench: alt-decode length mismatch"))
                }),
            }
        }),
{
    let n: u64 = if threads > 1 {
        let mut reader: Reader = Reader::new(source);
        let ghost v = reader@;
        let r = reader.decode_concurrent(Vec::new(), threads);
        proof {
            let w = v.told(reader@.answers);
            silent::lemma_default_silent();
            silent::lemma_silent_drained(v, reader@.answers);
            assert(w.pending() =~= Seq::<u8>::empty());
            concurrent::law_concurrent_matches_reading(w);
        }
        match r {
            Err(e) => {
                return Err(Error::Stream(e));
            },
            Ok(d) => d.bytes_written,
        }
    } else {
        match count_blocks(source) {
            Err(e) => {
                return Err(e);
            },
            Ok(n) => n,
        }
    };
    decoded_so_much(n, size)
}

/// Whether as much was read as there should be; returns how much.
pub fn decoded_so_much(n: u64, size: u64) -> (r: Result<u64, Error>)
    ensures
        r == (if n == size {
            Ok::<u64, Error>(size)
        } else {
            Err(Error::Other("bench: alt-decode length mismatch"))
        }),
{
    if n != size {
        return Err(Error::Other("bench: alt-decode length mismatch"));
    }
    Ok(size)
}

/// A stream that was prepared holds as many bytes as were noted, in every way of reading it.
pub proof fn law_prepared_reads(p: BenchPlan, data: Seq<u8>, encoded: Seq<u8>)
    requires
        data.len() <= u64::MAX,
        encodes_to(p, data, Ok(encoded)),
    ensures
        reads_so_much(encoded, data.len() as u64),
        chunk::wrapping(
            0,
            reader::drained(
                reader::fresh(reader::default_options(), encoded),
            ).data.len() as int,
        ) == data.len(),
{
}

} // verus!
