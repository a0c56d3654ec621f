use minlz::mz::args::{parse, Arg, Cli, ParseError, Subcommand};
use minlz::mz::bench::{
    self, alt_decode_round, decode_round, encode_round, prepare, BenchMode, BenchPlan,
};
use minlz::mz::compress::{self, compress_block, compress_stream, CompressJob};
use minlz::mz::decompress::{
    self, decompress_block, decompress_stream, decompress_stream_seek, seek_range, Cutter,
    DecompressJob,
};
use minlz::mz::error::Error;
use minlz::mz::io_util::{resolve_threads, CountingReader, CountingWriter};
use minlz::mz::path::{
    extension_matches, is_compressed_filename, is_stdio_path, strip_extension,
};
use minlz::mz::size::{parse_size, parse_size_with_nl, parse_units, trim};
use minlz::mz::verify;
use minlz::stream::{self, Concurrency};
use minlz::{Error as BlockError, Level};

fn cli(args: &[&str]) -> Cli {
    let args: Vec<Arg> = args.iter().map(|s| Arg::new(s)).collect();
    parse(&args).unwrap()
}

fn refused(args: &[&str]) -> ParseError {
    let args: Vec<Arg> = args.iter().map(|s| Arg::new(s)).collect();
    parse(&args).unwrap_err()
}

fn sample_payload(seed: u64, size: usize) -> Vec<u8> {
    let mut v = Vec::with_capacity(size);
    let mut x = seed;
    while v.len() < size {
        x = x.wrapping_mul(6364136223846793005).wrapping_add(0x1234);
        let chunk = format!("line {x:016x}: {}\n", "the quick brown fox ".repeat(3));
        v.extend_from_slice(chunk.as_bytes());
    }
    v.truncate(size);
    v
}

#[test]
fn round_trip_each_level() {
    let payload = sample_payload(42, 64 * 1024);
    for level in ["-1", "-2", "-3"] {
        for threads in [1, 4] {
            let c = cli(&["c", level, "-q", "input.txt"]);
            let mz = compress_stream(&payload, &c.options, threads).unwrap();
            assert!(mz.len() < payload.len());
            assert_eq!(decompress_stream(mz.clone(), 1).unwrap(), payload);
            assert_eq!(decompress_stream(mz, 3).unwrap(), payload);
        }
    }
}

#[test]
fn block_round_trip() {
    let payload = sample_payload(7, 32 * 1024);
    let c = cli(&["c", "--block", "-q", "input.txt"]);
    let mzb = compress_block(&payload, &c.options).unwrap();
    assert!(mzb.len() < payload.len());
    assert_eq!(decompress_block(&mzb).unwrap(), payload);
}

#[test]
fn verify_subcommand_succeeds_on_valid_mz() {
    let payload = sample_payload(11, 8 * 1024);
    let c = cli(&["c", "-q", "input.txt"]);
    let mz = compress_stream(&payload, &c.options, 2).unwrap();
    let v = cli(&["verify", "input.txt.mz"]);
    assert_eq!(v.subcommand, Subcommand::Verify);
    assert_eq!(verify::run(&v.options, &v.input), Ok(false));
    assert_eq!(verify::verify(mz, false), Ok(8 * 1024));
}

#[test]
fn verify_subcommand_fails_on_garbage() {
    let garbage = b"\x00\x01\x02not a real mz stream".to_vec();
    assert_eq!(
        verify::verify(garbage, false),
        Err(Error::Stream(stream::Error::Corrupt))
    );
}

#[test]
fn stdin_stdout_pipe() {
    let payload = sample_payload(99, 16 * 1024);
    let c = cli(&["c", "-c", "-q", "-"]);
    assert_eq!(compress::dest_path("-", &c.options, "mz"), "-");
    let mz = compress_stream(&payload, &c.options, 1).unwrap();
    let d = cli(&["d", "-c", "-q", "-"]);
    assert_eq!(decompress::dest_path("-", &d.options), "-");
    assert_eq!(decompress_stream(mz, 1).unwrap(), payload);
}

#[test]
fn auto_detect_compress_from_extension() {
    let c = cli(&["-1", "-q", "input.txt"]);
    assert_eq!(c.subcommand, Subcommand::Compress);
    assert_eq!(compress::dest_path("input.txt", &c.options, "mz"), "input.txt.mz");
}

#[test]
fn auto_detect_decompress_from_extension() {
    let c = cli(&["-q", "-o", "input.out", "input.txt.mz"]);
    assert_eq!(c.subcommand, Subcommand::Decompress);
    assert_eq!(decompress::dest_path("input.txt.mz", &c.options), "input.out");
}

#[test]
fn a_file_returns_to_where_it_was() {
    let c = cli(&["c", "x"]);
    let d = cli(&["d", "x"]);
    for p in ["a", "dir/file.txt", "./x", "a.b.c", ".hidden", "dir.d/name"] {
        let mz = compress::dest_path(p, &c.options, "mz");
        assert!(is_compressed_filename(&mz));
        assert_eq!(decompress::dest_path(&mz, &d.options), p);
        let mzb = compress::dest_path(p, &c.options, "mzb");
        assert!(extension_matches(&mzb, "mzb"));
        assert_eq!(decompress::dest_path(&mzb, &d.options), p);
    }
    assert_eq!(decompress::dest_path("plain", &d.options), "plain.out");
    let v = cli(&["d", "--verify", "x.mz"]);
    assert_eq!(decompress::dest_path("x.mz", &v.options), "(verify)");
}

#[test]
fn paths_like_those_of_files() {
    assert!(is_compressed_filename("a.mz"));
    assert!(is_compressed_filename("a.mz/"));
    assert!(is_compressed_filename("a.mz/."));
    assert!(!is_compressed_filename(".mz"));
    assert!(!is_compressed_filename("dir.mz/.."));
    assert!(!is_compressed_filename("dir.mz/file"));
    assert!(!is_compressed_filename(""));
    assert!(!is_compressed_filename("/"));
    assert!(extension_matches("a.", ""));
    assert!(!extension_matches("a", ""));
    assert_eq!(strip_extension("a.mz/"), "a");
    assert_eq!(strip_extension("d.e/a"), "d.e/a");
    assert!(is_stdio_path("-"));
    assert!(is_stdio_path("-/."));
    assert!(!is_stdio_path("./-"));
    assert!(!is_stdio_path("--"));
    for p in ["a.mz", "a/b.c", ".x", "..", "a/..", "a/.", ".", "/", "a.", "a..b", "x/.y.z", ""] {
        let want = std::path::Path::new(p).extension().and_then(|e| e.to_str());
        for e in ["mz", "c", "", "b", "y", "z", "x"] {
            assert_eq!(extension_matches(p, e), want == Some(e), "{p} {e}");
        }
        let same = std::path::Path::new(p) == std::path::Path::new("-");
        assert_eq!(is_stdio_path(p), same, "{p}");
    }
}

#[test]
fn sizes_with_units() {
    assert_eq!(parse_size(" 7k "), Ok(7 << 10));
    assert_eq!(parse_size("+3 "), Ok(3));
    assert_eq!(parse_size("1tib"), Ok(1 << 40));
    assert_eq!(parse_size("5B"), Ok(5));
    assert_eq!(parse_size("18446744073709551615"), Ok(u64::MAX));
    assert_eq!(parse_size("18446744073709551616"), Err("not a number"));
    assert_eq!(parse_size("16777216T"), Err("size overflow"));
    assert_eq!(parse_size("K"), Err("not a number"));
    assert_eq!(parse_size("-1"), Err("not a number"));
    assert_eq!(parse_size("1 K"), Err("not a number"));
    assert_eq!(parse_size("4\u{e9}"), Err("unknown size suffix"));
    assert_eq!(parse_size("4\u{b2}"), Err("not a number"));
    assert_eq!(parse_size("4m\u{131}b"), Ok(4 << 20));
    assert_eq!(parse_size("\u{3000}9\u{a0}"), Ok(9));
    assert_eq!(parse_units("12", "GIB"), Ok(12 << 30));
    assert_eq!(parse_units("12", "gib"), Err("unknown size suffix"));
    assert_eq!(trim("\t a b \n"), "a b");
    assert_eq!(parse_size_with_nl("2M+nl"), Ok((2 << 20, true)));
    assert_eq!(parse_size_with_nl("2M"), Ok((2 << 20, false)));
    assert_eq!(parse_size_with_nl("+nl"), Ok((0, true)));
    assert_eq!(parse_size_with_nl("x+nl"), Err("not a number"));
}

#[test]
fn every_error_of_the_arguments() {
    let e = refused(&["c", "--bogus=1", "x"]);
    assert_eq!(e.message(), "unknown flag: --bogus");
    let e = refused(&["c", "-z", "x"]);
    assert_eq!(e.message(), "unknown flag: -z");
    let e = refused(&["c", "-c=1", "x"]);
    assert_eq!(e.message(), "unknown flag: -=");
    let e = refused(&["c", "--bogus"]);
    assert_eq!(e.message(), "missing value for --bogus");
    let e = refused(&["c", "x", "-o"]);
    assert_eq!(e.message(), "missing value for -o");
    let e = refused(&["c", "--level", "9", "x"]);
    assert_eq!(e.message(), "invalid value for --level: 9");
    let e = refused(&["c", "--threads=0", "x"]);
    assert_eq!(e.message(), "invalid value for --threads: must be \u{2265} 1");
    let e = refused(&["c", "--cpu=x", "x"]);
    assert_eq!(e.message(), "invalid value for --cpu: x");
    let e = refused(&["c", "--index=maybe", "x"]);
    assert_eq!(e.message(), "invalid value for --index: maybe");
    let e = refused(&["c", "--bench=4294967296", "x"]);
    assert_eq!(e.message(), "invalid value for --bench: 4294967296");
    for flag in ["block-size", "pad", "offset", "tail"] {
        let e = refused(&["c", &format!("--{flag}=?"), "x"]);
        assert_eq!(e.message(), format!("invalid value for --{flag}: ?"));
    }
    assert_eq!(
        refused(&[]).message(),
        "no subcommand or input file given; try: mz c <file> | mz d <file> | mz --help"
    );
    assert_eq!(refused(&["-0", "-1", "x"]).message(), "conflicting compression levels");
    assert_eq!(refused(&["c", "x", "y"]).message(), "only one input file is supported");
    let bad = [
        Arg::new("c"),
        Arg::new("--output"),
        Arg { text: "?".to_string(), utf8: false },
    ];
    assert_eq!(
        parse(&bad).unwrap_err().message(),
        "invalid value for --output: <non-utf8>"
    );
}

#[test]
fn flags_of_every_form() {
    let e = refused(&["-oFILE", "x"]);
    assert_eq!(e.message(), "unknown flag: --oFILE");
    let c = cli(&["-o=FILE", "x"]);
    assert_eq!(c.options.output.as_deref(), Some("=FILE"));
    let c = cli(&["-offset", "64K", "x.mz"]);
    assert_eq!(c.options.offset, Some(64 << 10));
    let c = cli(&["-index=false", "x"]);
    assert!(!c.options.index);
    let c = cli(&["--no-index", "--index=yes", "x"]);
    assert!(c.options.index);
    let c = cli(&["--rm", "--quiet", "--verify", "--stdout", "-q", "x"]);
    assert!(c.options.remove && c.options.quiet && c.options.verify && c.options.stdout);
    let c = cli(&["--pad=4294967297", "x"]);
    assert_eq!(c.options.padding, Some(1));
    let c = cli(&["--threads", "3", "x"]);
    assert_eq!(resolve_threads(c.options.threads, Concurrency::one()), 3);
    let c = cli(&["c", "-", "-"]);
    assert_eq!(c.input.as_deref(), Some("-"));
    let c = cli(&["x", "c"]);
    assert_eq!((c.subcommand, c.input.as_deref()), (Subcommand::Compress, Some("x")));
    let c = cli(&["--help"]);
    assert!(c.options.help && c.input.is_none());
    let c = cli(&["-help", "x.mz"]);
    assert!(c.options.help && c.subcommand == Subcommand::Decompress);
    let c = cli(&["bench", "x"]);
    assert_eq!(c.options.bench_n, Some(5));
}

#[test]
fn what_to_do_with_a_file() {
    let c = cli(&["c", "x"]);
    assert_eq!(compress::run(&c.options, &c.input, 4), Ok(CompressJob::Stream(4)));
    assert_eq!(
        compress::run(&c.options, &None, 4),
        Err(Error::Other("no input file given (use - for stdin)"))
    );
    let c = cli(&["c", "--block", "x"]);
    assert_eq!(compress::run(&c.options, &c.input, 4), Ok(CompressJob::Block));
    let c = cli(&["c", "--block", "--bench=2", "x"]);
    assert_eq!(compress::run(&c.options, &c.input, 4), Ok(CompressJob::Bench));
    let job = |args: &[&str]| {
        let c = cli(args);
        decompress::run(&c.options, &c.input, 4).unwrap()
    };
    assert_eq!(job(&["d", "x.mz"]), DecompressJob::Stream(4));
    assert_eq!(job(&["d", "--verify", "x.mz"]), DecompressJob::Stream(1));
    assert_eq!(job(&["d", "x.mzb"]), DecompressJob::Block);
    assert_eq!(job(&["d", "--tail=1", "x.mz"]), DecompressJob::Seek);
    assert_eq!(job(&["d", "--offset=1", "x.mz"]), DecompressJob::Seek);
    assert_eq!(job(&["d", "--follow", "--offset=1", "x.mz"]), DecompressJob::Follow);
    assert_eq!(job(&["d", "--bench=1", "x.mzb"]), DecompressJob::Bench);
    let v = cli(&["verify", "x.mzb"]);
    assert_eq!(verify::run(&v.options, &v.input), Ok(true));
    assert_eq!(verify::run(&v.options, &None), Err(Error::Other("no input file given")));
    assert_eq!(verify::verify(vec![0], true), Ok(0));
}

#[test]
fn parts_of_a_file() {
    assert_eq!(seek_range(Some(3), None, 10), (3, 7));
    assert_eq!(seek_range(Some(30), None, 10), (30, 0));
    assert_eq!(seek_range(None, Some(4), 10), (6, 4));
    assert_eq!(seek_range(None, Some(40), 10), (0, 10));
    assert_eq!(seek_range(Some(2), Some(3), 10), (2, 3));
    assert_eq!(seek_range(Some(8), Some(u64::MAX), 10), (8, 2));
    assert_eq!(seek_range(Some(u64::MAX), Some(1), 10), (u64::MAX, 0));

    let payload = sample_payload(5, 3 << 20);
    let c = cli(&["c", "--block-size=64K", "x"]);
    let mz = compress_stream(&payload, &c.options, 1).unwrap();
    let total = payload.len() as u64;
    let part = |args: &[&str]| decompress_stream_seek(mz.clone(), &cli(args).options);
    let (got, n) = part(&["d", "--offset=2000000", "x.mz"]).unwrap();
    assert_eq!((&got[..], n), (&payload[2_000_000..], total));
    let (got, _) = part(&["d", "--tail=1000", "x.mz"]).unwrap();
    assert_eq!(got, &payload[payload.len() - 1000..]);
    let (got, _) = part(&["d", "--offset=70000", "--tail=9", "x.mz"]).unwrap();
    assert_eq!(got, &payload[70_000..70_009]);
    let (got, _) = part(&["d", "--offset=70000+nl", "x.mz"]).unwrap();
    let line = 70_000 + payload[70_000..].iter().position(|&b| b == b'\n').unwrap() + 1;
    assert_eq!(got, &payload[line..]);
    let (got, _) = part(&["d", "--tail=5+nl", "x.mz"]).unwrap();
    assert_eq!(got, b"");
    assert_eq!(
        part(&["d", "--offset=4M", "x.mz"]).unwrap_err(),
        Error::Stream(stream::Error::UnexpectedEof)
    );

    let c = cli(&["c", "--no-index", "x"]);
    let bare = compress_stream(&payload, &c.options, 1).unwrap();
    let e = decompress_stream_seek(bare, &cli(&["d", "--tail=1", "x.mz"]).options).unwrap_err();
    assert!(matches!(e, Error::NoIndex(stream::Error::Index(_))));
    assert!(e.message().starts_with("--offset / --tail require an index in the stream: "));
}

#[test]
fn the_start_that_is_left_out() {
    let data: Vec<&[u8]> = vec![b"ab", b"", b"cd\ne", b"f\ng"];
    let run = |skip: u64, line: bool| {
        let mut c = Cutter::new(skip, line);
        let mut out = Vec::new();
        for b in &data {
            let from = c.pass(b);
            out.extend_from_slice(&b[from..]);
        }
        out
    };
    assert_eq!(run(0, false), b"abcd\nef\ng");
    assert_eq!(run(3, false), b"d\nef\ng");
    assert_eq!(run(0, true), b"ef\ng");
    assert_eq!(run(5, true), b"g");
    assert_eq!(run(8, true), b"");
    assert_eq!(run(100, false), b"");
}

#[test]
fn options_out_of_range() {
    let c = cli(&["c", "--block-size=1", "x"]);
    for threads in [1, 2] {
        assert_eq!(
            compress_stream(b"x", &c.options, threads).unwrap_err(),
            Error::Stream(stream::Error::Config(
                "block_size must be in [MIN_BLOCK_SIZE, MAX_BLOCK_SIZE]"
            ))
        );
    }
    let c = cli(&["c", "--pad=9M", "x"]);
    for threads in [1, 2] {
        let e = compress_stream(b"x", &c.options, threads).unwrap_err();
        assert_eq!(e.message(), "minlz: invalid option: padding must be \u{2264} MAX_BLOCK_SIZE");
    }
    let c = cli(&["c", "--pad=512", "--no-index", "x"]);
    for threads in [1, 2] {
        assert_eq!(compress_stream(b"xyz", &c.options, threads).unwrap().len(), 512);
    }
    let c = cli(&["c", "--block", "--verify", "x"]);
    let big = vec![0u8; minlz::MAX_BLOCK_SIZE + 1];
    assert_eq!(
        compress_block(&big, &c.options).unwrap_err().message(),
        "maximum block size of 8 MiB exceeded"
    );
    assert!(compress_block(&big[1..], &c.options).unwrap().len() < 100);
    assert_eq!(
        decompress_block(b"\x00").unwrap(),
        b"",
    );
    assert!(matches!(
        decompress_block(b""),
        Err(Error::Block(BlockError::Corrupt(_)))
    ));
}

#[test]
fn threads_do_not_show() {
    let payload = sample_payload(8, 300_000);
    for args in [&["c", "--block-size=8K", "x"][..], &["c", "-0", "--pad=4K", "x"][..]] {
        let c = cli(args);
        let one = compress_stream(&payload, &c.options, 1).unwrap();
        for threads in [2, 5] {
            assert_eq!(compress_stream(&payload, &c.options, threads).unwrap(), one);
        }
    }
}

#[test]
fn rounds_of_a_benchmark() {
    let c = cli(&["bench", "--verify", "--block-size=4K", "-3", "x"]);
    let data = sample_payload(3, 20_000);
    for threads in [1, 3] {
        let p = bench::run(&c.options, &c.input, threads).unwrap();
        assert_eq!(
            p,
            BenchPlan {
                mode: BenchMode::Both,
                iterations: 5,
                level: Level::Smallest,
                block_size: 4096,
                threads,
                verify: true,
                encode: true,
                decode: true,
            }
        );
        let prepared = prepare(&data, &p).unwrap();
        assert_eq!(prepared.size, 20_000);
        assert_eq!(encode_round(&data, &p).unwrap(), prepared.encoded);
        assert_eq!(decode_round(prepared.encoded.clone(), 20_000), Ok(20_000));
        assert_eq!(alt_decode_round(prepared.encoded.clone(), threads, 20_000), Ok(20_000));
        assert_eq!(
            decode_round(prepared.encoded.clone(), 1),
            Err(Error::Other("bench: decoded length mismatch"))
        );
        assert_eq!(
            alt_decode_round(prepared.encoded.clone(), threads, 1),
            Err(Error::Other("bench: alt-decode length mismatch"))
        );
        let d = bench::run_decompress(&c.options, threads);
        assert_eq!((d.encode, d.decode), (false, true));
        let again = prepare(&prepared.encoded, &d).unwrap();
        assert_eq!((again.size, &again.encoded), (20_000, &prepared.encoded));
        assert!(prepare(&data, &d).is_err());
    }
    let quick = cli(&["c", "--bench=2", "x"]);
    let p = bench::run_compress(&quick.options, 1);
    assert_eq!((p.encode, p.decode, p.iterations), (true, false, 2));
    assert!(bench::run(&c.options, &None, 1).is_err());
}

#[test]
fn counts_of_bytes() {
    let mut r = CountingReader::new(7u8);
    assert_eq!(r.bytes, 0);
    r.record(5);
    r.record(6);
    *r.get_mut() = 9;
    assert_eq!((r.bytes, *r.get_mut()), (11, 9));
    let mut w = CountingWriter::new(Vec::<u8>::new());
    w.get_mut().push(1);
    w.record(1);
    assert_eq!((w.bytes, w.get_mut().len()), (1, 1));
}
