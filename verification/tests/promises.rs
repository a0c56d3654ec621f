use minlz::block::emit::{emit_literal, emit_literal_size_n};
use minlz::block::encode_l1;
use minlz::block::decode::minlz_decode;
use minlz::error::ErrorKind;
use minlz::mz::args::{parse, Arg, Cli};
use minlz::mz::bench::{decoded_so_much, verify_round};
use minlz::mz::decompress::{self, DecompressJob};
use minlz::mz::error::Error as ToolError;
use minlz::stream::{
    Error, MtWriter, ReadSeeker, Reader, ReaderBuilder, SeekFrom, UserChunkHandler, Writer,
    WriterBuilder, MIN_BLOCK_SIZE,
};
use minlz::{index_stream, Index};
use std::cell::RefCell;
use std::rc::Rc;

fn payload(n: usize) -> Vec<u8> {
    let mut x: u32 = 11;
    (0..n)
        .map(|i| {
            x = x.wrapping_mul(1664525).wrapping_add(1013904223);
            if i % 50 < 30 {
                b'k' + (i % 5) as u8
            } else {
                (x >> 24) as u8
            }
        })
        .collect()
}

fn stream_of(data: &[u8]) -> Vec<u8> {
    let mut w = WriterBuilder::new().block_size(MIN_BLOCK_SIZE).build(Vec::new());
    w.write_all(data).unwrap();
    w.finish().unwrap()
}

fn rest_of(r: &mut Reader) -> Vec<u8> {
    let mut out = Vec::new();
    r.read_to_end(&mut out).unwrap();
    out
}

fn cli(args: &[&str]) -> Cli {
    let args: Vec<Arg> = args.iter().map(|s| Arg::new(s)).collect();
    parse(&args).unwrap()
}

#[test]
fn the_size_of_a_literal_header_is_what_is_written() {
    assert_eq!(emit_literal_size_n(0), 0);
    for n in [1usize, 29, 30, 284, 285, 65565, 65566] {
        let mut out = Vec::new();
        emit_literal(&mut out, &vec![7u8; n]);
        assert_eq!(out.len() - n, emit_literal_size_n(n), "{n}");
    }
    assert_eq!(emit_literal_size_n(65565), 3);
    assert_eq!(emit_literal_size_n(65566), 4);
}

#[test]
fn an_index_is_thinned_before_it_holds_too_many_entries() {
    let mut idx = Index::new();
    idx.reset(1 << 20);
    for i in 0..65535u64 {
        assert_eq!(idx.add(i * 700, i << 20), Ok(()));
    }
    assert_eq!(idx.offsets().len(), 65535);
    assert_eq!(idx.est_block_uncomp(), 1 << 20);
    assert_eq!(idx.add(65535 * 700, 65535 << 20), Ok(()));
    assert_eq!(idx.offsets().len(), 32768);
    assert_eq!(idx.est_block_uncomp(), 2 << 20);
}

#[test]
fn what_was_taken_in_is_counted() {
    let mut w = Writer::new(Vec::new());
    w.write_all(b"hello").unwrap();
    assert_eq!(w.written(), (5, 0));
    w.flush().unwrap();
    let (n, m) = w.written();
    assert_eq!(n, 5);
    assert!(m > 0);
    let mut m = MtWriter::new(Vec::new());
    m.write_all(b"hello").unwrap();
    assert_eq!(m.uncompressed_written(), 5);
}

#[test]
fn a_failed_skip_fails_for_good() {
    let mut r = Reader::new(vec![0xff, 0x06]);
    assert_eq!(r.skip(1).unwrap_err().kind(), ErrorKind::InvalidData);
    assert_eq!(r.read(&mut [0u8; 1]).unwrap_err().kind(), ErrorKind::InvalidData);
    assert_eq!(r.skip(1), Err(Error::Corrupt));
}

#[test]
fn workers_do_not_go_on_after_reads() {
    let s = stream_of(b"hello");
    let mut r = Reader::new(s.clone());
    r.read_exact(&mut [0u8; 5]).unwrap();
    let e = r.decode_concurrent(Vec::new(), 4).unwrap_err();
    assert_eq!(e.kind(), ErrorKind::InvalidInput);
    let mut r = Reader::new(s.clone());
    r.skip(5).unwrap();
    assert_eq!(
        r.decode_concurrent(Vec::new(), 4).unwrap_err().kind(),
        ErrorKind::InvalidInput
    );
    let mut r = Reader::new(s.clone());
    assert_eq!(rest_of(&mut r), b"hello");
    assert_eq!(
        r.decode_concurrent(Vec::new(), 4).unwrap_err().kind(),
        ErrorKind::InvalidInput
    );
    r.reset(s);
    assert_eq!(r.decode_concurrent(Vec::new(), 4).unwrap().writer, b"hello");
}

type Log = Rc<RefCell<Vec<(u8, Vec<u8>)>>>;

/// Refuses the user chunks with a payload like its own, and those behind so many.
struct Picky {
    payload: &'static [u8],
    left: usize,
    kind: ErrorKind,
    seen: Log,
}

impl UserChunkHandler for Picky {
    fn user_chunk(&mut self, id: u8, payload: &[u8]) -> Result<(), Error> {
        self.seen.borrow_mut().push((id, payload.to_vec()));
        if payload == self.payload || self.left == 0 {
            return Err(Error::Other(self.kind, "picky"));
        }
        self.left -= 1;
        Ok(())
    }
}

/// A stream with four blocks and a user chunk behind each, and a callback for one type.
fn picky(payload: &'static [u8], left: usize, kind: ErrorKind) -> (Reader, Log) {
    let mut w = Writer::new(Vec::new());
    for (data, id, user) in [
        (b"one ", 0x90, b"a"),
        (b"two ", 0x91, b"b"),
        (b"tri ", 0x90, b"c"),
        (b"for ", 0x90, b"d"),
    ] {
        w.write_all(data).unwrap();
        w.add_user_chunk(id, user).unwrap();
    }
    let seen = Rc::new(RefCell::new(Vec::new()));
    let cb = Picky { payload, left, kind, seen: seen.clone() };
    let r = ReaderBuilder::new().user_chunk_callback(0x90, cb).build(w.finish().unwrap());
    (r, seen)
}

#[test]
fn a_callback_is_asked_for_each_chunk() {
    let (mut r, seen) = picky(b"x", 9, ErrorKind::Other);
    assert_eq!(rest_of(&mut r), b"one two tri for ");
    assert_eq!(
        *seen.borrow(),
        [(0x90, b"a".to_vec()), (0x90, b"c".to_vec()), (0x90, b"d".to_vec())]
    );
    let (mut r, seen) = picky(b"x", 9, ErrorKind::Other);
    r.skip(9).unwrap();
    assert_eq!(seen.borrow().len(), 1);
    assert_eq!(rest_of(&mut r), b"ri for ");
    assert_eq!(seen.borrow().len(), 3);
    let (mut r, seen) = picky(b"x", 9, ErrorKind::Other);
    assert_eq!(r.decode_concurrent(Vec::new(), 2).unwrap().writer, b"one two tri for ");
    assert_eq!(seen.borrow().len(), 3);
}

#[test]
fn a_callback_refuses_by_payload_or_count() {
    let mut out = Vec::new();
    let (mut r, seen) = picky(b"c", 9, ErrorKind::PermissionDenied);
    let e = Error::Other(ErrorKind::PermissionDenied, "picky");
    assert_eq!(r.read_to_end(&mut out), Err(e));
    assert_eq!(out, b"one two tri ");
    assert_eq!(*seen.borrow(), [(0x90, b"a".to_vec()), (0x90, b"c".to_vec())]);
    assert_eq!(r.read(&mut [0]), Err(e));
    assert_eq!(r.skip(1), Err(e));
    assert_eq!(r.fill_buf(), Err(e));
    assert_eq!(seen.borrow().len(), 2);
    let (mut r, seen) = picky(b"x", 2, ErrorKind::TimedOut);
    assert_eq!(r.skip(17).unwrap_err().kind(), ErrorKind::TimedOut);
    assert_eq!(seen.borrow().len(), 3);
    let (mut r, _) = picky(b"a", 9, ErrorKind::NotFound);
    let mut some = [0; 5];
    assert_eq!(r.read_exact(&mut some).unwrap_err().kind(), ErrorKind::NotFound);
    assert_eq!(&some[..4], b"one ");
    let (mut r, _) = picky(b"d", 9, ErrorKind::NotFound);
    assert_eq!(
        r.decode_concurrent(Vec::new(), 2).unwrap_err(),
        Error::Other(ErrorKind::NotFound, "picky")
    );
}

#[test]
fn the_last_callback_for_a_type_counts() {
    let mut w = Writer::new(Vec::new());
    w.add_user_chunk(0x90, b"no").unwrap();
    let s = w.finish().unwrap();
    let cb = |left| Picky {
        payload: b"",
        left,
        kind: ErrorKind::Unsupported,
        seen: Rc::new(RefCell::new(Vec::new())),
    };
    let build = |a, b| {
        ReaderBuilder::new()
            .user_chunk_callback(0x90, cb(a))
            .user_chunk_callback(0x90, cb(b))
            .build(s.clone())
    };
    assert_eq!(build(0, 1).read(&mut [0]), Ok(0));
    assert_eq!(build(1, 0).read(&mut [0]).unwrap_err().kind(), ErrorKind::Unsupported);
}

#[test]
fn seeking_in_a_stream_without_data() {
    for user in [false, true] {
        let mut w = WriterBuilder::new().append_index().build(Vec::new());
        if user {
            w.add_user_chunk(0x85, b"only").unwrap();
        }
        let s = w.finish().unwrap();
        let mut rs = ReadSeeker::new(Reader::new(s), &[]).unwrap();
        assert_eq!(rs.seek(SeekFrom::Start(0)), Ok(0));
        assert_eq!(rs.read(&mut [0; 3]), Ok(0));
        assert_eq!(rs.seek(SeekFrom::End(0)), Ok(0));
        assert_eq!(rs.seek(SeekFrom::Current(0)), Ok(0));
        assert_eq!(rs.seek(SeekFrom::Start(1)), Err(Error::UnexpectedEof));
        assert_eq!(rs.seek(SeekFrom::End(-1)).unwrap_err().kind(), ErrorKind::InvalidInput);
        assert_eq!(rs.seek(SeekFrom::Start(0)), Ok(0));
        assert_eq!(rs.read_at(&mut [0; 3], 0), Ok(0));
        assert_eq!(rs.read_exact_at(&mut [0; 3], 0), Err(Error::UnexpectedEof));
    }
}

#[test]
fn tail_that_follows() {
    let c = cli(&["tail", "--follow", "x.mz"]);
    assert!(c.options.follow && c.options.stdout);
    assert_eq!(c.options.tail, None);
    assert_eq!(decompress::run(&c.options, &c.input, 4), Ok(DecompressJob::Follow));
    let c = cli(&["tail", "x.mz"]);
    assert_eq!(c.options.tail, Some(1024));
}

#[test]
fn the_index_is_switched_on() {
    let c = cli(&["c", "--index", "x"]);
    assert!(c.options.index);
    assert_eq!(c.input.as_deref(), Some("x"));
    let c = cli(&["c", "--no-index", "--index", "x"]);
    assert!(c.options.index);
    let c = cli(&["c", "--index", "--no-index", "x"]);
    assert!(!c.options.index);
    let c = cli(&["c", "--index=no", "x"]);
    assert!(!c.options.index);
}

#[test]
fn any_number_of_writes() {
    let data = payload(9000);
    let whole = stream_of(&data);
    for cuts in [vec![], vec![1, 1, 1], vec![0, 4096, 4096, 5000], vec![100, 4196, 8999]] {
        let mut w = WriterBuilder::new().block_size(MIN_BLOCK_SIZE).build(Vec::new());
        let mut at = 0;
        for c in cuts {
            assert_eq!(w.write(&data[at..c]), Ok(c - at));
            at = c;
        }
        assert_eq!(w.write(&data[at..]), Ok(data.len() - at));
        assert_eq!(w.finish().unwrap(), whole);
    }
}

#[test]
fn a_writer_that_starts_over_is_as_new() {
    let data = payload(6000);
    let mut w = WriterBuilder::new().block_size(MIN_BLOCK_SIZE).build(Vec::new());
    w.write_all(&data).unwrap();
    w.reset(b"at".to_vec());
    assert_eq!(w.written(), (0, 0));
    let mut n = WriterBuilder::new().block_size(MIN_BLOCK_SIZE).build(b"at".to_vec());
    for w in [&mut w, &mut n] {
        w.write_all(&data[..5000]).unwrap();
        w.add_user_chunk(0x81, b"u").unwrap();
        assert_eq!(
            w.add_user_chunk(3, b"u"),
            Err(Error::UserChunkId(3))
        );
        w.flush().unwrap();
        w.write_all(&data[5000..]).unwrap();
    }
    assert_eq!(w.sink(), n.sink());
    assert_eq!(w.close_index().unwrap(), n.close_index().unwrap());
}

#[test]
fn the_index_that_a_writer_returns() {
    let data = payload(3 << 20);
    let mut w = WriterBuilder::new().block_size(1 << 20).build(Vec::new());
    w.write_all(&data).unwrap();
    let (sink, b) = w.close_index().unwrap();
    let mut idx = Index::new();
    assert!(idx.load(&b).unwrap().is_empty());
    assert_eq!(idx.total_uncompressed(), Some(data.len() as u64));
    assert_eq!(idx.total_compressed(), Some(sink.len() as u64));
    let mut w = WriterBuilder::new().block_size(1 << 20).build(Vec::new());
    w.write_all(&data).unwrap();
    assert_eq!(w.finish().unwrap(), sink);
    let w = WriterBuilder::new().generate_index(false).build(Vec::new());
    assert_eq!(w.close_index().unwrap_err().kind(), ErrorKind::InvalidInput);
}

#[test]
fn the_index_that_is_built_from_a_stream() {
    let data = payload(3 << 20);
    let mut w = WriterBuilder::new().block_size(1 << 20).build(Vec::new());
    w.add_user_chunk(0x80, b"first").unwrap();
    w.write_all(&data).unwrap();
    let s = w.finish().unwrap();
    let b = index_stream(&s).unwrap();
    let mut idx = Index::new();
    assert!(idx.load(&b).unwrap().is_empty());
    assert_eq!(idx.total_uncompressed(), Some(data.len() as u64));
    assert_eq!(idx.total_compressed(), Some(s.len() as u64));
    assert_eq!(idx.offsets().len(), 3);
    for (i, e) in idx.offsets().iter().enumerate() {
        assert_eq!(e.uncompressed, (i as u64) << 20);
        assert!([0x01, 0x02].contains(&s[e.compressed as usize]));
    }
}

#[test]
fn reading_and_then_skipping() {
    let data = payload(10_000);
    let s = stream_of(&data);
    for k in [0usize, 1, 4095, 4096, 4097, 10_000] {
        for n in [0usize, 1, 4096, 5000, 5904, 10_000, 10_001] {
            let mut r = Reader::new(s.clone());
            r.read_exact(&mut vec![0u8; k]).unwrap();
            assert_eq!(r.current_offset(), k as u64);
            if k + n <= data.len() {
                assert_eq!(r.skip(n as u64), Ok(()));
                assert_eq!(r.current_offset(), (k + n) as u64);
                assert_eq!(rest_of(&mut r), &data[k + n..], "{k} {n}");
            } else {
                assert_eq!(r.skip(n as u64), Err(Error::UnexpectedEof));
                assert_eq!(r.read(&mut [0]), Err(Error::UnexpectedEof));
                assert_eq!(r.skip(0), Err(Error::UnexpectedEof));
            }
        }
    }
}

#[test]
fn seeks_from_wherever_the_reader_stands() {
    let data = payload(10_000);
    let mut w = WriterBuilder::new().block_size(MIN_BLOCK_SIZE).append_index().build(Vec::new());
    w.write_all(&data).unwrap();
    let s = w.finish().unwrap();
    let mut r = ReadSeeker::new(Reader::new(s), &[]).unwrap();
    let mut b = [0u8; 100];
    assert_eq!(r.seek(SeekFrom::Current(50)), Ok(50));
    r.read_exact(&mut b).unwrap();
    assert_eq!(b[..], data[50..150]);
    assert_eq!(r.seek(SeekFrom::Current(-100)), Ok(50));
    r.read_exact(&mut b).unwrap();
    assert_eq!(b[..], data[50..150]);
    assert_eq!(r.seek(SeekFrom::Current(8000)), Ok(8150));
    r.read_exact(&mut b).unwrap();
    assert_eq!(b[..], data[8150..8250]);
    assert_eq!(r.seek(SeekFrom::End(-100)), Ok(9900));
    r.read_exact(&mut b).unwrap();
    assert_eq!(b[..], data[9900..]);
    assert_eq!(r.seek(SeekFrom::End(0)), Ok(10_000));
    assert_eq!(r.read(&mut b), Ok(0));
    assert_eq!(r.seek(SeekFrom::Start(10_001)), Err(Error::UnexpectedEof));
    assert_eq!(r.seek(SeekFrom::Current(-4000)), Ok(6000));
    r.read_exact(&mut b).unwrap();
    assert_eq!(b[..], data[6000..6100]);
    assert_eq!(r.seek(SeekFrom::End(1)), Err(Error::UnexpectedEof));
    assert_eq!(r.seek(SeekFrom::Start(3)), Ok(3));
    r.read_exact(&mut b).unwrap();
    assert_eq!(b[..], data[3..103]);
    assert_eq!(r.read_at(&mut b, 4090), Ok(100));
    assert_eq!(b[..], data[4090..4190]);
    assert_eq!(r.seek(SeekFrom::Current(0)), Ok(4190));
    assert_eq!(r.read_at(&mut b, 9950), Ok(50));
    assert_eq!(b[..50], data[9950..]);
    assert_eq!(r.seek(SeekFrom::Current(-1)), Ok(9999));
    assert_eq!(r.read(&mut b), Ok(1));
    assert_eq!(b[0], data[9999]);
}

#[test]
fn the_size_of_a_padded_stream() {
    let data = payload(5000);
    for n in [2u32, 7, 512, 4096, 100_000] {
        let mut w = WriterBuilder::new().padding(n).append_index().build(Vec::new());
        w.write_all(&data).unwrap();
        let s = w.finish().unwrap();
        assert_eq!(s.len() % n as usize, 0, "{n}");
        assert_eq!(rest_of(&mut Reader::new(s)), data);
    }
}

#[test]
fn a_large_body_of_the_fastest_encoder() {
    let data = payload(200_000);
    let mut body = Vec::new();
    let n = encode_l1::encode_block(&mut body, &data);
    assert!(0 < n && n == body.len() && n < data.len());
    let mut out = Vec::new();
    minlz_decode(&mut out, data.len(), &body).unwrap();
    assert_eq!(out, data);
}

#[test]
fn the_checks_of_a_benchmark() {
    let data = payload(5000);
    let s = stream_of(&data);
    assert_eq!(verify_round(&s, &data), Ok(()));
    assert_eq!(verify_round(&s, b"other"), Err(ToolError::Other("bench: verify mismatch")));
    assert!(matches!(verify_round(&s[..30], &data), Err(ToolError::Stream(_))));
    assert_eq!(decoded_so_much(5, 5), Ok(5));
    assert_eq!(
        decoded_so_much(5, 6),
        Err(ToolError::Other("bench: alt-decode length mismatch"))
    );
}

#[test]
fn a_stream_that_was_not_finished() {
    let data = payload(9000);
    let mut w = WriterBuilder::new().block_size(MIN_BLOCK_SIZE).build(Vec::new());
    w.write_all(&data).unwrap();
    w.flush().unwrap();
    let mut out = Vec::new();
    let mut r = Reader::new(w.sink().to_vec());
    assert_eq!(r.read_to_end(&mut out), Err(Error::Corrupt));
    assert_eq!(out, data);
}

#[test]
fn reading_from_an_entry_on() {
    let data = payload(3 << 20);
    let mut w = WriterBuilder::new().block_size(1 << 20).build(Vec::new());
    w.write_all(&data).unwrap();
    let s = w.finish().unwrap();
    let mut idx = Index::new();
    idx.load(&index_stream(&s).unwrap()).unwrap();
    let offset = (2 << 20) + 77;
    let e = idx.find(offset);
    let mut r = ReaderBuilder::new()
        .ignore_stream_id()
        .build(s[e.compressed as usize..].to_vec());
    r.skip(offset - e.uncompressed).unwrap();
    assert_eq!(rest_of(&mut r), &data[offset as usize..]);
}

#[test]
fn a_stored_block_that_is_too_large() {
    let mut s = vec![0x01];
    s.extend_from_slice(&(4u32 + 5000).to_le_bytes()[..3]);
    s.extend_from_slice(&[0; 5004]);
    let small = || {
        ReaderBuilder::new()
            .ignore_stream_id()
            .max_block_size(MIN_BLOCK_SIZE)
            .build(s.clone())
    };
    assert_eq!(small().read(&mut [0]), Err(Error::TooLarge));
    assert_eq!(small().skip(1), Err(Error::TooLarge));
    assert_eq!(small().decode_concurrent(Vec::new(), 2).unwrap_err(), Error::Corrupt);
    let mut s = vec![0x01];
    s.extend_from_slice(&(4u32 + 4097).to_le_bytes()[..3]);
    s.extend_from_slice(&[0; 4101]);
    let mut r = ReaderBuilder::new()
        .ignore_stream_id()
        .max_block_size(MIN_BLOCK_SIZE)
        .build(s);
    assert_eq!(r.decode_concurrent(Vec::new(), 2).unwrap_err(), Error::TooLarge);
}

#[test]
fn what_a_failed_load_leaves() {
    let data = payload(3 << 20);
    let mut w = WriterBuilder::new().block_size(1 << 20).append_index().build(Vec::new());
    w.write_all(&data).unwrap();
    let whole = index_stream(&w.finish().unwrap()).unwrap();
    let mut good = Index::new();
    good.load(&whole).unwrap();
    assert_eq!(good.offsets().len(), 3);

    let mut b = whole.clone();
    *b.last_mut().unwrap() ^= 1;
    let mut idx = Index::new();
    assert!(idx.load(&b).is_err());
    assert_eq!(idx.total_uncompressed(), good.total_uncompressed());
    assert_eq!(idx.offsets(), good.offsets());

    let mut b = whole.clone();
    b[0] = 0x41;
    let mut idx = Index::new();
    idx.load(&whole).unwrap();
    assert!(idx.load(&b).is_err());
    assert_eq!(idx.to_json(), good.to_json());

    // A total, and then a second one that goes on for too long.
    let mut b = vec![0x99, 21, 0, 0];
    b.extend_from_slice(b"s2idx\0");
    b.push(14);
    b.extend_from_slice(&[0xff; 14]);
    assert!(idx.load(&b).is_err());
    assert_eq!(idx.total_uncompressed(), Some(7));
    assert_eq!(idx.total_compressed(), good.total_compressed());
    assert_eq!(idx.offsets(), good.offsets());

    // Three entries, of which one uncompressed offset can be read.
    let mut b = vec![0x99, 16, 0, 0];
    b.extend_from_slice(b"s2idx\0");
    b.extend_from_slice(&[14, 16, 0, 6, 1, 10]);
    b.extend_from_slice(&[0, 0, 0, 0]);
    assert!(idx.load(&b).is_err());
    assert_eq!((idx.total_uncompressed(), idx.total_compressed()), (Some(7), Some(8)));
    let left: Vec<(u64, u64)> =
        idx.offsets().iter().map(|e| (e.compressed, e.uncompressed)).collect();
    assert_eq!(left, [(0, 5), (0, 0), (0, 0)]);
    assert_eq!((idx.find(4).uncompressed, idx.find(5).uncompressed), (0, 0));
    idx.add(3, 1).unwrap();
    assert_eq!(idx.offsets().len(), 4);
    let mut out = Vec::new();
    idx.append_to(&mut out, None, Some(9)).unwrap();
    assert!(Index::new().load(&out).is_err());
    idx.load(&whole).unwrap();
    assert_eq!(idx.to_json(), good.to_json());
}
