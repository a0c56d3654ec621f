use minlz::block::format::{MAX_BLOCK_SIZE, MIN_NON_LITERAL_BLOCK_SIZE};
use minlz::block::load_store::{load16, load32, load64, store16, store24, store32};
use minlz::block::{
    append_decoded_chunk_body, append_encoded_chunk_body, decoded_len_chunk_body,
};
use minlz::error::ErrorKind;
use minlz::index;
use minlz::index::wire::{put_varint, read_varint};
use minlz::stream::crc::{crc32c, crc32c_update, masked_crc32c, Crc32c};
use minlz::stream::format::{
    block_size_from_indicator, block_size_indicator, make_stream_header, put_chunk_header,
    put_uvarint, read_chunk_len, CHUNK_TYPE_EOF, CHUNK_TYPE_UNCOMPRESSED_DATA,
};
use minlz::stream::mt_pool::{BufferPool, Refused, RoundRobin};
use minlz::stream::output::{encode_chunk, Closing, Output};
use minlz::stream::{
    Concurrency, Error, MtWriter, MtWriterBuilder, ReadSeeker, Reader, ReaderBuilder, SeekFrom,
    UserChunkHandler, Writer, WriterBuilder, MIN_BLOCK_SIZE,
};
use minlz::{
    append_decoded, append_encoded, decode, decoded_len, encode, index_stream, is_minlz,
    try_encode, Error as BlockError, Index, Level, OffsetPair,
};
use std::cell::RefCell;
use std::rc::Rc;

type Log = Rc<RefCell<Vec<(u8, Vec<u8>)>>>;

/// Notes the user chunks that it gets.
struct Seen(Log);

impl UserChunkHandler for Seen {
    fn user_chunk(&mut self, id: u8, payload: &[u8]) -> Result<(), Error> {
        self.0.borrow_mut().push((id, payload.to_vec()));
        Ok(())
    }
}

/// Refuses all user chunks, with an error of that sort.
struct Refuses(ErrorKind);

impl UserChunkHandler for Refuses {
    fn user_chunk(&mut self, _: u8, _: &[u8]) -> Result<(), Error> {
        Err(Error::Other(self.0, "refused"))
    }
}

fn sample(n: usize) -> Vec<u8> {
    let mut x: u32 = 7;
    (0..n)
        .map(|i| {
            x = x.wrapping_mul(1664525).wrapping_add(1013904223);
            if i % 64 < 40 {
                b'a' + (i % 7) as u8
            } else {
                (x >> 24) as u8
            }
        })
        .collect()
}

fn read_all(stream: &[u8]) -> Result<Vec<u8>, Error> {
    let mut out = Vec::new();
    Reader::new(stream.to_vec()).read_to_end(&mut out)?;
    Ok(out)
}

#[test]
fn levels_have_numbers() {
    for (n, l) in [(1, Level::Fastest), (2, Level::Balanced), (3, Level::Smallest)] {
        assert_eq!(Level::try_from(n), Ok(l));
        assert_eq!(i32::from(l), n);
    }
    assert_eq!(Level::try_from(0), Err(BlockError::InvalidLevel));
    assert_eq!(Level::try_from(4), Err(BlockError::InvalidLevel));
}

#[test]
fn block_errors_and_their_words() {
    let mut out = vec![1, 2, 3];
    let big = vec![0u8; MAX_BLOCK_SIZE + 1];
    assert_eq!(encode(&mut out, &big, Level::Fastest), Err(BlockError::TooLarge));
    assert!(out.is_empty());
    let mut declared = vec![0u8];
    put_uvarint(&mut declared, MAX_BLOCK_SIZE as u64 + 1);
    declared.push(0);
    assert_eq!(decode(&mut out, &declared), Err(BlockError::TooLarge));
    assert_eq!(BlockError::TooLarge.message(), "minlz: decoded block is too large");
    assert_eq!(BlockError::InvalidLevel.message(), "minlz: invalid compression level");
    assert_eq!(BlockError::Corrupt("x").message(), "minlz: corrupt input: x");
    assert_eq!(BlockError::TooLarge.kind(), ErrorKind::InvalidData);
    let e = decode(&mut out, &[0, 5, 0x07]).unwrap_err();
    assert!(matches!(e, BlockError::Corrupt(_)));
}

#[test]
fn blocks_are_appended() {
    let data = sample(5000);
    let mut enc = b"before".to_vec();
    append_encoded(&mut enc, &data, Level::Balanced).unwrap();
    assert_eq!(&enc[..6], b"before");
    assert_eq!(decoded_len(&enc[6..]), Ok(5000));
    assert_eq!(is_minlz(&enc[6..]), Ok(Some(5000)));
    assert_eq!(is_minlz(&[1, 2]), Ok(None));
    let mut dec = b"front".to_vec();
    append_decoded(&mut dec, &enc[6..]).unwrap();
    assert_eq!(&dec[..5], b"front");
    assert_eq!(&dec[5..], &data[..]);
    let mut packed = Vec::new();
    assert_eq!(try_encode(&mut packed, &data, Level::Smallest), Ok(true));
    let short = sample(MIN_NON_LITERAL_BLOCK_SIZE - 1);
    assert_eq!(try_encode(&mut packed, &short, Level::Smallest), Ok(false));
    encode(&mut packed, &short, Level::Fastest).unwrap();
    let mut stored = vec![0, 0];
    stored.extend_from_slice(&short);
    assert_eq!(packed, stored);
}

#[test]
fn chunk_bodies_declare_their_length() {
    let data = sample(3000);
    let mut body = Vec::new();
    assert_eq!(append_encoded_chunk_body(&mut body, &data, Level::Fastest), Ok(true));
    assert_eq!(decoded_len_chunk_body(&body), Ok(3000));
    let mut out = Vec::new();
    append_decoded_chunk_body(&mut out, &body).unwrap();
    assert_eq!(out, data);
}

#[test]
fn one_byte_over_and_over_is_compressed() {
    for level in [Level::Fastest, Level::Balanced, Level::Smallest] {
        let mut enc = Vec::new();
        encode(&mut enc, &[7u8; 32], level).unwrap();
        assert!(enc.len() <= 22);
        encode(&mut enc, &vec![7u8; 1 << 20], level).unwrap();
        assert!(enc.len() <= 22);
    }
}

#[test]
fn the_bytes_of_a_run() {
    let run = [b'a'; 32];
    let mut enc = Vec::new();
    encode(&mut enc, &run, Level::Fastest).unwrap();
    assert_eq!(enc, [0, 32, 0, b'a', 228, 8, b'a', b'a']);
    encode(&mut enc, &run, Level::Smallest).unwrap();
    assert_eq!(enc, [0, 32, 0, b'a', 236, 1]);
}

#[test]
fn one_input_has_one_encoding() {
    let data = sample(70_000);
    for level in [Level::Fastest, Level::Balanced, Level::Smallest] {
        let mut body = Vec::new();
        assert_eq!(append_encoded_chunk_body(&mut body, &data, level), Ok(true));
        let mut block = Vec::new();
        encode(&mut block, &data, level).unwrap();
        assert_eq!(&block[1..], &body[..]);
        let mut again = vec![9];
        assert_eq!(try_encode(&mut again, &data, level), Ok(true));
        assert_eq!(&again[1..], &block[..]);
    }
}

#[test]
fn the_index_is_the_same_with_workers() {
    let data = sample(3 << 20);
    let mut s = WriterBuilder::new().block_size(64 << 10).build(Vec::new());
    s.write_all(&data).unwrap();
    s.add_user_chunk(0x90, b"between").unwrap();
    s.write_all(&data[..100]).unwrap();
    let (stream, index_bytes) = s.close_index().unwrap();
    let mut m = MtWriterBuilder::new()
        .block_size(64 << 10)
        .concurrency(4)
        .append_index()
        .build(Vec::new())
        .unwrap();
    m.write_all(&data).unwrap();
    m.add_user_chunk(0x90, b"between").unwrap();
    m.write_all(&data[..100]).unwrap();
    let both = m.finish().unwrap();
    assert!(both.ends_with(&index_bytes));
    assert_eq!(&both[..both.len() - index_bytes.len()], &stream[..]);
}

#[test]
fn checksums_of_parts() {
    let data = sample(700);
    let sums = Crc32c::new();
    for cut in [0, 1, 8, 333, 699, 700] {
        let (a, b) = data.split_at(cut);
        assert_eq!(crc32c_update(crc32c(a), b), crc32c(&data));
        assert_eq!(sums.update(sums.crc32c(a), b), sums.crc32c(&data));
        let zeros = vec![0u8; b.len()];
        let moved = crc32c_update(crc32c(a), &zeros) ^ crc32c_update(0, &zeros);
        assert_eq!(moved ^ crc32c(b), crc32c(&data));
    }
    assert_eq!(sums.masked_crc32c(&data), masked_crc32c(&data));
}

#[test]
fn numbers_in_the_stream() {
    for i in 0..=255u8 {
        if let Some(n) = block_size_from_indicator(i) {
            assert!((MIN_BLOCK_SIZE / 4..=MAX_BLOCK_SIZE).contains(&n));
        }
    }
    for n in [MIN_BLOCK_SIZE, MIN_BLOCK_SIZE + 1, 100_000, MAX_BLOCK_SIZE] {
        let got = block_size_from_indicator(block_size_indicator(n)).unwrap();
        assert!(n <= got && got < 2 * n);
    }
    for n in [0, 1, 255, 256, 65_536, 0xff_ffff] {
        let mut h = Vec::new();
        put_chunk_header(&mut h, 0x44, n);
        assert_eq!((h[0], read_chunk_len(&h[1..])), (0x44, n));
    }
    for n in [0, -1, 1, 63, -64, 64, i64::MAX, i64::MIN] {
        let mut b = Vec::new();
        put_varint(&mut b, n);
        assert_eq!(read_varint(&b).unwrap(), (n, b.len()));
    }
}

#[test]
fn writes_add_up() {
    let data = sample(30_000);
    let whole = {
        let mut w = WriterBuilder::new().block_size(MIN_BLOCK_SIZE).build(Vec::new());
        w.write_all(&data).unwrap();
        w.finish().unwrap()
    };
    for step in [1, 999, 4096, 4097, 29_999] {
        let mut w = WriterBuilder::new().block_size(MIN_BLOCK_SIZE).build(Vec::new());
        for p in data.chunks(step) {
            assert_eq!(w.write(p), Ok(p.len()));
        }
        assert_eq!(w.finish().unwrap(), whole, "step {step}");
        let mut m = MtWriterBuilder::new()
            .block_size(MIN_BLOCK_SIZE)
            .concurrency(3)
            .build(Vec::new())
            .unwrap();
        for p in data.chunks(step) {
            assert_eq!(m.write(p), Ok(p.len()));
        }
        assert_eq!(m.finish().unwrap(), whole, "step {step}");
    }
    assert_eq!(read_all(&whole).unwrap(), data);
}

#[test]
fn a_stream_goes_behind_what_is_there() {
    let mut w = Writer::new(b"before".to_vec());
    w.write_all(b"data").unwrap();
    let out = w.finish().unwrap();
    assert_eq!(&out[..6], b"before");
    assert_eq!(read_all(&out[6..]).unwrap(), b"data");
    let mut w = MtWriter::new(b"before".to_vec());
    w.encode_buffer(b"da").unwrap();
    w.write_all(b"ta").unwrap();
    assert_eq!(w.uncompressed_written(), 4);
    w.flush().unwrap();
    assert_eq!(w.uncompressed_written(), 4);
    let out = w.finish().unwrap();
    assert_eq!(&out[..6], b"before");
    assert_eq!(read_all(&out[6..]).unwrap(), b"data");
}

#[test]
fn the_bytes_of_a_small_stream() {
    let mut w = Writer::new(Vec::new());
    w.write_all(b"hi").unwrap();
    let mut want = make_stream_header(2 << 20);
    put_chunk_header(&mut want, CHUNK_TYPE_UNCOMPRESSED_DATA, 6);
    want.extend_from_slice(&masked_crc32c(b"hi").to_le_bytes());
    want.extend_from_slice(b"hi");
    put_chunk_header(&mut want, CHUNK_TYPE_EOF, 1);
    want.push(2);
    assert_eq!(w.finish().unwrap(), want);
}

#[test]
fn padding_to_every_multiple() {
    for pad in [2u32, 3, 4, 5, 7, 64, 1000] {
        for n in 0..12 {
            let mut w = WriterBuilder::new().padding(pad).build(Vec::new());
            w.write_all(&sample(n)).unwrap();
            let out = w.finish().unwrap();
            assert_eq!(out.len() % pad as usize, 0, "pad {pad} n {n}");
            assert_eq!(read_all(&out).unwrap(), sample(n));
        }
    }
}

#[test]
fn output_closes_with_an_index() {
    let sums = Crc32c::new();
    let mut out = Output::new(Vec::new(), MIN_BLOCK_SIZE, true);
    out.put_block(encode_chunk(&sums, b"abc", Level::Fastest, true)).unwrap();
    out.put_user(0x80, b"user");
    assert_eq!(out.uncomp_written(), 3);
    assert_eq!(out.comp_written() as usize, out.sink().len());
    let closing = Closing { padding: 0, append_index: true, build_index: true };
    let (sink, index_bytes) = out.close(closing).unwrap();
    assert!(sink.ends_with(&index_bytes));
    assert_eq!(read_all(&sink).unwrap(), b"abc");
    let mut idx = Index::new();
    idx.load_stream(&sink).unwrap();
    assert_eq!(idx.total_uncompressed(), Some(3));
    assert_eq!(idx.offsets(), &[OffsetPair { compressed: 10, uncompressed: 0 }]);
}

#[test]
fn streams_one_after_the_other() {
    let a = sample(9000);
    let b = sample(100);
    let mut s = Vec::new();
    for d in [&a, &b] {
        let mut w = WriterBuilder::new().block_size(MIN_BLOCK_SIZE).build(Vec::new());
        w.write_all(d).unwrap();
        s.extend(w.finish().unwrap());
    }
    let mut both = a.clone();
    both.extend_from_slice(&b);
    assert_eq!(read_all(&s).unwrap(), both);
    let got = Reader::new(s).decode_concurrent(Vec::new(), 2).unwrap();
    assert_eq!(got.writer, both);
}

#[test]
fn every_error_of_a_reader() {
    let head = make_stream_header(MIN_BLOCK_SIZE);
    let with = |kind: u8, body: &[u8]| {
        let mut s = head.clone();
        put_chunk_header(&mut s, kind, body.len());
        s.extend_from_slice(body);
        read_all(&s).unwrap_err()
    };
    assert_eq!(with(0x01, &[0, 0, 0, 0, 1]), Error::Crc);
    assert_eq!(with(0x01, &[0; 3]), Error::Corrupt);
    assert_eq!(with(0x20, &[5]), Error::Corrupt);
    assert_eq!(with(0x20, &[0; 11]), Error::Corrupt);
    assert_eq!(with(0x04, b"x"), Error::Unsupported);
    assert_eq!(with(0xc0, b"x"), Error::Corrupt);
    let mut s = head.clone();
    put_chunk_header(&mut s, 0x20, 0);
    assert_eq!(read_all(&s), Ok(Vec::new()));
    assert!(matches!(with(0x02, &[0, 0, 0, 0, 0xff]), Error::Block(_)));
    assert_eq!(with(0x02, &[0, 0, 0, 0, 0x81, 0x80, 0x04, 0, 0]), Error::TooLarge);
    let mut s = Vec::new();
    put_chunk_header(&mut s, 0xff, 6);
    s.extend_from_slice(b"sNaPpY");
    assert_eq!(read_all(&s), Err(Error::Unsupported));
    let mut r = Reader::new(head.clone());
    assert_eq!(r.read_exact(&mut [0]), Err(Error::Corrupt));
    let mut w = Writer::new(Vec::new());
    w.add_user_chunk(0x80, b"no").unwrap();
    let s = w.finish().unwrap();
    let mut r = ReaderBuilder::new()
        .user_chunk_callback(0x80, Refuses(ErrorKind::NotFound))
        .build(s.clone());
    assert_eq!(r.read(&mut [0]), Err(Error::Other(ErrorKind::NotFound, "refused")));
    assert_eq!(r.read(&mut [0]).unwrap_err().kind(), ErrorKind::NotFound);
    let mut r = Reader::new(s);
    assert_eq!(r.read(&mut [0]), Ok(0));
    assert_eq!(r.skip(1), Err(Error::UnexpectedEof));
    for (e, k) in [
        (Error::Corrupt, ErrorKind::InvalidData),
        (Error::Unsupported, ErrorKind::InvalidData),
        (Error::Config("x"), ErrorKind::InvalidInput),
    ] {
        assert_eq!(e.kind(), k);
        assert!(e.message().starts_with("minlz: "));
    }
    for (e, k, m) in [
        (Error::NoSeek("x"), ErrorKind::Unsupported, "x"),
        (Error::InvalidInput("seek overflow"), ErrorKind::InvalidInput, "seek overflow"),
        (Error::Other(ErrorKind::Other, "mine"), ErrorKind::Other, "mine"),
        (Error::Other(ErrorKind::InvalidInput, ""), ErrorKind::InvalidInput, ""),
        (Error::UnexpectedEof, ErrorKind::UnexpectedEof, "unexpected end of file"),
        (
            Error::UserChunkId(0x7f),
            ErrorKind::InvalidInput,
            "user-chunk id 0x7f out of range",
        ),
        (
            Error::UserChunkId(0x0a),
            ErrorKind::InvalidInput,
            "user-chunk id 0x0a out of range",
        ),
    ] {
        assert_eq!((e.kind(), e.message().as_str()), (k, m));
    }
    assert_eq!(Error::Crc.message(), "minlz: corrupt input, crc mismatch");
}

#[test]
fn every_error_of_a_writer() {
    let mut w = Writer::new(Vec::new());
    assert_eq!(
        w.add_user_chunk(0x7f, b""),
        Err(Error::UserChunkId(0x7f))
    );
    let big = vec![0u8; minlz::stream::MAX_USER_CHUNK_SIZE + 1];
    assert_eq!(
        w.add_user_chunk(0x80, &big),
        Err(Error::InvalidInput("user-chunk exceeds maximum size"))
    );
    let w = WriterBuilder::new().generate_index(false).build(Vec::new());
    let e = w.close_index().unwrap_err();
    assert_eq!(e.kind(), ErrorKind::InvalidInput);
    assert_eq!(e.message(), "minlz: close_index called but generate_index is false");
    let mut m = MtWriter::new(Vec::new());
    assert_eq!(m.add_user_chunk(0xfe, b""), Err(Error::UserChunkId(0xfe)));
    assert!(m.add_user_chunk(0x80, &big).is_err());
    for b in [
        MtWriterBuilder::new().block_size(MIN_BLOCK_SIZE - 1),
        MtWriterBuilder::new().block_size(MAX_BLOCK_SIZE + 1),
        MtWriterBuilder::new().padding(MAX_BLOCK_SIZE as u32 + 1),
        MtWriterBuilder::new().concurrency(0),
    ] {
        assert!(matches!(b.build(Vec::new()), Err(Error::Config(_))));
    }
}

#[test]
fn every_error_of_a_seek() {
    let data = sample(20_000);
    let mut w = WriterBuilder::new()
        .block_size(MIN_BLOCK_SIZE)
        .append_index()
        .build(Vec::new());
    w.write_all(&data).unwrap();
    let s = w.finish().unwrap();
    let mut rs = ReadSeeker::new(Reader::new(s.clone()), &[]).unwrap();
    assert_eq!(
        rs.seek(SeekFrom::Current(-1)),
        Err(Error::InvalidInput("seek before start of file"))
    );
    assert_eq!(
        rs.seek(SeekFrom::End(i64::MAX)),
        Err(Error::InvalidInput("seek overflow"))
    );
    assert_eq!(rs.seek_uncompressed(SeekFrom::End(0)), Ok(20_000));
    assert_eq!(rs.read(&mut [0; 4]), Ok(0));
    assert_eq!(rs.seek(SeekFrom::End(1)), Err(Error::UnexpectedEof));
    assert_eq!(rs.seek(SeekFrom::Start(19_999)), Ok(19_999));
    let mut last = [0; 4];
    assert_eq!(rs.read(&mut last), Ok(1));
    assert_eq!(last[0], data[19_999]);
    let mut part = vec![0; 5000];
    rs.read_exact_at(&mut part, 3000).unwrap();
    assert_eq!(part, &data[3000..8000]);
    let mut bad = s.clone();
    let at = bad.len() - 1;
    bad[at] ^= 1;
    assert!(matches!(
        ReadSeeker::new(Reader::new(bad), &[]),
        Err(Error::Index(index::Error::BadFormat(_)))
    ));
}

#[test]
fn an_index_made_by_scanning() {
    let data = sample(3 << 20);
    let mut w = WriterBuilder::new().block_size(64 << 10).build(Vec::new());
    w.write_all(&data).unwrap();
    let (s, bytes) = w.close_index().unwrap();
    let mut made = Index::new();
    made.load(&index_stream(&s).unwrap()).unwrap();
    let mut kept = Index::new();
    kept.load(&bytes).unwrap();
    assert_eq!(made.total_uncompressed(), Some(3 << 20));
    assert_eq!(kept.total_uncompressed(), Some(3 << 20));
    for e in kept.offsets() {
        assert_eq!(made.find(e.uncompressed).compressed, e.compressed);
    }
    assert!(matches!(index_stream(&s[..3]), Err(index::Error::Io(_))));
    assert!(matches!(index_stream(&s[..7]), Err(index::Error::Truncated)));
    assert!(index_stream(b"nonsense").is_err());
}

#[test]
fn entries_stay_in_order() {
    let mut idx = Index::new();
    idx.reset(1);
    let mut comp = 0;
    for i in 0..200u64 {
        comp += i % 13;
        idx.add(comp, i * (700_000 + i)).unwrap();
    }
    let s = idx.offsets();
    assert!(s.len() > 50);
    for p in s.windows(2) {
        assert!(p[0].uncompressed + idx.est_block_uncomp() <= p[1].uncompressed);
        assert!(p[0].compressed <= p[1].compressed);
    }
    for off in [0, 1, 5_000_000, 77_777_777, u64::MAX] {
        let e = idx.find(off);
        assert!(e.uncompressed <= off);
        assert!(s.iter().all(|x| x.uncompressed <= e.uncompressed || x.uncompressed > off));
    }
    let e = index::Error::Truncated;
    assert_eq!(e.kind(), ErrorKind::UnexpectedEof);
    assert!(!e.message().is_empty());
}

#[test]
fn workers_get_blocks_in_turn() {
    for n in 1..6usize {
        let mut turn = RoundRobin::new(Concurrency::new(n).unwrap());
        for round in 0..7 {
            let mut offer = turn.offer();
            let mut asked = vec![offer.slot(&turn)];
            assert_eq!(asked[0], round % n);
            loop {
                match turn.refused(offer) {
                    Refused::Ask(next) => {
                        offer = next;
                        asked.push(offer.slot(&turn));
                    }
                    Refused::Wait(slot) => {
                        assert_eq!(Some(&slot), asked.last());
                        break;
                    }
                }
            }
            assert!((0..n).all(|w| asked.contains(&w)), "n {n}: {asked:?}");
        }
    }
    let mut turn = RoundRobin::new(Concurrency::new(3).unwrap());
    let offer = turn.offer();
    if let Refused::Ask(next) = turn.refused(offer) {
        turn.taken(next);
    }
    assert_eq!(turn.offer().slot(&turn), 2);
}

#[test]
fn buffers_are_kept_up_to_a_number() {
    let mut pool = BufferPool::new(2, 16);
    assert!(pool.acquire().is_empty());
    for _ in 0..3 {
        pool.release(vec![1; 100]);
    }
    let (a, b, c) = (pool.acquire(), pool.acquire(), pool.acquire());
    assert!(a.is_empty() && b.is_empty() && c.is_empty());
    assert!(a.capacity() >= 100 && b.capacity() >= 100 && c.capacity() < 100);
    assert_eq!(Concurrency::new(0), None);
    assert_eq!(Concurrency::new(9).unwrap().get(), 9);
    assert_eq!(Concurrency::one().get(), 1);
}

#[test]
fn user_chunks_pass_through_workers() {
    let mut w = MtWriterBuilder::new()
        .block_size(MIN_BLOCK_SIZE)
        .concurrency(2)
        .build(Vec::new())
        .unwrap();
    let data = sample(10_000);
    w.write_all(&data[..6000]).unwrap();
    w.add_user_chunk(0x81, b"mark").unwrap();
    w.write_all(&data[6000..]).unwrap();
    let s = w.finish().unwrap();
    let seen: Log = Rc::new(RefCell::new(Vec::new()));
    let mut r = ReaderBuilder::new()
        .user_chunk_callback(0x81, Seen(seen.clone()))
        .build(s.clone());
    let got = r.decode_concurrent(Vec::new(), 3).unwrap();
    assert_eq!(got.writer, data);
    assert_eq!(*seen.borrow(), [(0x81, b"mark".to_vec())]);
    let mut r = ReaderBuilder::new()
        .user_chunk_callback(0x81, Refuses(ErrorKind::TimedOut))
        .build(s);
    assert_eq!(
        r.decode_concurrent(Vec::new(), 3).unwrap_err(),
        Error::Other(ErrorKind::TimedOut, "refused")
    );
}

#[test]
fn numbers_in_bytes() {
    let b = [1u8, 2, 3, 4, 5, 6, 7, 8, 9];
    assert_eq!(load16(&b, 1), 0x0302);
    assert_eq!(load32(&b, 2), 0x0605_0403);
    assert_eq!(load64(&b, 1), 0x0908_0706_0504_0302);
    let mut out = Vec::new();
    store16(&mut out, 0x0102);
    store24(&mut out, 0x03_0405);
    store32(&mut out, 0x0607_0809);
    assert_eq!(out, [2, 1, 5, 4, 3, 9, 8, 7, 6]);
}
