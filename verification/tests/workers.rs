use minlz::error::ErrorKind;
use minlz::stream::{
    ConcurrentDecode, Error, MtWriter, MtWriterBuilder, ReadSeeker, Reader, ReaderBuilder, SeekFrom,
    UserChunkHandler, WriterBuilder, MIN_BLOCK_SIZE,
};
use minlz::Index;
use std::cell::RefCell;
use std::rc::Rc;

type Log = Rc<RefCell<Vec<(u8, Vec<u8>)>>>;

/// Notes the user chunks that it gets.
struct Seen(Log);

impl UserChunkHandler for Seen {
    fn user_chunk(&mut self, id: u8, payload: &[u8]) -> Result<(), Error> {
        self.0.borrow_mut().push((id, payload.to_vec()));
        Ok(())
    }
}

fn round_trip_concurrency(payload: &[u8], concurrency: usize) -> Vec<u8> {
    let n = concurrency;
    let mut w = MtWriterBuilder::new()
        .concurrency(n)
        .build(Vec::new())
        .unwrap();
    w.write_all(payload).unwrap();
    let buf = w.finish().unwrap();
    let mut decoded = Vec::new();
    Reader::new(buf.to_vec())
        .read_to_end(&mut decoded)
        .unwrap();
    decoded
}

#[test]
fn tests_empty_round_trip() {
    let got = round_trip_concurrency(b"", 4);
    assert!(got.is_empty());
}

#[test]
fn tests_small_payload_round_trip() {
    let got = round_trip_concurrency(b"Hello, MinLZ!", 4);
    assert_eq!(got, b"Hello, MinLZ!");
}

#[test]
fn tests_highly_compressible_round_trip() {
    let payload = vec![b'a'; 10_000];
    let got = round_trip_concurrency(&payload, 4);
    assert_eq!(got, payload);
}

#[test]
fn tests_multi_block_payload_round_trip() {
    let payload: Vec<u8> = (0..16 * 1024).map(|i| (i % 256) as u8).collect();
    let mut w = MtWriterBuilder::new()
        .block_size(4 << 10)
        .concurrency(4)
        .build(Vec::new())
        .unwrap();
    w.write_all(&payload).unwrap();
    let buf = w.finish().unwrap();
    let mut decoded = Vec::new();
    Reader::new(buf.to_vec())
        .read_to_end(&mut decoded)
        .unwrap();
    assert_eq!(decoded, payload);
}

#[test]
fn encode_buffer_round_trip() {
    let payload: Vec<u8> = (0..40 * 1024).map(|i| (i * 31) as u8).collect();
    let mut w = MtWriterBuilder::new()
        .block_size(4 << 10)
        .concurrency(4)
        .build(Vec::new())
        .unwrap();
    w.encode_buffer(&payload).unwrap();
    let buf = w.finish().unwrap();
    let mut decoded = Vec::new();
    Reader::new(buf.to_vec())
        .read_to_end(&mut decoded)
        .unwrap();
    assert_eq!(decoded, payload);
}

#[test]
fn tests_uncompressed_mode_round_trip() {
    let payload = vec![b'b'; 5_000];
    let mut w = MtWriterBuilder::new()
        .uncompressed()
        .concurrency(4)
        .build(Vec::new())
        .unwrap();
    w.write_all(&payload).unwrap();
    let buf = w.finish().unwrap();
    let mut decoded = Vec::new();
    Reader::new(buf.to_vec())
        .read_to_end(&mut decoded)
        .unwrap();
    assert_eq!(decoded, payload);
}

#[test]
fn concurrency_one_still_works() {
    let payload = vec![b'q'; 8 << 10];
    let got = round_trip_concurrency(&payload, 1);
    assert_eq!(got, payload);
}

#[test]
fn finish_returns_inner_writer() {
    let payload = b"return me".to_vec();
    let mut w = MtWriter::new(Vec::<u8>::new());
    w.write_all(&payload).unwrap();
    let buf = w.finish().unwrap();
    assert!(!buf.is_empty());
    let mut decoded = Vec::new();
    Reader::new(buf.to_vec())
        .read_to_end(&mut decoded)
        .unwrap();
    assert_eq!(decoded, payload);
}

#[test]
fn add_user_chunk_round_trip_via_callback() {
    let mut w = MtWriterBuilder::new()
        .concurrency(2)
        .build(Vec::<u8>::new())
        .unwrap();
    w.write_all(b"prefix").unwrap();
    w.add_user_chunk(0x80, b"meta-a").unwrap();
    w.write_all(b"infix").unwrap();
    w.add_user_chunk(0xc0, b"meta-b").unwrap();
    w.write_all(b"suffix").unwrap();
    let buf = w.finish().unwrap();

    let mut decoded = Vec::new();
    let seen: Log = Rc::new(RefCell::new(Vec::new()));
    ReaderBuilder::new()
        .user_chunk_callback(0x80, Seen(seen.clone()))
        .user_chunk_callback(0xc0, Seen(seen.clone()))
        .build(buf.to_vec())
        .read_to_end(&mut decoded)
        .unwrap();
    assert_eq!(decoded, b"prefixinfixsuffix");
    let seen = seen.borrow();
    assert_eq!(seen.len(), 2);
    assert_eq!(seen[0], (0x80, b"meta-a".to_vec()));
    assert_eq!(seen[1], (0xc0, b"meta-b".to_vec()));
}

#[test]
fn cross_concurrency_round_trips() {
    let payload: Vec<u8> = (0..32 * 1024).map(|i| (i * 17) as u8).collect();
    for &n in &[1, 2, 4, 8] {
        let got = round_trip_concurrency(&payload, n);
        assert_eq!(got, payload, "concurrency = {n}");
    }
}

#[test]
fn drop_without_finish_does_not_block() {
    let payload = vec![b'x'; 64 * 1024];
    let buf: Vec<u8> = Vec::new();
    let mut w = MtWriterBuilder::new()
        .block_size(4 << 10)
        .concurrency(4)
        .build(buf)
        .unwrap();
    w.write_all(&payload).unwrap();
    drop(w);
}

#[test]
fn stress_random_cross_concurrency() {
    fn lcg(seed: u64) -> impl FnMut() -> u8 {
        let mut x = seed;
        move || {
            x = x
                .wrapping_mul(6364136223846793005)
                .wrapping_add(1442695040888963407);
            (x >> 33) as u8
        }
    }
    let combos: &[(usize, usize)] = &[
        (1, 1),
        (1, 2),
        (1, 4),
        (1, 8),
        (2, 1),
        (2, 2),
        (2, 4),
        (2, 8),
        (4, 1),
        (4, 2),
        (4, 4),
        (4, 8),
        (8, 1),
        (8, 2),
        (8, 4),
        (8, 8),
    ];
    for trial in 0..50u64 {
        let mut rng = lcg(0xdeadbeef ^ trial.wrapping_mul(0xC0FFEE));
        let size = ((trial as usize * 211 + 4) % (24 * 1024)).max(1);
        let mut input = vec![0u8; size];
        for b in &mut input {
            *b = rng();
        }
        for &(enc_n, dec_n) in combos {
            let mut w = MtWriterBuilder::new()
                .block_size(MIN_BLOCK_SIZE)
                .concurrency(enc_n)
                .build(Vec::<u8>::new())
                .unwrap();
            w.write_all(&input).unwrap();
            let stream = w.finish().unwrap();
            let ConcurrentDecode {
                bytes_written: n,
                writer: dec,
            } = Reader::new(stream.to_vec())
                .decode_concurrent(Vec::<u8>::with_capacity(input.len()), dec_n)
                .unwrap();
            assert_eq!(
                n as usize,
                input.len(),
                "trial={trial} enc={enc_n} dec={dec_n}"
            );
            assert_eq!(dec, input, "trial={trial} enc={enc_n} dec={dec_n}");
        }
    }
}

#[test]
fn append_index_round_trips_via_read_seeker() {
    let payload: Vec<u8> = (0..(4 << 20))
        .map(|i| b'a' + ((i / 17) as u8 & 0x0f))
        .collect();
    for concurrency in [1usize, 4, 8] {
        let mut w = MtWriterBuilder::new()
            .block_size(64 << 10)
            .concurrency(concurrency)
            .append_index()
            .build(Vec::<u8>::new())
            .unwrap();
        w.write_all(&payload).unwrap();
        let stream = w.finish().unwrap();

        let mut decoded = Vec::new();
        Reader::new(stream.to_vec())
            .read_to_end(&mut decoded)
            .unwrap();
        assert_eq!(decoded, payload, "concurrency={concurrency}");

        let reader = Reader::new(stream.clone());
        let mut rs = ReadSeeker::new(reader, &[])
            .unwrap_or_else(|e| panic!("ReadSeeker::new (n={concurrency}): {e:?}"));
        assert_eq!(rs.index().total_uncompressed(), Some(payload.len() as u64));

        for &off in &[0u64, 100_000, (2 << 20), (4 << 20) - 64] {
            if off as usize >= payload.len() {
                continue;
            }
            let want_len = 64.min(payload.len() - off as usize);
            let mut buf = vec![0u8; want_len];
            let n = rs.read_at(&mut buf, off).unwrap();
            assert_eq!(n, want_len, "n={concurrency} off={off}");
            assert_eq!(
                &buf[..],
                &payload[off as usize..off as usize + want_len],
                "n={concurrency} off={off}"
            );
        }

        let mut tail = [0u8; 32];
        let abs = rs.seek(SeekFrom::End(-32)).unwrap();
        assert_eq!(abs, payload.len() as u64 - 32);
        rs.read_exact(&mut tail).unwrap();
        assert_eq!(&tail, &payload[payload.len() - 32..]);
    }
}

#[test]
fn append_index_off_produces_smaller_stream() {
    let payload = vec![b'z'; 256 << 10];
    let n = 4;
    let mut indexed = MtWriterBuilder::new()
        .block_size(16 << 10)
        .concurrency(n)
        .append_index()
        .build(Vec::<u8>::new())
        .unwrap();
    indexed.write_all(&payload).unwrap();
    let with_idx = indexed.finish().unwrap();

    let mut bare = MtWriterBuilder::new()
        .block_size(16 << 10)
        .concurrency(n)
        .generate_index(false)
        .build(Vec::<u8>::new())
        .unwrap();
    bare.write_all(&payload).unwrap();
    let no_idx = bare.finish().unwrap();

    assert!(
        with_idx.len() > no_idx.len(),
        "indexed should be larger by the index chunk size"
    );

    let mut a = Vec::new();
    Reader::new(with_idx.to_vec())
        .read_to_end(&mut a)
        .unwrap();
    let mut b = Vec::new();
    Reader::new(no_idx.to_vec())
        .read_to_end(&mut b)
        .unwrap();
    assert_eq!(a, payload);
    assert_eq!(b, payload);
}

#[test]
fn mt_padding_aligns_total_size() {
    let payload: Vec<u8> = (0..(2 << 20)).map(|i| (i as u8).wrapping_mul(7)).collect();
    let mut w = MtWriterBuilder::new()
        .block_size(64 << 10)
        .concurrency(4)
        .padding(1024)
        .build(Vec::<u8>::new())
        .unwrap();
    w.write_all(&payload).unwrap();
    let buf = w.finish().unwrap();
    assert_eq!(
        buf.len() % 1024,
        0,
        "stream len {} not a multiple of 1024",
        buf.len()
    );
    let mut decoded = Vec::new();
    Reader::new(buf.to_vec())
        .read_to_end(&mut decoded)
        .unwrap();
    assert_eq!(decoded, payload);
}

#[test]
fn mt_padding_plus_index_aligns_and_reads() {
    let payload: Vec<u8> = (0..(1 << 20)).map(|i| (i as u8).wrapping_mul(13)).collect();
    let multiple = 4096u32;
    let mut w = MtWriterBuilder::new()
        .block_size(64 << 10)
        .concurrency(4)
        .padding(multiple)
        .append_index()
        .build(Vec::<u8>::new())
        .unwrap();
    w.write_all(&payload).unwrap();
    let buf = w.finish().unwrap();
    assert_eq!(
        buf.len() % multiple as usize,
        0,
        "stream len {} not a multiple of {}",
        buf.len(),
        multiple
    );
    let reader = Reader::new(buf);
    let mut rs = ReadSeeker::new(reader, &[]).expect("ReadSeeker::new");
    assert_eq!(rs.index().total_uncompressed(), Some(payload.len() as u64));
    assert_eq!(rs.index().total_compressed(), None);
    let mut buf = [0u8; 512];
    let off = (payload.len() / 2) as u64;
    let n = rs.read_at(&mut buf, off).unwrap();
    assert_eq!(&buf[..n], &payload[off as usize..off as usize + n]);
}

#[test]
fn mt_index_offsets_match_st_index_offsets() {
    let payload: Vec<u8> = (0..(3 << 20))
        .map(|i| ((i * 17) ^ (i >> 4)) as u8)
        .collect();
    let block_size = 64 << 10;

    let mut st = WriterBuilder::new()
        .block_size(block_size)
        .build(Vec::<u8>::new());
    st.write_all(&payload).unwrap();
    let (_, st_idx) = st.close_index().unwrap();

    let mut mt = MtWriterBuilder::new()
        .block_size(block_size)
        .concurrency(4)
        .append_index()
        .build(Vec::<u8>::new())
        .unwrap();
    mt.write_all(&payload).unwrap();
    let mt_stream = mt.finish().unwrap();

    let reader = Reader::new(mt_stream.clone());
    let rs = ReadSeeker::new(reader, &[]).unwrap();
    let mt_idx = rs.index().clone();

    let mut parsed_st = Index::default();
    parsed_st.load(&st_idx).unwrap();

    assert_eq!(
        parsed_st.total_uncompressed(),
        mt_idx.total_uncompressed(),
        "total uncompressed mismatch"
    );
    assert_eq!(
        parsed_st.offsets().len(),
        mt_idx.offsets().len(),
        "entry count mismatch"
    );
    for (a, b) in parsed_st.offsets().iter().zip(mt_idx.offsets().iter()) {
        assert_eq!(a.uncompressed, b.uncompressed, "uncomp offset");
        assert_eq!(a.compressed, b.compressed, "comp offset");
    }
}

fn encode_mt(payload: &[u8], concurrency: usize, block_size: Option<usize>) -> Vec<u8> {
    let n = concurrency;
    let mut b = MtWriterBuilder::new().concurrency(n);
    if let Some(bs) = block_size {
        b = b.block_size(bs);
    }
    let mut w = b.build(Vec::new()).unwrap();
    w.write_all(payload).unwrap();
    w.finish().unwrap()
}

#[test]
fn decode_concurrent_empty() {
    let stream = encode_mt(b"", 4, None);
    let mut reader = Reader::new(stream);
    let ConcurrentDecode {
        bytes_written: n,
        writer: sink,
    } = reader.decode_concurrent(Vec::<u8>::new(), 4).unwrap();
    assert_eq!(n, 0);
    assert!(sink.is_empty());
}

#[test]
fn decode_concurrent_small() {
    let payload = b"Hello, MinLZ!".to_vec();
    let stream = encode_mt(&payload, 4, None);
    let mut reader = Reader::new(stream);
    let ConcurrentDecode {
        bytes_written: n,
        writer: sink,
    } = reader.decode_concurrent(Vec::<u8>::new(), 4).unwrap();
    assert_eq!(n as usize, payload.len());
    assert_eq!(sink, payload);
}

#[test]
fn decode_concurrent_multi_block() {
    let payload: Vec<u8> = (0..32 * 1024).map(|i| (i * 17) as u8).collect();
    let stream = encode_mt(&payload, 4, Some(4 << 10));
    let mut reader = Reader::new(stream);
    let ConcurrentDecode {
        bytes_written: n,
        writer: sink,
    } = reader.decode_concurrent(Vec::<u8>::new(), 4).unwrap();
    assert_eq!(n as usize, payload.len());
    assert_eq!(sink, payload);
}

#[test]
fn decode_concurrent_matches_st_for_st_encoded() {
    let payload: Vec<u8> = (0..40 * 1024).map(|i| (i * 31) as u8).collect();
    let mut w = WriterBuilder::new().block_size(4 << 10).build(Vec::new());
    w.write_all(&payload).unwrap();
    let buf = w.finish().unwrap();
    let mut reader = Reader::new(buf.to_vec());
    let ConcurrentDecode {
        bytes_written: n,
        writer: sink,
    } = reader.decode_concurrent(Vec::<u8>::new(), 4).unwrap();
    assert_eq!(n as usize, payload.len());
    assert_eq!(sink, payload);
}

#[test]
fn tests_cross_concurrency_round_trips() {
    let payload: Vec<u8> = (0..64 * 1024).map(|i| (i & 0xff) as u8).collect();
    for &enc_n in &[1, 2, 4, 8] {
        for &dec_n in &[1, 2, 4, 8] {
            let stream = encode_mt(&payload, enc_n, Some(4 << 10));
            let mut reader = Reader::new(stream.to_vec());
            let ConcurrentDecode {
                bytes_written: n,
                writer: sink,
            } = reader.decode_concurrent(Vec::<u8>::new(), dec_n).unwrap();
            assert_eq!(n as usize, payload.len(), "enc={enc_n} dec={dec_n}");
            assert_eq!(sink, payload, "enc={enc_n} dec={dec_n}");
        }
    }
}

#[test]
fn decode_concurrent_rejects_after_read() {
    let payload = b"hello".to_vec();
    let stream = encode_mt(&payload, 2, None);
    let mut reader = Reader::new(stream);
    let mut tmp = [0u8; 1];
    reader.read_exact(&mut tmp).unwrap();
    let err = reader.decode_concurrent(Vec::<u8>::new(), 4).unwrap_err();
    assert_eq!(err.kind(), ErrorKind::InvalidInput);
}

#[test]
fn decode_concurrent_propagates_crc_error() {
    let payload = b"some payload".to_vec();
    let mut stream = encode_mt(&payload, 2, None);
    let pos = stream.len() - 5;
    stream[pos] ^= 0xff;
    let mut reader = Reader::new(stream);
    let err = reader.decode_concurrent(Vec::<u8>::new(), 4).unwrap_err();
    assert_eq!(err.kind(), ErrorKind::InvalidData);
}
