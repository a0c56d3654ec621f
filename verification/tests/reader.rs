use minlz::block::append_encoded_chunk_body;
use minlz::error::ErrorKind;
use minlz::stream::crc::masked_crc32c;
use minlz::stream::format::{
    get_uvarint, make_stream_header, put_uvarint, CHECKSUM_SIZE, CHUNK_TYPE_EOF,
    CHUNK_TYPE_MINLZ_COMPRESSED_DATA, CHUNK_TYPE_MINLZ_COMPRESSED_DATA_COMP_CRC,
    CHUNK_TYPE_PADDING, CHUNK_TYPE_UNCOMPRESSED_DATA, DEFAULT_BLOCK_SIZE,
};
use minlz::stream::{Error, Reader, ReaderBuilder, UserChunkHandler, WriterBuilder, MIN_BLOCK_SIZE};
use minlz::Level;
use std::cell::RefCell;
use std::rc::Rc;

type Log = Rc<RefCell<Vec<(u8, Vec<u8>)>>>;

/// Notes the user chunks that it gets.
struct Seen(Log);

impl UserChunkHandler for Seen {
    fn user_chunk(&mut self, id: u8, payload: &[u8]) -> Result<(), Error> {
        self.0.borrow_mut().push((id, payload.to_vec()));
        Ok(())
    }
}

fn push_chunk(out: &mut Vec<u8>, chunk_type: u8, payload: &[u8]) {
    let len = payload.len();
    assert!(len < 1 << 24);
    out.push(chunk_type);
    out.push(len as u8);
    out.push((len >> 8) as u8);
    out.push((len >> 16) as u8);
    out.extend_from_slice(payload);
}

fn push_eof(out: &mut Vec<u8>, total_uncompressed: u64) {
    let mut varint = Vec::new();
    put_uvarint(&mut varint, total_uncompressed);
    push_chunk(out, CHUNK_TYPE_EOF, &varint);
}

fn push_uncompressed_block(out: &mut Vec<u8>, payload: &[u8]) {
    let mut body = Vec::with_capacity(CHECKSUM_SIZE + payload.len());
    body.extend_from_slice(&masked_crc32c(payload).to_le_bytes());
    body.extend_from_slice(payload);
    push_chunk(out, CHUNK_TYPE_UNCOMPRESSED_DATA, &body);
}

fn push_minlz_block(out: &mut Vec<u8>, payload: &[u8]) {
    let mut chunk_body = Vec::new();
    let compressed =
        append_encoded_chunk_body(&mut chunk_body, payload, Level::Balanced)
            .expect("encode");
    assert!(compressed, "test payload should compress");
    let mut body = Vec::with_capacity(CHECKSUM_SIZE + chunk_body.len());
    body.extend_from_slice(&masked_crc32c(payload).to_le_bytes());
    body.extend_from_slice(&chunk_body);
    push_chunk(out, CHUNK_TYPE_MINLZ_COMPRESSED_DATA, &body);
}

fn build_stream(blocks: &[&[u8]]) -> Vec<u8> {
    let mut s = Vec::new();
    s.extend_from_slice(&make_stream_header(DEFAULT_BLOCK_SIZE));
    let mut total = 0u64;
    for b in blocks {
        push_minlz_block(&mut s, b);
        total += b.len() as u64;
    }
    push_eof(&mut s, total);
    s
}

fn build_stream_uncompressed(blocks: &[&[u8]]) -> Vec<u8> {
    let mut s = Vec::new();
    s.extend_from_slice(&make_stream_header(DEFAULT_BLOCK_SIZE));
    let mut total = 0u64;
    for b in blocks {
        push_uncompressed_block(&mut s, b);
        total += b.len() as u64;
    }
    push_eof(&mut s, total);
    s
}

fn decode_to_end(mut r: Reader) -> Result<Vec<u8>, Error> {
    let mut v = Vec::new();
    r.read_to_end(&mut v)?;
    Ok(v)
}


#[test]
fn empty_stream_decodes_to_empty() {
    let mut s = Vec::new();
    s.extend_from_slice(&make_stream_header(DEFAULT_BLOCK_SIZE));
    push_eof(&mut s, 0);
    let got = decode_to_end(Reader::new(s.to_vec())).unwrap();
    assert!(got.is_empty());
}

#[test]
fn single_uncompressed_block() {
    let payload = b"Hello, MinLZ!".to_vec();
    let s = build_stream_uncompressed(&[&payload]);
    let got = decode_to_end(Reader::new(s.to_vec())).unwrap();
    assert_eq!(got, payload);
}

#[test]
fn single_compressed_block() {
    let payload = b"aaaaaaaaaaaaaaaaaaaaaaaaaaaaaaaaaaaaaaaaaaaaaaaaaaaaaaaaaaaaaaaaaaa".to_vec();
    let s = build_stream(&[&payload]);
    let got = decode_to_end(Reader::new(s.to_vec())).unwrap();
    assert_eq!(got, payload);
}

#[test]
fn multi_block_round_trip() {
    let payloads: Vec<Vec<u8>> = (0..4)
        .map(|i| {
            let mut v = Vec::new();
            for j in 0..200 {
                v.extend_from_slice(format!("block{i}-line{j}\n").as_bytes());
            }
            v
        })
        .collect();
    let refs: Vec<&[u8]> = payloads.iter().map(|v| v.as_slice()).collect();
    let s = build_stream(&refs);
    let got = decode_to_end(Reader::new(s.to_vec())).unwrap();
    let expected: Vec<u8> = payloads.into_iter().flatten().collect();
    assert_eq!(got, expected);
}


#[test]
fn rejects_truncated_stream_header() {
    let s = b"\xff\x06\x00\x00MinL";
    let err = Reader::new(s.to_vec())
        .read(&mut [0u8; 1])
        .unwrap_err();
    assert_eq!(err.kind(), ErrorKind::InvalidData);
}

#[test]
fn rejects_wrong_magic() {
    let mut s = Vec::new();
    s.extend_from_slice(&[0xff, 0x06, 0x00, 0x00]);
    s.extend_from_slice(b"sNaPpY");
    let err = Reader::new(s.to_vec())
        .read(&mut [0u8; 1])
        .unwrap_err();
    assert_eq!(err.kind(), ErrorKind::InvalidData);
}

#[test]
fn rejects_data_before_header() {
    let mut s = Vec::new();
    push_uncompressed_block(&mut s, b"oops");
    let err = Reader::new(s.to_vec())
        .read(&mut [0u8; 1])
        .unwrap_err();
    assert_eq!(err.kind(), ErrorKind::InvalidData);
}

#[test]
fn rejects_bad_crc() {
    let mut s = Vec::new();
    s.extend_from_slice(&make_stream_header(DEFAULT_BLOCK_SIZE));
    let payload = b"abcde";
    let bad_crc = 0xdeadbeef_u32;
    let mut body = Vec::new();
    body.extend_from_slice(&bad_crc.to_le_bytes());
    body.extend_from_slice(payload);
    push_chunk(&mut s, CHUNK_TYPE_UNCOMPRESSED_DATA, &body);
    push_eof(&mut s, payload.len() as u64);
    let err = Reader::new(s.to_vec())
        .read(&mut [0u8; 8])
        .unwrap_err();
    assert_eq!(err.kind(), ErrorKind::InvalidData);
}

#[test]
fn ignore_crc_skips_check() {
    let mut s = Vec::new();
    s.extend_from_slice(&make_stream_header(DEFAULT_BLOCK_SIZE));
    let payload = b"abcde";
    let bad_crc = 0xdeadbeef_u32;
    let mut body = Vec::new();
    body.extend_from_slice(&bad_crc.to_le_bytes());
    body.extend_from_slice(payload);
    push_chunk(&mut s, CHUNK_TYPE_UNCOMPRESSED_DATA, &body);
    push_eof(&mut s, payload.len() as u64);
    let got = decode_to_end(ReaderBuilder::new().ignore_crc().build(s.to_vec())).unwrap();
    assert_eq!(got, payload);
}

#[test]
fn eof_with_wrong_total_size() {
    let mut s = Vec::new();
    s.extend_from_slice(&make_stream_header(DEFAULT_BLOCK_SIZE));
    push_uncompressed_block(&mut s, b"hello");
    push_eof(&mut s, 100);
    let mut buf = Vec::new();
    let err = Reader::new(s.to_vec())
        .read_to_end(&mut buf)
        .unwrap_err();
    assert_eq!(err.kind(), ErrorKind::InvalidData);
}

#[test]
fn reserved_unskippable_errors() {
    let mut s = Vec::new();
    s.extend_from_slice(&make_stream_header(DEFAULT_BLOCK_SIZE));
    push_chunk(&mut s, 0x04, b"dummy");
    let err = Reader::new(s.to_vec())
        .read(&mut [0u8; 1])
        .unwrap_err();
    assert_eq!(err.kind(), ErrorKind::InvalidData);
}

#[test]
fn user_non_skippable_without_callback_errors() {
    let mut s = Vec::new();
    s.extend_from_slice(&make_stream_header(DEFAULT_BLOCK_SIZE));
    push_chunk(&mut s, 0xc0, b"unskippable");
    let err = Reader::new(s.to_vec())
        .read(&mut [0u8; 1])
        .unwrap_err();
    assert_eq!(err.kind(), ErrorKind::InvalidData);
}


#[test]
fn padding_is_silently_skipped() {
    let mut s = Vec::new();
    s.extend_from_slice(&make_stream_header(DEFAULT_BLOCK_SIZE));
    push_chunk(&mut s, CHUNK_TYPE_PADDING, &[0u8; 32]);
    let payload = b"after-pad";
    push_uncompressed_block(&mut s, payload);
    push_chunk(&mut s, CHUNK_TYPE_PADDING, &[0u8; 16]);
    push_eof(&mut s, payload.len() as u64);
    let got = decode_to_end(Reader::new(s.to_vec())).unwrap();
    assert_eq!(got, payload);
}

#[test]
fn reserved_skippable_is_silently_skipped() {
    let mut s = Vec::new();
    s.extend_from_slice(&make_stream_header(DEFAULT_BLOCK_SIZE));
    push_chunk(&mut s, 0x55, b"reserved");
    let payload = b"after-skip";
    push_uncompressed_block(&mut s, payload);
    push_eof(&mut s, payload.len() as u64);
    let got = decode_to_end(Reader::new(s.to_vec())).unwrap();
    assert_eq!(got, payload);
}

#[test]
fn user_skippable_without_callback_is_skipped() {
    let mut s = Vec::new();
    s.extend_from_slice(&make_stream_header(DEFAULT_BLOCK_SIZE));
    push_chunk(&mut s, 0x80, b"user-meta");
    let payload = b"data";
    push_uncompressed_block(&mut s, payload);
    push_eof(&mut s, payload.len() as u64);
    let got = decode_to_end(Reader::new(s.to_vec())).unwrap();
    assert_eq!(got, payload);
}

#[test]
fn user_chunk_callback_receives_payload() {
    let mut s = Vec::new();
    s.extend_from_slice(&make_stream_header(DEFAULT_BLOCK_SIZE));
    push_chunk(&mut s, 0x80, b"hello-user");
    push_chunk(&mut s, 0xc0, b"non-skippable-data");
    let payload = b"data";
    push_uncompressed_block(&mut s, payload);
    push_eof(&mut s, payload.len() as u64);

    let seen: Log = Rc::new(RefCell::new(Vec::new()));
    let mut reader = ReaderBuilder::new()
        .user_chunk_callback(0x80, Seen(seen.clone()))
        .user_chunk_callback(0xc0, Seen(seen.clone()))
        .build(s.to_vec());
    let mut got = Vec::new();
    reader.read_to_end(&mut got).unwrap();
    assert_eq!(got, payload);
    let seen = seen.borrow();
    assert_eq!(seen.len(), 2);
    assert_eq!(seen[0], (0x80, b"hello-user".to_vec()));
    assert_eq!(seen[1], (0xc0, b"non-skippable-data".to_vec()));
}

/// Refuses all user chunks.
struct Denies;

impl UserChunkHandler for Denies {
    fn user_chunk(&mut self, _: u8, _: &[u8]) -> Result<(), Error> {
        Err(Error::Other(ErrorKind::Other, "denied"))
    }
}

#[test]
fn user_chunk_callback_error_aborts_decode() {
    let mut s = Vec::new();
    s.extend_from_slice(&make_stream_header(DEFAULT_BLOCK_SIZE));
    push_chunk(&mut s, 0x80, b"trigger");
    push_uncompressed_block(&mut s, b"unreachable");
    push_eof(&mut s, 11);
    let reader = ReaderBuilder::new()
        .user_chunk_callback(0x80, Denies)
        .build(s.to_vec());
    let mut buf = Vec::new();
    let err = { reader }.read_to_end(&mut buf).unwrap_err();
    assert_eq!(err.kind(), ErrorKind::Other);
    assert_eq!(err.message(), "denied");
}

#[test]
fn ignore_stream_id_allows_starting_mid_stream() {
    let mut s = Vec::new();
    push_uncompressed_block(&mut s, b"abc");
    push_eof(&mut s, 999);
    let got = decode_to_end(
        ReaderBuilder::new()
            .ignore_stream_id()
            .build(s.to_vec()),
    )
    .unwrap();
    assert_eq!(got, b"abc");
}

#[test]
fn max_block_size_rejects_oversized() {
    let mut s = Vec::new();
    s.extend_from_slice(&make_stream_header(MIN_BLOCK_SIZE));
    push_uncompressed_block(&mut s, &vec![0u8; 8 << 10]);
    let err = ReaderBuilder::new()
        .max_block_size(MIN_BLOCK_SIZE)
        .build(s.to_vec())
        .read(&mut [0u8; 4])
        .unwrap_err();
    assert_eq!(err.kind(), ErrorKind::InvalidData);
}

#[test]
fn block_start_advances() {
    let payloads: [&[u8]; 3] = [b"AAA", b"BBBB", b"CCCCC"];
    let s = build_stream_uncompressed(&payloads);
    let mut reader = Reader::new(s.to_vec());
    let mut buf = [0u8; 1];
    reader.read_exact(&mut buf).unwrap();
    assert_eq!(buf[0], b'A');
    assert_eq!(reader.block_start(), 0);
    let mut rest = [0u8; 2];
    reader.read_exact(&mut rest).unwrap();
    assert_eq!(&rest, b"AA");
    reader.read_exact(&mut buf).unwrap();
    assert_eq!(buf[0], b'B');
    assert_eq!(reader.block_start(), 3);
}


#[test]
fn concatenated_streams() {
    let mut s = build_stream_uncompressed(&[b"first"]);
    s.extend_from_slice(&build_stream_uncompressed(&[b"second"]));
    let got = decode_to_end(Reader::new(s.to_vec())).unwrap();
    assert_eq!(got, b"firstsecond");
}

#[test]
fn extra_bytes_after_eof_errors() {
    let mut s = build_stream_uncompressed(&[b"hello"]);
    s.extend_from_slice(&[0x10, 0x00, 0x00, 0x00]);
    let err = Reader::new(s.to_vec())
        .read_to_end(&mut Vec::new())
        .unwrap_err();
    assert_eq!(err.kind(), ErrorKind::InvalidData);
}


#[test]
fn tests_reset_reuses_state() {
    let s1 = build_stream_uncompressed(&[b"first"]);
    let s2 = build_stream_uncompressed(&[b"second"]);
    let mut reader = Reader::new(s1.to_vec());
    let mut out = Vec::new();
    reader.read_to_end(&mut out).unwrap();
    assert_eq!(out, b"first");

    reader.reset(s2.to_vec());
    let mut out = Vec::new();
    reader.read_to_end(&mut out).unwrap();
    assert_eq!(out, b"second");
}


#[test]
fn fuzz_crashes_2026_05_27_do_not_panic() {
    let crashes: &[&[u8]] = &[
        &[
            0xff, 0x06, 0x00, 0x00, b'M', b'i', b'n', b'L', b'z', 0x00, 0x02, 0x06, 0x00, 0x00,
            0x02, 0x00, 0xff, 0x0f, 0x00, b'M', b'i', b'n', b'L', b'z', 0x00, 0x40, 0x00, 0x00,
            0x00, 0xff, 0x06, 0x30, 0x86, 0x00, b'M', b'i', b'n', b'L', b'z', 0x00, 0x01, 0x00,
            0x01, 0x00, 0x00, 0x00, 0x00, 0x00, 0x00, 0xc6, 0xc6,
        ],
        &[
            0xff, 0x06, 0x00, 0x00, b'M', b'i', b'n', b'L', b'z', 0x29, 0x03, 0x0a, 0x00, 0x00,
            0x00, 0xf5, 0xb8, 0x03, 0x00, 0x06, 0x00, 0x00, b'M', b'i', b'n', b'L', b'z', 0x29,
            0x03, 0x0a, 0x00, 0x00, 0x00, 0xf5, 0xb8, 0x03, 0x00, 0x00, 0x00, 0x00, 0x00, 0x00,
            0x00,
        ],
        &[
            0xff, 0x06, 0x00, 0x00, b'M', b'i', b'n', b'L', b'z', 0x04, 0x02, 0x06, 0x00, 0x00,
            b'M', b'i', b'n', b'L', 0x00, 0x80, 0x00, 0x20, 0x09, 0x00, 0x00, 0xe8, 0xff, 0xff,
            0xff, 0xff, 0xfe, 0xa1, 0xb1, 0x3a, b'z', 0x04, 0x02, 0x00, 0xc6, 0x00, 0xc6, 0x86,
        ],
        &{
            let mut v = vec![
                0xff, 0x06, 0x00, 0x00, b'M', b'i', b'n', b'L', b'z', 0x00, 0x03, 0x3c, 0x00, 0x00,
                0x00, 0x00, 0x3c, 0x00, 0x00, 0x00,
            ];
            v.extend(std::iter::repeat(0u8).take(140));
            v
        },
        &[
            0x41, 0x00, 0x00, 0x00, 0xbd, 0x00, 0x00, 0x00, 0x41, 0x00, 0x00, 0x00, 0xff, 0x06,
            0x00, 0x00, b'M', b'i', b'n', b'L', b'z', 0x00, 0x03, 0x3c, 0x00, 0x00, 0x00, 0x00,
            0x00, 0x00, 0x00, 0xc4, 0x00, 0x01, 0x00, 0xc6, 0xbd, 0x00, 0x00, 0x00, 0xbd, 0x00,
            0x00, 0x00, 0xbd, 0x00, 0x00, 0x00, 0xbd, 0x00, 0x00, 0x00, 0x41, 0x00, 0x00, 0x00,
            0xbd, 0x00, 0x00, 0x00, 0xbd, 0x00, 0x00, 0x00, 0x41, 0x00, 0x00, 0x00, 0x8f, 0x00,
            0x00, 0x00, 0xbd, 0x00, 0x00, 0x00, 0xbd, 0x00, 0x00, 0x00, 0xbd, 0x00, 0x00, 0x00,
            0x41, 0x00, 0x00, 0x00, 0xbd, 0x00, 0x00, 0x00, 0xbd, 0x00, 0x00, 0x00, 0xbd, 0x00,
            0x00, 0x00, 0xbd, 0x00, 0x00, 0x00, 0xbd, 0x00, 0x00, 0x00, 0x41, 0x00, 0x00, 0x00,
            0xbd, 0x00, 0x00, 0x00, 0xbd, 0x00, 0x00, 0x00, 0x41, 0x00, 0x00, 0x00, 0x8f, 0x00,
            0x00, 0x00, 0x00, 0x00, 0x00, 0x41, 0x00, 0x00, 0x00, 0xd7, 0x00, 0x00,
        ],
        &[
            0xff, 0x06, 0x00, 0x00, b'M', b'i', b'n', b'L', b'z', 0x00, 0x03, 0x08, 0x00, 0x00,
            0x00, 0x00, 0x00, 0x00, 0x00, 0x00, 0x01, 0x00,
        ],
        &[
            0xff, 0x06, 0x00, 0x00, b'M', b'i', b'n', b'L', b'z', 0x01, 0x03, 0x11, 0x00, 0x00,
            0x00, 0x00, 0x00, 0x00, 0x00, 0x00, 0x00, 0x00, 0xff, 0x06, 0x00, 0x00, b'M', b'i',
            b'n', b'L', b'z', 0x00, 0x01, 0xff, 0x1d, 0xc6,
        ],
        &[
            0xff, 0x06, 0x00, 0x00, b'M', b'i', b'n', b'L', b'z', 0x29, 0x03, 0x0a, 0x00, 0x00,
            0x00, 0x00, 0x00, 0x00, 0x00, 0x00, 0x00, 0x00, 0x00, 0x00, 0x00, 0x00, 0x00, 0x00,
            0x00, 0x00, 0x00, 0x00, 0x00, 0x00, 0x00, 0x00, 0x00, 0x00, 0x00, 0xf5, 0xb8, 0x03,
            0x00, 0x00, 0x00, 0x00,
        ],
    ];
    for (i, input) in crashes.iter().enumerate() {
        let mut out = Vec::new();
        let _ = Reader::new(input.to_vec()).read_to_end(&mut out);
        let mut r = Reader::new(input.to_vec());
        while let Ok(buf) = r.fill_buf() {
            let n = buf.len();
            if n == 0 {
                break;
            }
            r.consume(n);
        }
        let _ = i;
    }
}


#[test]
fn decodes_go_generated_stream() {
    let bytes = decode_hex(
        "ff0600004d696e4c7a0d02090000a91e7170430061ec24200100004340\
         1a000073326964780086013880808008020014 1e00000000786469 3273",
    );
    let got = decode_to_end(Reader::new(bytes.to_vec())).unwrap();
    assert_eq!(got, vec![b'a'; 67]);
}

fn decode_hex(s: &str) -> Vec<u8> {
    let cleaned: String = s.chars().filter(|c| !c.is_whitespace()).collect();
    let mut out = Vec::with_capacity(cleaned.len() / 2);
    let bytes = cleaned.as_bytes();
    for pair in bytes.chunks(2) {
        let s = std::str::from_utf8(pair).unwrap();
        out.push(u8::from_str_radix(s, 16).unwrap());
    }
    out
}


fn build_multi_block_stream(payload: &[u8], block_size: usize) -> Vec<u8> {
    let mut w = WriterBuilder::new().block_size(block_size).build(Vec::new());
    w.write_all(payload).unwrap();
    w.finish().unwrap()
}

#[test]
fn skip_zero_is_noop() {
    let payload = b"hello, MinLZ".to_vec();
    let stream = build_multi_block_stream(&payload, MIN_BLOCK_SIZE);
    let mut reader = Reader::new(stream);
    reader.skip(0).unwrap();
    let mut out = Vec::new();
    reader.read_to_end(&mut out).unwrap();
    assert_eq!(out, payload);
}

#[test]
fn skip_within_first_block_no_io() {
    let payload: Vec<u8> = (0u8..255).cycle().take(8 * 1024).collect();
    let stream = build_multi_block_stream(&payload, MIN_BLOCK_SIZE);
    let mut reader = Reader::new(stream);
    let mut throwaway = [0u8; 1];
    reader.read_exact(&mut throwaway).unwrap();
    reader.skip(100).unwrap();
    let mut tail = Vec::new();
    reader.read_to_end(&mut tail).unwrap();
    assert_eq!(tail, payload[101..]);
}

#[test]
fn skip_across_block_boundary() {
    let payload: Vec<u8> = (0..12 * 1024).map(|i| (i as u8).wrapping_mul(17)).collect();
    let stream = build_multi_block_stream(&payload, 4 << 10);
    let mut reader = Reader::new(stream);
    reader.skip(5_000).unwrap();
    let mut tail = Vec::new();
    reader.read_to_end(&mut tail).unwrap();
    assert_eq!(tail, payload[5_000..]);
}

#[test]
fn skip_entire_block_then_partial() {
    let block_size = 4 << 10;
    let payload: Vec<u8> = (0..4 * block_size)
        .map(|i| (i as u8).wrapping_add(7))
        .collect();
    let stream = build_multi_block_stream(&payload, block_size);
    let mut reader = Reader::new(stream);
    reader.skip((2 * block_size + 1024) as u64).unwrap();
    let mut tail = Vec::new();
    reader.read_to_end(&mut tail).unwrap();
    assert_eq!(tail, payload[2 * block_size + 1024..]);
}

#[test]
fn skip_past_eof_errors() {
    let payload = vec![b'x'; 1024];
    let stream = build_multi_block_stream(&payload, MIN_BLOCK_SIZE);
    let mut reader = Reader::new(stream);
    let err = reader.skip(payload.len() as u64 + 1).unwrap_err();
    assert_eq!(err.kind(), ErrorKind::UnexpectedEof);
    let mut buf = [0u8; 1];
    let err2 = reader.read(&mut buf).unwrap_err();
    assert_eq!(err2.kind(), ErrorKind::UnexpectedEof);
}

#[test]
fn skip_then_read_matches_full_decode() {
    let block_size = 4 << 10;
    let payload: Vec<u8> = (0..5 * block_size)
        .map(|i| ((i * 31) ^ (i >> 3)) as u8)
        .collect();
    let stream = build_multi_block_stream(&payload, block_size);
    for &skip in &[
        0u64,
        1,
        1024,
        4096,
        4097,
        8192,
        16_000,
        payload.len() as u64 - 1,
    ] {
        let mut reader = Reader::new(stream.to_vec());
        reader.skip(skip).unwrap();
        let mut tail = Vec::new();
        reader.read_to_end(&mut tail).unwrap();
        assert_eq!(tail, payload[skip as usize..], "skip={skip}");
    }
}

#[test]
fn skip_full_block_uses_fast_path() {
    let payload = vec![b'M'; 8 * 1024];
    let mut stream = build_multi_block_stream(&payload, MIN_BLOCK_SIZE);

    let crc_off = make_stream_header(DEFAULT_BLOCK_SIZE).len() + 4;
    stream[crc_off] ^= 0xff;

    {
        let mut r = Reader::new(stream.to_vec());
        let mut sink = Vec::new();
        let err = r.read_to_end(&mut sink).unwrap_err();
        let s = format!("{err:?}");
        assert!(
            s.to_lowercase().contains("crc") || err.kind() == ErrorKind::InvalidData,
            "expected CRC error, got: {s}"
        );
    }

    let mut r = Reader::new(stream.to_vec());
    r.skip(MIN_BLOCK_SIZE as u64).unwrap();
    assert_eq!(r.current_offset(), MIN_BLOCK_SIZE as u64);
}

#[test]
fn current_offset_tracks_reads_and_skips() {
    let payload: Vec<u8> = (0..16 * 1024).map(|i| (i as u8).wrapping_mul(3)).collect();
    let stream = build_multi_block_stream(&payload, 4 << 10);
    let mut reader = Reader::new(stream);
    assert_eq!(reader.current_offset(), 0);
    let mut buf = [0u8; 1000];
    reader.read_exact(&mut buf).unwrap();
    assert_eq!(reader.current_offset(), 1000);
    reader.skip(2000).unwrap();
    assert_eq!(reader.current_offset(), 3000);
    reader.read_exact(&mut buf).unwrap();
    assert_eq!(reader.current_offset(), 4000);
}

#[test]
fn comp_crc_chunk_round_trip() {
    let payload = b"the quick brown fox the quick brown fox the quick brown fox";
    let mut chunk_body = Vec::new();
    append_encoded_chunk_body(&mut chunk_body, payload, Level::Balanced)
        .expect("encode");
    let (_, n) = get_uvarint(&chunk_body).unwrap();
    let crc_input = &chunk_body[n..];
    let mut s = Vec::new();
    s.extend_from_slice(&make_stream_header(DEFAULT_BLOCK_SIZE));
    let mut body = Vec::new();
    body.extend_from_slice(&masked_crc32c(crc_input).to_le_bytes());
    body.extend_from_slice(&chunk_body);
    push_chunk(&mut s, CHUNK_TYPE_MINLZ_COMPRESSED_DATA_COMP_CRC, &body);
    push_eof(&mut s, payload.len() as u64);
    let got = decode_to_end(Reader::new(s.to_vec())).unwrap();
    assert_eq!(got, payload);
}
