use minlz::block::emit::{
    emit_copy, emit_copy_lits2, emit_copy_lits3, emit_copy_size, emit_literal, emit_repeat,
    emit_repeat_size,
};
use minlz::block::format::{
    get_uvarint, put_uvarint, MAX_COPY2_OFFSET, MAX_COPY3_OFFSET, MIN_COPY2_OFFSET,
    MIN_COPY3_OFFSET, TAG_COPY3,
};
use minlz::{decode, decoded_len, encode, max_encoded_len, Error, Level, MAX_BLOCK_SIZE};

fn roundtrip_at(input: &[u8], level: Level) -> Result<(), String> {
    let mut enc = Vec::new();
    encode(&mut enc, input, level).map_err(|e| format!("encode: {e:?}"))?;
    let mut dec = Vec::new();
    decode(&mut dec, &enc).map_err(|e| format!("decode: {e:?}"))?;
    if dec != input {
        return Err(format!(
            "mismatch: got {} bytes, want {} bytes",
            dec.len(),
            input.len()
        ));
    }
    Ok(())
}

fn roundtrip(input: &[u8]) -> Result<(), String> {
    let levels: &[Level] = &[Level::Fastest, Level::Balanced, Level::Smallest];
    for &level in levels {
        roundtrip_at(input, level).map_err(|e| format!("lvl {level:?}: {e}"))?;
    }
    Ok(())
}

#[test]
fn tests_max_encoded_len_matches_go() {
    assert_eq!(max_encoded_len(0), Some(1));
    assert_eq!(max_encoded_len(1 << 5), Some((1 << 5) + 2));
    assert_eq!(max_encoded_len(MAX_BLOCK_SIZE), Some(MAX_BLOCK_SIZE + 2));
    assert_eq!(max_encoded_len(u32::MAX as usize), None);
    let sweep = 4096;
    for i in 1..=sweep {
        assert_eq!(max_encoded_len(i), Some(i + 2));
    }
}

#[test]
fn empty() {
    roundtrip(&[]).expect("empty roundtrip");
}

#[test]
fn small_copy() {
    for i in 0..32 {
        let mut s = String::from("aaaa");
        s.push_str(&"b".repeat(i));
        s.push_str("aaaabbbb");
        roundtrip(s.as_bytes()).unwrap_or_else(|e| panic!("i={i}: {e}"));
    }
}

#[test]
fn small_rand() {
    let mut rng = Xor64::new(1);
    let mut n = 1;
    while n < 20_000 {
        let buf: Vec<u8> = (0..n).map(|_| rng.next() as u8).collect();
        roundtrip(&buf).unwrap_or_else(|e| panic!("n={n}: {e}"));
        n += 23;
    }
}

#[test]
fn small_regular() {
    let mut n = 1;
    while n < 20_000 {
        let buf: Vec<u8> = (0..n).map(|i| ((i % 10) as u8) + b'a').collect();
        roundtrip(&buf).unwrap_or_else(|e| panic!("n={n}: {e}"));
        n += 23;
    }
}

#[test]
fn small_repeat() {
    let mut n = 1;
    while n < 20_000 {
        let mut buf = vec![0u8; n];
        let half = n / 2;
        for (i, b) in buf[..half].iter_mut().enumerate() {
            *b = ((i * 255) / n) as u8;
        }
        for (i, b) in buf[half..].iter_mut().enumerate() {
            *b = ((i % 10) as u8) + b'a';
        }
        roundtrip(&buf).unwrap_or_else(|e| panic!("n={n}: {e}"));
        n += 23;
    }
}

#[test]
fn invalid_varint() {
    let cases: &[&[u8]] = &[
        b"\xff",
        b"\xff\xff\xff\xff\xff\xff\xff\xff\xff\xff\x00",
        b"\x80\x80\x80\x80\x10",
        b"\x00\xff",
        b"\x00\xff\xff\xff\xff\xff\xff\xff\xff\xff\xff\x00",
        b"\x00\x80\x80\x80\x80\x10",
    ];
    for input in cases {
        let err = decoded_len(input).expect_err("expected an error");
        assert!(matches!(err, Error::Corrupt(_)), "input={input:?}");
    }
}

#[test]
fn decoded_len_minimal() {
    assert_eq!(decoded_len(&[0x00]).unwrap(), 0);
    assert!(matches!(decoded_len(&[]).unwrap_err(), Error::Corrupt(_)));
    assert!(matches!(decoded_len(&[0x00, 0x00]).unwrap_err(), Error::Corrupt(_)));
    assert_eq!(decoded_len(&[0x00, 0x00, b'A']).unwrap(), 1);
}

#[test]
fn tiny_roundtrips() {
    roundtrip(b"").unwrap();
    roundtrip(b"a").unwrap();
    roundtrip(b"ab").unwrap();
    roundtrip(b"abc").unwrap();
}

#[test]
fn medium_64k_roundtrip() {
    let mut buf = Vec::with_capacity(32 << 10);
    while buf.len() < 32 << 10 {
        buf.extend_from_slice(b"foobar ");
    }
    roundtrip(&buf).unwrap();
}

#[test]
fn large_big_roundtrip() {
    let mut buf = Vec::with_capacity(128 << 10);
    while buf.len() < 128 << 10 {
        buf.extend_from_slice(b"the quick brown fox ");
    }
    roundtrip(&buf).unwrap();
}

const PANGRAM_PARTS: &[&[u8]] = &[
    b"The quick brown fox jumps over the lazy dog. ",
    b"Pack my box with five dozen liquor jugs. ",
    b"How quickly daft jumping zebras vex. ",
    b"Sphinx of black quartz, judge my vow. ",
    b"The five boxing wizards jump quickly.",
];

fn pangram_x(times: usize) -> Vec<u8> {
    let pat_len: usize = PANGRAM_PARTS.iter().map(|p| p.len()).sum();
    let mut out = Vec::with_capacity(pat_len * times);
    for _ in 0..times {
        for p in PANGRAM_PARTS {
            out.extend_from_slice(p);
        }
    }
    out
}

#[test]
fn encoder_compresses_natural_repetition() {
    let buf = pangram_x(100);
    let mut enc = Vec::new();
    encode(&mut enc, &buf, Level::Fastest).unwrap();
    assert!(
        enc.len() < buf.len() / 10,
        "expected heavy compression, got enc={} src={}",
        enc.len(),
        buf.len()
    );
}

#[test]
fn decode_go_noasm_fixtures() {
    let pangram_100 = pangram_x(100);
    let pangram_1000 = pangram_x(1000);
    let fixtures: &[(&[u8], &str)] = &[
        (
            &pangram_100,
            "00d89a01e89a54686520717569636b2062726f776e20666f78206a756d7073206f76657220746865206c617a7920646f672e205061636b206d7920626f782077697468206669766520646f7a656e206c6971756f72206a7567732e20486f7720717569636b6c792064616674206a756d70696e67207a6562726173207665782e20537068696e78206f6620626c61636b2071756172747a2c206a75646765206d7920766f772e20546865206669766520626f78696e672077697a617264730529492ef386006c792ef4634c2869636b6c792e",
        ),
        (
            &pangram_1000,
            "00f08a0ce88354686520717569636b2062726f776e20666f78206a756d7073206f76657220746865206c617a7920646f672e205061636b206d7920626f782077697468206669766520646f7a656e206c6971756f72206a7567732e20486f7720717569636b6c792064616674206a756d70696e67207a6562726173207665782e20537068696e78206f6620626c61636b2071756172747a2c206a75646765206d7920766f772e200128b86669766520626f78696e672077697a61726473206a756d70d118e386002efc7b04032869636b6c792e",
        ),
    ];
    for &(plain, hex_enc) in fixtures {
        let enc = hex_decode(hex_enc);
        let mut dec = Vec::new();
        decode(&mut dec, &enc).expect("decode fixture");
        assert_eq!(dec.len(), plain.len(), "decoded length mismatch");
        assert_eq!(&dec[..], plain, "decoded contents mismatch");
    }
}

#[test]
fn decode_go_asm_fixtures() {
    let foobar = repeat_bytes(b"foobar ", 32 << 10);
    let abc = repeat_bytes(b"abc", 16 << 10);
    let alpha = repeat_bytes(b"abcdefghijklmnopqrstuvwxyz", 1024);
    let fixtures: &[(&[u8], &str)] = &[
        (&foobar, "0080800230666f6f62617220b901f4c97f"),
        (&abc, "0080800110616263b900f4cd3f"),
        (
            &alpha,
            "008008c86162636465666768696a6b6c6d6e6f707172737475767778797a7906f4b603",
        ),
    ];
    for &(plain, hex_enc) in fixtures {
        let enc = hex_decode(hex_enc);
        let mut dec = Vec::new();
        decode(&mut dec, &enc).expect("decode fixture");
        assert_eq!(dec.len(), plain.len(), "decoded length mismatch");
        assert_eq!(&dec[..], plain, "decoded contents mismatch");
    }
}

fn repeat_bytes(pat: &[u8], n: usize) -> Vec<u8> {
    let mut v = Vec::with_capacity(n + pat.len());
    while v.len() < n {
        v.extend_from_slice(pat);
    }
    v.truncate(n);
    v
}

fn hex_decode(s: &str) -> Vec<u8> {
    assert_eq!(s.len() % 2, 0);
    (0..s.len())
        .step_by(2)
        .map(|i| u8::from_str_radix(&s[i..i + 2], 16).expect("hex"))
        .collect()
}

#[test]
fn decode_block_overlapping() {
    let patterns: &[Vec<u8>] = &[
        repeat_bytes(b"a", 1000),
        repeat_bytes(b"ab", 1000),
        repeat_bytes(b"abc", 999),
        repeat_bytes(b"abcd", 1000),
        repeat_bytes(b"abcdefg", 1001),
    ];
    for (i, pat) in patterns.iter().enumerate() {
        roundtrip(pat).unwrap_or_else(|e| panic!("pattern {i}: {e}"));
    }
}

#[test]
fn decode_block_long_offsets() {
    let size = 200_000;
    let mut data = vec![0u8; size];
    let mut rng = Xor64::new(123);
    for b in data.iter_mut() {
        *b = rng.next() as u8;
    }
    let pattern = b"REPEATED_PATTERN_DATA";
    for &off in &[100usize, 1000, 10_000, 65_000, 100_000] {
        if off + pattern.len() < size {
            data[off..off + pattern.len()].copy_from_slice(pattern);
            if off * 2 + pattern.len() < size {
                data[off * 2..off * 2 + pattern.len()].copy_from_slice(pattern);
            }
        }
    }
    roundtrip(&data).unwrap();
}

#[test]
fn encode_noise_then_repeats() {
    for &orig_len in &[256 * 1024usize, 2048 * 1024] {
        let mut src = vec![0u8; orig_len];
        let mut rng = Xor64::new(1);
        let half = orig_len / 2;
        for b in src[..half].iter_mut() {
            *b = rng.next() as u8;
        }
        for (i, b) in src[half..].iter_mut().enumerate() {
            *b = (i >> 8) as u8;
        }
        let mut enc = Vec::new();
        encode(&mut enc, &src, Level::Fastest).unwrap();
        let want_less_than = orig_len * 3 / 4;
        assert!(
            enc.len() < want_less_than,
            "orig_len={orig_len}: got {} encoded bytes, want less than {want_less_than}",
            enc.len()
        );
    }
}

#[test]
fn encode_huge() {
    let data = vec![0u8; MAX_BLOCK_SIZE];
    for &level in &[Level::Fastest, Level::Balanced, Level::Smallest] {
        let mut enc = Vec::new();
        encode(&mut enc, &data, level).unwrap();
        let mut dec = Vec::new();
        decode(&mut dec, &enc).unwrap();
        assert_eq!(dec.len(), data.len(), "level {level:?}");
        assert!(enc.len() <= max_encoded_len(data.len()).unwrap());
    }
}

#[test]
fn emit_size_predictors() {
    let offsets = [10usize, 4000, 70_000];
    let mut tmp: Vec<u8> = Vec::new();
    let lengths: Vec<usize> = (4..16).chain((16..MAX_BLOCK_SIZE).step_by(257)).collect();
    for &offset in &offsets {
        for &length in &lengths {
            tmp.clear();
            let n = emit_copy(&mut tmp, offset, length);
            let predicted = emit_copy_size(offset, length);
            assert_eq!(
                n, predicted,
                "emit_copy_size(offset={offset}, length={length}): got {predicted}, want {n}"
            );
        }
    }
    for length in 1..16 {
        tmp.clear();
        let n = emit_repeat(&mut tmp, length);
        let predicted = emit_repeat_size(length);
        assert_eq!(
            n, predicted,
            "emit_repeat_size({length}): got {predicted}, want {n}"
        );
    }
    for length in (16..MAX_BLOCK_SIZE).step_by(257) {
        tmp.clear();
        let n = emit_repeat(&mut tmp, length);
        let predicted = emit_repeat_size(length);
        assert_eq!(
            n, predicted,
            "emit_repeat_size({length}): got {predicted}, want {n}"
        );
    }
}

#[test]
fn emitters_copy1() {
    let mut tmp: Vec<u8> = Vec::new();
    for off in 1..=1024usize {
        for l in 4..=273usize {
            tmp.clear();
            let n = emit_copy(&mut tmp, off, l);
            let bytes = &tmp[..n];
            assert_eq!(bytes[0] & 3, 0b01, "tag at off={off} len={l}");
            let mut length = ((bytes[0] >> 2) & 15) as usize;
            let offset = ((u16::from_le_bytes([bytes[0], bytes[1]]) >> 6) as usize) + 1;
            let consumed = if length == 15 {
                length = bytes[2] as usize + 18;
                3
            } else {
                length += 4;
                2
            };
            assert_eq!(length, l, "length parse at off={off} expected={l}");
            assert_eq!(offset, off, "offset parse at off={off} length={l}");
            assert_eq!(consumed, n, "byte count at off={off} length={l}");
        }
    }
}

#[test]
fn emitters_copy2_lits() {
    let mut tmp: Vec<u8> = Vec::new();
    let mut lits: Vec<u8> = vec![1];
    while lits.len() <= 4 {
        for off in (MIN_COPY2_OFFSET..=MAX_COPY2_OFFSET).step_by(997)
        {
            for l in 4..=11usize {
                tmp.clear();
                let n = emit_copy_lits2(&mut tmp, &lits, off, l);
                let bytes = &tmp[..n];
                assert_eq!(bytes[0] & 3, 0b11, "tag");
                assert_eq!(bytes[0] & 4, 0, "copy3 bit set unexpectedly");
                let value = bytes[0] >> 3;
                let offset = (u16::from_le_bytes([bytes[1], bytes[2]]) as usize)
                    + MIN_COPY2_OFFSET;
                let lit_len = ((value & 3) as usize) + 1;
                let copy_len = ((value >> 2) as usize) + 4;
                assert_eq!(copy_len, l, "copy_len at off={off} l={l}");
                assert_eq!(offset, off, "offset at off={off} l={l}");
                assert_eq!(lit_len, lits.len());
                assert_eq!(n, 3 + lits.len());
                assert_eq!(&bytes[3..], &lits[..]);
            }
        }
        lits.push((lits.len() + 1) as u8);
    }
}

#[test]
fn emitters_copy3() {
    let mut tmp: Vec<u8> = Vec::new();
    let mut lits: Vec<u8> = Vec::new();
    while lits.len() <= 3 {
        let mut off = MAX_COPY2_OFFSET + 1;
        while off <= MAX_COPY3_OFFSET {
            let mut l = 4usize;
            while l <= 1 << 16 {
                tmp.clear();
                let n = if !lits.is_empty() {
                    emit_copy_lits3(&mut tmp, &lits, off, l)
                } else {
                    emit_copy(&mut tmp, off, l)
                };
                let bytes = &tmp[..n];
                assert_eq!(
                    bytes[0] & 7,
                    TAG_COPY3,
                    "tag at off={off} l={l}"
                );
                let val = u32::from_le_bytes([bytes[0], bytes[1], bytes[2], bytes[3]]);
                let length_field = ((val >> 5) & 63) as usize;
                let offset = ((val >> 11) as usize) + MIN_COPY3_OFFSET;
                let (length, consumed) = match length_field {
                    0..=60 => (length_field + 4, 4),
                    61 => (bytes[4] as usize + 64, 5),
                    62 => (u16::from_le_bytes([bytes[4], bytes[5]]) as usize + 64, 6),
                    63 => (
                        ((bytes[4] as usize)
                            | ((bytes[5] as usize) << 8)
                            | ((bytes[6] as usize) << 16))
                            + 64,
                        7,
                    ),
                    _ => panic!("bad length field"),
                };
                let nlits = ((val >> 3) & 3) as usize;
                assert_eq!(nlits, lits.len(), "lit count at off={off} l={l}");
                if nlits > 0 {
                    assert_eq!(&bytes[consumed..consumed + nlits], &lits[..]);
                }
                assert_eq!(length, l, "length at off={off} l={l}");
                assert_eq!(offset, off, "offset at off={off} l={l}");
                assert_eq!(consumed + nlits, n, "total bytes at off={off} l={l}");
                l = ((l as f64) * 1.5) as usize + 1;
            }
            off = off.saturating_mul(2);
            if off == 0 {
                break;
            }
        }
        lits.push((lits.len() + 1) as u8);
    }
}

#[test]
fn miri_decoder_unsafe_paths() {
    let inputs: &[&[u8]] = &[
        b"",
        b"a",
        b"ab",
        b"abcdefghijklmnop",
        b"abcdefghijklmnopq",
        b"abcabcabcabcabcabcabcabcabcabc",
        b"prefix aaaaaaaaaaaaaaaa suffix",
        b"the quick brown fox jumps over the lazy dog. the quick brown fox jumps over the lazy dog.",
    ];
    let levels: &[Level] = &[Level::Fastest, Level::Balanced, Level::Smallest];
    for &input in inputs {
        for &level in levels {
            let mut enc = Vec::new();
            encode(&mut enc, input, level).expect("encode");
            let mut dec = Vec::new();
            decode(&mut dec, &enc).expect("decode");
            assert_eq!(
                dec.as_slice(),
                input,
                "level {level:?} on {} bytes",
                input.len()
            );
        }
    }

    let alpha = repeat_bytes(b"abcdefghijklmnopqrstuvwxyz", 1024);
    let enc = hex_decode("008008c86162636465666768696a6b6c6d6e6f707172737475767778797a7906f4b603");
    let mut dec = Vec::new();
    decode(&mut dec, &enc).expect("decode alpha fixture");
    assert_eq!(dec.len(), alpha.len());
    assert_eq!(&dec[..], &alpha[..]);
}

struct Xor64(u64);
impl Xor64 {
    fn new(seed: u64) -> Self {
        Self(seed.wrapping_add(0x9E37_79B9_7F4A_7C15))
    }
    fn next(&mut self) -> u32 {
        let mut x = self.0;
        x ^= x << 13;
        x ^= x >> 7;
        x ^= x << 17;
        self.0 = x;
        x as u32
    }
}

#[test]
fn l1_offset_at_max_copy3_boundary_roundtrips() {
    const MAX: usize = MAX_COPY3_OFFSET;
    let total = MAX + 32;
    let mut data = vec![0u8; total];
    let marker = b"\xfeSeNtInL";
    data[..marker.len()].copy_from_slice(marker);
    data[MAX..MAX + marker.len()].copy_from_slice(marker);
    let mut rng = Xor64::new(0xabad_cafe);
    for slot in data[marker.len()..MAX].iter_mut() {
        *slot = rng.next() as u8;
    }
    for slot in data[MAX + marker.len()..].iter_mut() {
        *slot = rng.next() as u8;
    }
    roundtrip_at(&data, Level::Fastest).expect("L1 boundary roundtrip");
}

#[test]
fn emit_literal_matches_go() {
    let cases: &[(usize, &[u8])] = &[
        (1, b"\x00"),
        (2, b"\x08"),
        (27, b"\xd0"),
        (28, b"\xd8"),
        (29, b"\xe0"),
        (30, b"\xe8\x00"),
        (59, b"\xe8\x1d"),
        (60, b"\xe8\x1e"),
        (61, b"\xe8\x1f"),
        (62, b"\xe8\x20"),
        (254, b"\xe8\xe0"),
        (255, b"\xe8\xe1"),
        (256, b"\xe8\xe2"),
        (257, b"\xe8\xe3"),
        (65534, b"\xf0\xe0\xff"),
        (65535, b"\xf0\xe1\xff"),
        (65536, b"\xf0\xe2\xff"),
        (165536, b"\xf8\x82\x86\x02"),
    ];
    let mut dst: Vec<u8> = Vec::new();
    let nines = vec![0x99u8; MAX_BLOCK_SIZE];
    for &(len, want_header) in cases {
        let lit = &nines[..len];
        dst.clear();
        let n = emit_literal(&mut dst, lit);
        assert!(
            dst[n - len..n].iter().all(|&b| b == 0x99),
            "length={len}: did not end with literal bytes"
        );
        let got_header = &dst[..n - len];
        assert_eq!(
            got_header, want_header,
            "length={len}: header mismatch\ngot  {got_header:?}\nwant {want_header:?}"
        );
    }
}

#[test]
fn emit_copy_matches_go() {
    let cases: &[(usize, usize, &[u8])] = &[
        (8, 4, &[0xc1, 0x01]),
        (8, 11, &[0xdd, 0x01]),
        (8, 12, &[0xe1, 0x01]),
        (8, 13, &[0xe5, 0x01]),
        (8, 17, &[0xf5, 0x01]),
        (8, 18, &[0xf9, 0x01]),
        (8, 19, &[0xfd, 0x01, 0x01]),
        (8, 59, &[0xfd, 0x01, 0x29]),
        (8, 60, &[0xfd, 0x01, 0x2a]),
        (8, 61, &[0xfd, 0x01, 0x2b]),
        (8, 62, &[0xfd, 0x01, 0x2c]),
        (8, 63, &[0xfd, 0x01, 0x2d]),
        (8, 64, &[0xfd, 0x01, 0x2e]),
        (8, 65, &[0xfd, 0x01, 0x2f]),
        (8, 66, &[0xfd, 0x01, 0x30]),
        (8, 67, &[0xfd, 0x01, 0x31]),
        (8, 68, &[0xfd, 0x01, 0x32]),
        (8, 69, &[0xfd, 0x01, 0x33]),
        (8, 80, &[0xfd, 0x01, 0x3e]),
        (8, 800, &[0xf9, 0x01, 0xf4, 0xf0, 0x02]),
        (8, 800_000, &[0xf9, 0x01, 0xfc, 0xd0, 0x34, 0x0c]),
        (256, 4, &[0xc1, 0x3f]),
        (256, 11, &[0xdd, 0x3f]),
        (256, 12, &[0xe1, 0x3f]),
        (256, 13, &[0xe5, 0x3f]),
        (256, 18, &[0xf9, 0x3f]),
        (256, 19, &[0xfd, 0x3f, 0x01]),
        (256, 59, &[0xfd, 0x3f, 0x29]),
        (256, 60, &[0xfd, 0x3f, 0x2a]),
        (256, 61, &[0xfd, 0x3f, 0x2b]),
        (256, 62, &[0xfd, 0x3f, 0x2c]),
        (256, 63, &[0xfd, 0x3f, 0x2d]),
        (256, 64, &[0xfd, 0x3f, 0x2e]),
        (256, 65, &[0xfd, 0x3f, 0x2f]),
        (256, 66, &[0xfd, 0x3f, 0x30]),
        (256, 67, &[0xfd, 0x3f, 0x31]),
        (256, 68, &[0xfd, 0x3f, 0x32]),
        (256, 69, &[0xfd, 0x3f, 0x33]),
        (256, 80, &[0xfd, 0x3f, 0x3e]),
        (256, 800, &[0xf9, 0x3f, 0xf4, 0xf0, 0x02]),
        (256, 80_000, &[0xf9, 0x3f, 0xfc, 0x50, 0x38, 0x01]),
        (2048, 4, &[0x02, 0xc0, 0x07]),
        (2048, 11, &[0x1e, 0xc0, 0x07]),
        (2048, 12, &[0x22, 0xc0, 0x07]),
        (2048, 13, &[0x26, 0xc0, 0x07]),
        (2048, 59, &[0xde, 0xc0, 0x07]),
        (2048, 60, &[0xe2, 0xc0, 0x07]),
        (2048, 61, &[0xe6, 0xc0, 0x07]),
        (2048, 62, &[0xea, 0xc0, 0x07]),
        (2048, 63, &[0xee, 0xc0, 0x07]),
        (2048, 64, &[0xf2, 0xc0, 0x07]),
        (2048, 65, &[0xf6, 0xc0, 0x07, 0x01]),
        (2048, 66, &[0xf6, 0xc0, 0x07, 0x02]),
        (2048, 67, &[0xf6, 0xc0, 0x07, 0x03]),
        (2048, 68, &[0xf6, 0xc0, 0x07, 0x04]),
        (2048, 69, &[0xf6, 0xc0, 0x07, 0x05]),
        (2048, 80, &[0xf6, 0xc0, 0x07, 0x10]),
        (2048, 800, &[0xfa, 0xc0, 0x07, 0xe0, 0x02]),
        (2048, 80_000, &[0xfe, 0xc0, 0x07, 0x40, 0x38, 0x01]),
        (204_800, 4, &[0x07, 0x00, 0x00, 0x11]),
        (204_800, 28, &[0x07, 0x03, 0x00, 0x11]),
        (204_800, 32, &[0x87, 0x03, 0x00, 0x11]),
        (204_800, 33, &[0xa7, 0x03, 0x00, 0x11]),
        (204_800, 40, &[0x87, 0x04, 0x00, 0x11]),
        (204_800, 65, &[0xa7, 0x07, 0x00, 0x11, 0x01]),
        (204_800, 69, &[0xa7, 0x07, 0x00, 0x11, 0x05]),
        (204_800, 800, &[0xc7, 0x07, 0x00, 0x11, 0xe0, 0x02]),
        (204_800, 80_000, &[0xe7, 0x07, 0x00, 0x11, 0x40, 0x38, 0x01]),
    ];
    let mut dst: Vec<u8> = Vec::new();
    for &(offset, length, want) in cases {
        dst.clear();
        let n = emit_copy(&mut dst, offset, length);
        let got = &dst[..n];
        assert_eq!(
            got, want,
            "offset={offset} length={length}\ngot  {got:?}\nwant {want:?}"
        );
    }
}

#[test]
fn format_max_encoded_len_matches_go() {
    assert_eq!(max_encoded_len(0), Some(1));
    assert_eq!(max_encoded_len(1), Some(3));
    assert_eq!(max_encoded_len(MAX_BLOCK_SIZE), Some(MAX_BLOCK_SIZE + 2));
    assert_eq!(max_encoded_len(MAX_BLOCK_SIZE + 1), None);
}

#[test]
fn varint_roundtrip() {
    for &v in &[
        0u64,
        1,
        127,
        128,
        255,
        16_383,
        16_384,
        1 << 20,
        u32::MAX as u64,
        u64::MAX,
    ] {
        let mut buf = Vec::new();
        put_uvarint(&mut buf, v);
        let (decoded, n) = get_uvarint(&buf).expect("decode");
        assert_eq!(decoded, v, "value {v} round-trip failed");
        assert_eq!(n, buf.len(), "n != buf.len() for v={v}");
    }
}

#[test]
fn varint_rejects_truncated() {
    assert_eq!(get_uvarint(&[]), None);
    assert_eq!(get_uvarint(&[0xff]), None);
    let bad = [
        0xff, 0xff, 0xff, 0xff, 0xff, 0xff, 0xff, 0xff, 0xff, 0xff, 0x00,
    ];
    assert_eq!(get_uvarint(&bad), None);
}

#[test]
fn varint_rejects_64bit_overflow() {
    let bad = [0x80, 0x80, 0x80, 0x80, 0x80, 0x80, 0x80, 0x80, 0x80, 0x02];
    assert_eq!(get_uvarint(&bad), None);
}
