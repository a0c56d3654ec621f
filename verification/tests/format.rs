use minlz::stream::crc::{crc32c, crc32c_update, mask_crc32c, masked_crc32c};
use minlz::stream::format::{
    block_size_from_indicator, block_size_indicator, get_uvarint, make_stream_header, put_uvarint,
    DEFAULT_BLOCK_SIZE, MAX_BLOCK_SIZE, MIN_BLOCK_SIZE,
};

const STRIDE_BYTES: usize = 1024;

fn crc_by_bits(crc: u32, data: &[u8]) -> u32 {
    let mut c = !crc;
    for &b in data {
        c ^= b as u32;
        for _ in 0..8 {
            c = if c & 1 == 1 { (c >> 1) ^ 0x82f6_3b78 } else { c >> 1 };
        }
    }
    !c
}

fn check(input: &[u8], raw: u32, masked: u32) {
    assert_eq!(crc32c(input), raw, "raw mismatch for {input:?}");
    assert_eq!(mask_crc32c(raw), masked, "mask fn mismatch for {input:?}");
    assert_eq!(
        masked_crc32c(input),
        masked,
        "masked mismatch for {input:?}"
    );
    assert_eq!(
        crc_by_bits(0, input),
        raw,
        "table mismatch for {input:?}"
    );
}

#[test]
fn vectors_match_go() {
    check(b"", 0x0000_0000, 0xa282_ead8);
    check(b"a", 0xc1d0_4330, 0x28e4_6e78);
    check(b"ab", 0xe2a2_2936, 0xf4f0_b01c);
    check(b"abc", 0x364b_3fb7, 0x21f1_576e);
    check(b"123456789", 0xe306_9283, 0xc78a_b0e5);
    check(
        b"The quick brown fox jumps over the lazy dog",
        0x2262_0404,
        0xaa8b_2f9c,
    );
    check(&[0u8; 32], 0x8a91_36aa, 0x0fd7_fffa);
    check(&[0xffu8; 32], 0x62a8_ab43, 0xf909_b029);
    let inc: Vec<u8> = (0u32..1024).map(|i| i as u8).collect();
    check(&inc, 0x2cdf_6e8f, 0x7fa1_4496);
    check(b"MinLz\x0b", 0x068b_74c0, 0x8c02_f7ee);
}

#[test]
fn empty_masked_is_constant() {
    assert_eq!(masked_crc32c(&[]), 0xa282_ead8);
}

#[test]
fn update_is_associative() {
    let data = b"the quick brown fox jumps over the lazy dog";
    let one_shot = crc32c(data);
    let (a, b) = data.split_at(11);
    let split = crc32c_update(crc32c_update(0, a), b);
    assert_eq!(one_shot, split);
}

#[test]
fn hw_matches_table_at_every_tail() {
    let data: Vec<u8> = (0..257u32).map(|i| (i * 31) as u8).collect();
    for end in 0..=data.len() {
        let slice = &data[..end];
        let hw = crc32c(slice);
        let tbl = crc_by_bits(0, slice);
        assert_eq!(hw, tbl, "length {end}");
    }
}

#[test]
fn hw_matches_table_in_3way_range() {
    let n = 7 * STRIDE_BYTES + 257;
    let mut data = vec![0u8; n];
    let mut x: u64 = 0xdead_beef_cafe_babe;
    for slot in &mut data {
        x = x
            .wrapping_mul(6364136223846793005)
            .wrapping_add(1442695040888963407);
        *slot = (x >> 24) as u8;
    }
    for end in [
        STRIDE_BYTES * 3 - 1,
        STRIDE_BYTES * 3,
        STRIDE_BYTES * 3 + 1,
        STRIDE_BYTES * 3 + 7,
        STRIDE_BYTES * 3 + 8,
        STRIDE_BYTES * 3 + 17,
        STRIDE_BYTES * 6,
        STRIDE_BYTES * 6 + 31,
        n - 1,
        n,
    ] {
        assert_eq!(
            crc32c(&data[..end]),
            crc_by_bits(0, &data[..end]),
            "len {end}"
        );
    }
    for end in (STRIDE_BYTES * 3 - 50..=STRIDE_BYTES * 3 + 50).step_by(7) {
        assert_eq!(
            crc32c(&data[..end]),
            crc_by_bits(0, &data[..end]),
            "sweep len {end}"
        );
    }
}

#[test]
fn indicator_round_trip() {
    let sizes = [
        MIN_BLOCK_SIZE,
        8 << 10,
        64 << 10,
        1 << 20,
        DEFAULT_BLOCK_SIZE,
        MAX_BLOCK_SIZE,
    ];
    for &sz in &sizes {
        let ind = block_size_indicator(sz);
        assert_eq!(block_size_from_indicator(ind), Some(sz), "size {sz}");
    }
}

#[test]
fn stream_header_matches_go() {
    let h = make_stream_header(DEFAULT_BLOCK_SIZE);
    assert_eq!(
        &h,
        &[0xff, 0x06, 0x00, 0x00, b'M', b'i', b'n', b'L', b'z', 0x0b]
    );
}

#[test]
fn uvarint_round_trip() {
    for &v in &[0u64, 1, 127, 128, 16383, 16384, 1 << 32, u64::MAX] {
        let mut buf = Vec::new();
        put_uvarint(&mut buf, v);
        let n = buf.len();
        let (got, n2) = get_uvarint(&buf[..n]).unwrap();
        assert_eq!(got, v);
        assert_eq!(n, n2);
    }
}
