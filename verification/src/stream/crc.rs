//! CRC32C (Castagnoli) and the masked form that chunks carry.
use crate::block::load_store::load32;
use vstd::prelude::*;

verus! {

/// The reflected Castagnoli polynomial.
pub const POLY: u32 = 0x82F6_3B78;

/// What the mask adds.
pub const MASK_DELTA: u32 = 0xa282_ead8;

/// One bit of the checksum register's division by the polynomial.
pub open spec fn crc_bit(c: u32) -> u32 {
    if c & 1 != 0 {
        (c >> 1) ^ POLY
    } else {
        c >> 1
    }
}

/// The register after eight zero bits.
pub open spec fn crc_step(c: u32) -> u32 {
    crc_bit(crc_bit(crc_bit(crc_bit(crc_bit(crc_bit(crc_bit(crc_bit(c))))))))
}

/// The register after `k` zero bytes.
pub open spec fn crc_steps(k: nat, c: u32) -> u32
    decreases k,
{
    if k == 0 {
        c
    } else {
        crc_steps((k - 1) as nat, crc_step(c))
    }
}

/// The register after the bytes of `s`.
pub open spec fn crc_bytes(c: u32, s: Seq<u8>) -> u32
    decreases s.len(),
{
    if s.len() == 0 {
        c
    } else {
        crc_step(crc_bytes(c, s.drop_last()) ^ (s.last() as u32))
    }
}

/// The checksum of what gave `crc`, followed by `s`.
pub open spec fn crc_from(crc: u32, s: Seq<u8>) -> u32 {
    !crc_bytes(!crc, s)
}

/// The CRC32C of `s`.
pub open spec fn crc_of(s: Seq<u8>) -> u32 {
    crc_from(0, s)
}

/// A checksum rotated right by 15 bits, plus the mask.
pub open spec fn masked(c: u32) -> int {
    (c / 0x8000 + (c % 0x8000) * 0x2_0000 + MASK_DELTA) % 0x1_0000_0000
}

/// The masked CRC32C of `s`.
pub open spec fn masked_crc_of(s: Seq<u8>) -> int {
    masked(crc_of(s))
}

proof fn lemma_bit_linear(a: u32, b: u32)
    ensures
        crc_bit(a ^ b) == crc_bit(a) ^ crc_bit(b),
{
    assert(crc_bit(a ^ b) == crc_bit(a) ^ crc_bit(b)) by (bit_vector);
}

proof fn lemma_step_linear(a: u32, b: u32)
    ensures
        crc_step(a ^ b) == crc_step(a) ^ crc_step(b),
{
    let a1 = crc_bit(a);
    let a2 = crc_bit(a1);
    let a3 = crc_bit(a2);
    let a4 = crc_bit(a3);
    let a5 = crc_bit(a4);
    let a6 = crc_bit(a5);
    let a7 = crc_bit(a6);
    let b1 = crc_bit(b);
    let b2 = crc_bit(b1);
    let b3 = crc_bit(b2);
    let b4 = crc_bit(b3);
    let b5 = crc_bit(b4);
    let b6 = crc_bit(b5);
    let b7 = crc_bit(b6);
    lemma_bit_linear(a, b);
    lemma_bit_linear(a1, b1);
    lemma_bit_linear(a2, b2);
    lemma_bit_linear(a3, b3);
    lemma_bit_linear(a4, b4);
    lemma_bit_linear(a5, b5);
    lemma_bit_linear(a6, b6);
    lemma_bit_linear(a7, b7);
}

proof fn lemma_steps_linear(k: nat, a: u32, b: u32)
    ensures
        crc_steps(k, a ^ b) == crc_steps(k, a) ^ crc_steps(k, b),
    decreases k,
{
    if k > 0 {
        lemma_step_linear(a, b);
        lemma_steps_linear((k - 1) as nat, crc_step(a), crc_step(b));
    }
}

proof fn lemma_steps_add(j: nat, k: nat, c: u32)
    ensures
        crc_steps(j + k, c) == crc_steps(k, crc_steps(j, c)),
    decreases j,
{
    if j > 0 {
        lemma_steps_add((j - 1) as nat, k, crc_step(c));
    }
}

/// A register whose low byte is zero is shifted down.
proof fn lemma_step_high(c: u32)
    ensures
        crc_step(c & 0xffff_ff00) == c >> 8,
{
    assert(crc_step(c & 0xffff_ff00) == c >> 8) by (bit_vector);
}

/// The step by the table of single bytes.
proof fn lemma_step_split(c: u32)
    ensures
        crc_step(c) == crc_step(c % 256) ^ (c / 256),
{
    assert(c == (c % 256) ^ (c & 0xffff_ff00)) by (bit_vector);
    assert(c >> 8 == c / 256) by (bit_vector);
    lemma_step_linear(c % 256, c & 0xffff_ff00);
    lemma_step_high(c);
}

/// Four bytes of a register move down one by one.
proof fn lemma_steps_bytes(k: nat, v: u32)
    requires
        k >= 4,
    ensures
        crc_steps(k, v) == crc_steps(k, v % 256) ^ crc_steps((k - 1) as nat, v / 256 % 256)
            ^ crc_steps((k - 2) as nat, v / 65536 % 256) ^ crc_steps((k - 3) as nat, v / 0x100_0000),
{
    let v1 = v / 256;
    let v2 = v1 / 256;
    let v3 = v2 / 256;
    lemma_low_byte(k, v);
    lemma_low_byte((k - 1) as nat, v1);
    lemma_low_byte((k - 2) as nat, v2);
    assert(v2 == v / 65536);
    assert(v3 == v / 0x100_0000);
    let x0 = crc_steps(k, v % 256);
    let x1 = crc_steps((k - 1) as nat, v1 % 256);
    let x2 = crc_steps((k - 2) as nat, v2 % 256);
    let x3 = crc_steps((k - 3) as nat, v3);
    assert(x0 ^ (x1 ^ (x2 ^ x3)) == x0 ^ x1 ^ x2 ^ x3) by (bit_vector);
}

proof fn lemma_low_byte(k: nat, v: u32)
    requires
        k >= 1,
    ensures
        crc_steps(k, v) == crc_steps(k, v % 256) ^ crc_steps((k - 1) as nat, v / 256),
{
    lemma_step_split(v);
    lemma_steps_linear((k - 1) as nat, crc_step(v % 256), v / 256);
}

/// A register and the four bytes that follow.
proof fn lemma_four_bytes(c: u32, s: Seq<u8>)
    requires
        s.len() == 4,
    ensures
        crc_bytes(c, s) == crc_steps(4, c ^ word_of(s)),
{
    let (b0, b1, b2, b3) = (s[0] as u32, s[1] as u32, s[2] as u32, s[3] as u32);
    let s1 = s.drop_last();
    let s2 = s1.drop_last();
    let s3 = s2.drop_last();
    assert(s3.drop_last() =~= Seq::<u8>::empty());
    let c1 = crc_step(c ^ b0);
    let c2 = crc_step(c1 ^ b1);
    let c3 = crc_step(c2 ^ b2);
    let c4 = crc_step(c3 ^ b3);
    assert(crc_bytes(c, s3.drop_last()) == c);
    assert(crc_bytes(c, s3) == c1);
    assert(crc_bytes(c, s2) == c2);
    assert(crc_bytes(c, s1) == c3);
    assert(crc_bytes(c, s) == c4);
    let w = word_of(s);
    let h1: u32 = (b1 + 256 * b2 + 65536 * b3) as u32;
    let h2: u32 = (b2 + 256 * b3) as u32;
    lemma_shift_in(c, b0, h1);
    lemma_shift_in(c1, b1, h2);
    lemma_shift_in(c2, b2, b3);
    assert(w == (b0 + 256 * h1) as u32);
    assert(crc_step(c ^ w) == c1 ^ h1);
    assert(crc_step(c1 ^ h1) == c2 ^ h2);
    assert(crc_step(c2 ^ h2) == c3 ^ b3);
    reveal_with_fuel(crc_steps, 5);
}

proof fn lemma_shift_in(c: u32, b: u32, h: u32)
    requires
        b < 256,
        h < 0x100_0000,
    ensures
        crc_step(c ^ ((b + 256 * h) as u32)) == crc_step(c ^ b) ^ h,
{
    let w = (b + 256 * h) as u32;
    let t = (256 * h) as u32;
    assert(c ^ w == (c ^ b) ^ (t & 0xffff_ff00)) by (bit_vector)
        requires
            b < 256,
            h < 0x100_0000,
            w == b + 256 * h,
            t == 256 * h,
    ;
    assert(t >> 8 == h) by (bit_vector)
        requires
            h < 0x100_0000,
            t == 256 * h,
    ;
    lemma_step_linear(c ^ b, t & 0xffff_ff00);
    lemma_step_high(t);
}

/// Four bytes as a little-endian number.
pub open spec fn word_of(s: Seq<u8>) -> u32 {
    (s[0] + 256 * s[1] + 65536 * s[2] + 0x100_0000 * s[3]) as u32
}

/// The register after two runs of bytes, one after the other.
pub proof fn law_bytes_concat(c: u32, a: Seq<u8>, b: Seq<u8>)
    ensures
        crc_bytes(c, a + b) == crc_bytes(crc_bytes(c, a), b),
    decreases b.len(),
{
    if b.len() == 0 {
        assert(a + b =~= a);
    } else {
        law_bytes_concat(c, a, b.drop_last());
        assert((a + b).drop_last() =~= a + b.drop_last());
    }
}

/// A checksum can be continued: the checksum of `b` that starts from the checksum of
/// `a` is the checksum of `a` followed by `b`.
pub proof fn law_update_continues(crc: u32, a: Seq<u8>, b: Seq<u8>)
    ensures
        crc_from(crc_from(crc, a), b) == crc_from(crc, a + b),
{
    law_bytes_concat(!crc, a, b);
    let x = crc_bytes(!crc, a);
    assert(!(!x) == x) by (bit_vector);
}

/// Two runs of bytes can be checked apart: the register of the first moves on by as
/// many zero bytes as the second has, and takes in the register of the second.
pub proof fn law_combine(c: u32, a: Seq<u8>, b: Seq<u8>)
    ensures
        crc_bytes(c, a + b) == crc_steps(b.len(), crc_bytes(c, a)) ^ crc_bytes(0, b),
    decreases b.len(),
{
    let x = crc_bytes(c, a);
    if b.len() == 0 {
        assert(a + b =~= a);
        assert(x ^ 0 == x) by (bit_vector);
    } else {
        let b1 = b.drop_last();
        let n = b1.len();
        law_combine(c, a, b1);
        assert((a + b).drop_last() =~= a + b1);
        let y = crc_steps(n, x);
        let z = crc_bytes(0, b1);
        let l = b.last() as u32;
        assert((y ^ z) ^ l == y ^ (z ^ l)) by (bit_vector);
        lemma_step_linear(y, z ^ l);
        lemma_steps_add(n, 1, x);
        reveal_with_fuel(crc_steps, 2);
    }
}

/// Different registers stay different after a bit, and different words make different
/// registers of one.
proof fn lemma_bit_injective(a: u32, b: u32, w: u32)
    requires
        a != b,
    ensures
        crc_bit(a) != crc_bit(b),
        a ^ w != b ^ w,
        w ^ a != w ^ b,
        !a != !b,
{
    assert(a != b ==> crc_bit(a) != crc_bit(b) && a ^ w != b ^ w && w ^ a != w ^ b && !a != !b)
        by (bit_vector);
}

proof fn lemma_step_injective(a: u32, b: u32)
    requires
        a != b,
    ensures
        crc_step(a) != crc_step(b),
{
    let (a1, b1) = (crc_bit(a), crc_bit(b));
    let (a2, b2) = (crc_bit(a1), crc_bit(b1));
    let (a3, b3) = (crc_bit(a2), crc_bit(b2));
    let (a4, b4) = (crc_bit(a3), crc_bit(b3));
    let (a5, b5) = (crc_bit(a4), crc_bit(b4));
    let (a6, b6) = (crc_bit(a5), crc_bit(b5));
    let (a7, b7) = (crc_bit(a6), crc_bit(b6));
    lemma_bit_injective(a, b, 0);
    lemma_bit_injective(a1, b1, 0);
    lemma_bit_injective(a2, b2, 0);
    lemma_bit_injective(a3, b3, 0);
    lemma_bit_injective(a4, b4, 0);
    lemma_bit_injective(a5, b5, 0);
    lemma_bit_injective(a6, b6, 0);
    lemma_bit_injective(a7, b7, 0);
}

proof fn lemma_steps_injective(k: nat, a: u32, b: u32)
    requires
        a != b,
    ensures
        crc_steps(k, a) != crc_steps(k, b),
    decreases k,
{
    if k > 0 {
        lemma_step_injective(a, b);
        lemma_steps_injective((k - 1) as nat, crc_step(a), crc_step(b));
    }
}

proof fn lemma_bytes_injective(c: u32, d: u32, s: Seq<u8>)
    requires
        c != d,
    ensures
        crc_bytes(c, s) != crc_bytes(d, s),
    decreases s.len(),
{
    if s.len() > 0 {
        let t = s.drop_last();
        let l = s.last() as u32;
        lemma_bytes_injective(c, d, t);
        lemma_bit_injective(crc_bytes(c, t), crc_bytes(d, t), l);
        lemma_step_injective(crc_bytes(c, t) ^ l, crc_bytes(d, t) ^ l);
    }
}

/// A masked checksum is the checksum turned by fifteen bits to the right, and a constant: it
/// gives the checksum back, and different checksums stay different.
pub proof fn law_mask(c: u32)
    ensures
        ({
            let turned = (masked(c) + 0x1_0000_0000 - 0xa282_ead8) % 0x1_0000_0000;
            &&& 0 <= masked(c) < 0x1_0000_0000
            &&& turned / 0x2_0000 + (turned % 0x2_0000) * 0x8000 == c
        }),
{
    let t = c as int / 0x8000 + (c as int % 0x8000) * 0x2_0000;
    assert(0 <= t < 0x1_0000_0000);
    assert(t / 0x2_0000 == c as int % 0x8000);
    assert(t % 0x2_0000 == c as int / 0x8000);
    assert((masked(c) + 0x1_0000_0000 - 0xa282_ead8) % 0x1_0000_0000 == t);
}

/// Data in which up to four bytes in a row are damaged has another checksum, however much
/// data there is.
pub proof fn law_damage_changes_checksum(head: Seq<u8>, a: Seq<u8>, b: Seq<u8>, tail: Seq<u8>)
    requires
        a != b,
        a.len() == b.len() == 4,
    ensures
        crc_of(head + a + tail) != crc_of(head + b + tail),
        masked_crc_of(head + a + tail) != masked_crc_of(head + b + tail),
{
    let c = crc_bytes(!0u32, head);
    let wa = word_of(a);
    let wb = word_of(b);
    assert(wa != wb) by {
        if wa == wb {
            assert(a =~= b);
        }
    }
    law_bytes_concat(!0u32, head, a);
    law_bytes_concat(!0u32, head, b);
    law_bytes_concat(!0u32, head + a, tail);
    law_bytes_concat(!0u32, head + b, tail);
    lemma_four_bytes(c, a);
    lemma_four_bytes(c, b);
    lemma_bit_injective(wa, wb, c);
    lemma_steps_injective(4, c ^ wa, c ^ wb);
    lemma_bytes_injective(crc_bytes(c, a), crc_bytes(c, b), tail);
    lemma_bit_injective(
        crc_bytes(!0u32, head + a + tail),
        crc_bytes(!0u32, head + b + tail),
        0,
    );
    law_mask(crc_of(head + a + tail));
    law_mask(crc_of(head + b + tail));
}

/// What the tables hold: row `k` has each byte followed by `k` zero bytes.
pub open spec fn is_table(t: Seq<u32>) -> bool {
    &&& t.len() == 2048
    &&& forall|k: int, b: int|
        #![trigger crc_steps((k + 1) as nat, b as u32)]
        0 <= k < 8 && 0 <= b < 256 ==> t[256 * k + b] == crc_steps((k + 1) as nat, b as u32)
}

/// The tables by which checksums are computed.
pub struct Crc32c {
    table: Vec<u32>,
}

impl View for Crc32c {
    type V = Seq<u32>;

    closed spec fn view(&self) -> Seq<u32> {
        self.table@
    }
}

impl Crc32c {
    #[verifier::type_invariant]
    spec fn inv(self) -> bool {
        is_table(self.table@)
    }

    /// Builds the tables.
    pub fn new() -> (r: Crc32c)
        ensures
            is_table(r@),
    {
        Crc32c { table: build_slice_table() }
    }

    /// Continues a checksum with more bytes.
    pub fn update(&self, crc: u32, data: &[u8]) -> (r: u32)
        ensures
            r == crc_from(crc, data@),
    {
        proof {
            use_type_invariant(self);
        }
        crc32c_update_table(&self.table, crc, data)
    }

    /// Returns the CRC32C of `data`.
    pub fn crc32c(&self, data: &[u8]) -> (r: u32)
        ensures
            r == crc_of(data@),
    {
        self.update(0, data)
    }

    /// Returns the masked CRC32C of `data`.
    pub fn masked_crc32c(&self, data: &[u8]) -> (r: u32)
        ensures
            r == masked_crc_of(data@),
    {
        mask_crc32c(self.crc32c(data))
    }
}

/// Returns the register for each byte.
fn build_table() -> (r: Vec<u32>)
    ensures
        r@.len() == 256,
        forall|b: int| 0 <= b < 256 ==> #[trigger] r@[b] == crc_step(b as u32),
{
    let mut table: Vec<u32> = Vec::new();
    let mut i: u32 = 0;
    while i < 256
        invariant
            i <= 256,
            table@.len() == i,
            forall|b: int| 0 <= b < i ==> #[trigger] table@[b] == crc_step(b as u32),
        decreases 256 - i,
    {
        let c1: u32 = next_bit(i);
        let c2: u32 = next_bit(c1);
        let c3: u32 = next_bit(c2);
        let c4: u32 = next_bit(c3);
        let c5: u32 = next_bit(c4);
        let c6: u32 = next_bit(c5);
        let c7: u32 = next_bit(c6);
        table.push(next_bit(c7));
        i = i + 1;
    }
    table
}

fn next_bit(c: u32) -> (r: u32)
    ensures
        r == crc_bit(c),
{
    if c & 1 != 0 {
        (c >> 1) ^ POLY
    } else {
        c >> 1
    }
}

/// Returns the tables of bytes that are followed by up to seven zero bytes.
fn build_slice_table() -> (r: Vec<u32>)
    ensures
        is_table(r@),
{
    let base: Vec<u32> = build_table();
    let mut table: Vec<u32> = Vec::new();
    let mut k: usize = 0;
    while k < 8
        invariant
            k <= 8,
            base@.len() == 256,
            forall|b: int| 0 <= b < 256 ==> #[trigger] base@[b] == crc_step(b as u32),
            table@.len() == 256 * k,
            forall|j: int, b: int|
                #![trigger crc_steps((j + 1) as nat, b as u32)]
                0 <= j < k && 0 <= b < 256 ==> table@[256 * j + b] == crc_steps(
                    (j + 1) as nat,
                    b as u32,
                ),
        decreases 8 - k,
    {
        let mut i: usize = 0;
        while i < 256
            invariant
                k < 8,
                i <= 256,
                base@.len() == 256,
                forall|b: int| 0 <= b < 256 ==> #[trigger] base@[b] == crc_step(b as u32),
                table@.len() == 256 * k + i,
                forall|j: int, b: int|
                    #![trigger crc_steps((j + 1) as nat, b as u32)]
                    0 <= j && 0 <= b < 256 && 256 * j + b < 256 * k + i ==> table@[256 * j + b]
                        == crc_steps((j + 1) as nat, b as u32),
            decreases 256 - i,
        {
            if k == 0 {
                table.push(base[i]);
                proof {
                    reveal_with_fuel(crc_steps, 2);
                    assert(table@[i as int] == crc_steps(1, i as u32));
                }
            } else {
                let prev: u32 = table[256 * (k - 1) + i];
                proof {
                    let ghost before = crc_steps(k as nat, i as u32);
                    assert(crc_steps(((k - 1) + 1) as nat, (i as int) as u32) == prev);
                    lemma_step_split(prev);
                    lemma_steps_add(k as nat, 1, i as u32);
                    reveal_with_fuel(crc_steps, 2);
                    let p = crc_step(prev % 256);
                    let q = prev / 256;
                    assert(p ^ q == q ^ p) by (bit_vector);
                    assert(base@[(prev % 256) as int] == crc_step(prev % 256));
                }
                table.push((prev / 256) ^ base[(prev % 256) as usize]);
                assert(table@[256 * k + i] == crc_steps((k + 1) as nat, i as u32));
            }
            i = i + 1;
        }
        k = k + 1;
    }
    table
}

/// Continues a checksum, eight bytes at a time and then byte by byte.
fn crc32c_update_table(table: &Vec<u32>, crc: u32, data: &[u8]) -> (r: u32)
    requires
        is_table(table@),
    ensures
        r == crc_from(crc, data@),
{
    let mut c: u32 = !crc;
    let mut i: usize = 0;
    assert(data@.take(0) =~= Seq::<u8>::empty());
    while data.len() - i >= 8
        invariant
            i <= data.len(),
            is_table(table@),
            c == crc_bytes(!crc, data@.take(i as int)),
        decreases data.len() - i,
    {
        let v0: u32 = load32(data, i) ^ c;
        let v1: u32 = load32(data, i + 4);
        let ghost c0 = c;
        c = table[(1792 + v0 % 256) as usize] ^ table[(1536 + v0 / 256 % 256) as usize]
            ^ table[(1280 + v0 / 65536 % 256) as usize] ^ table[(1024 + v0 / 0x100_0000) as usize]
            ^ table[(768 + v1 % 256) as usize] ^ table[(512 + v1 / 256 % 256) as usize]
            ^ table[(256 + v1 / 65536 % 256) as usize] ^ table[(v1 / 0x100_0000) as usize];
        proof {
            let s = data@.subrange(i as int, i + 8);
            assert(data@.take(i + 8) =~= data@.take(i as int) + s);
            law_bytes_concat(!crc, data@.take(i as int), s);
            lemma_eight_bytes(table@, c0, s, v0, v1);
        }
        i = i + 8;
    }
    while i < data.len()
        invariant
            i <= data.len(),
            is_table(table@),
            c == crc_bytes(!crc, data@.take(i as int)),
        decreases data.len() - i,
    {
        let x: u32 = c ^ (data[i] as u32);
        proof {
            assert(data@.take(i + 1).drop_last() =~= data@.take(i as int));
            lemma_step_split(x);
            assert(table@[256 * 0 + (x % 256) as int] == crc_steps(
                (0int + 1) as nat,
                ((x % 256) as int) as u32,
            ));
            reveal_with_fuel(crc_steps, 2);
        }
        c = table[(x % 256) as usize] ^ (x / 256);
        i = i + 1;
    }
    assert(data@.take(data.len() as int) =~= data@);
    !c
}

proof fn lemma_eight_bytes(t: Seq<u32>, c: u32, s: Seq<u8>, v0: u32, v1: u32)
    requires
        is_table(t),
        s.len() == 8,
        v0 == word_of(s.take(4)) ^ c,
        v1 == word_of(s.skip(4)),
    ensures
        crc_bytes(c, s) == t[1792 + v0 % 256] ^ t[1536 + v0 / 256 % 256] ^ t[1280 + v0 / 65536
            % 256] ^ t[1024 + v0 / 0x100_0000] ^ t[768 + v1 % 256] ^ t[512 + v1 / 256 % 256]
            ^ t[256 + v1 / 65536 % 256] ^ t[(v1 / 0x100_0000) as int],
{
    let w = word_of(s.take(4));
    assert(s =~= s.take(4) + s.skip(4));
    law_bytes_concat(c, s.take(4), s.skip(4));
    assert(w ^ c == c ^ w) by (bit_vector);
    lemma_four_bytes(c, s.take(4));
    let m = crc_steps(4, v0);
    lemma_four_bytes(m, s.skip(4));
    lemma_steps_linear(4, m, v1);
    lemma_steps_add(4, 4, v0);
    lemma_steps_bytes(8, v0);
    lemma_steps_bytes(4, v1);
    let (a0, a1, a2, a3) = (v0 % 256, v0 / 256 % 256, v0 / 65536 % 256, v0 / 0x100_0000);
    let (b0, b1, b2, b3) = (v1 % 256, v1 / 256 % 256, v1 / 65536 % 256, v1 / 0x100_0000);
    assert(t[256 * 7 + a0] == crc_steps((7int + 1) as nat, (a0 as int) as u32));
    assert(t[256 * 6 + a1] == crc_steps((6int + 1) as nat, (a1 as int) as u32));
    assert(t[256 * 5 + a2] == crc_steps((5int + 1) as nat, (a2 as int) as u32));
    assert(t[256 * 4 + a3] == crc_steps((4int + 1) as nat, (a3 as int) as u32));
    assert(t[256 * 3 + b0] == crc_steps((3int + 1) as nat, (b0 as int) as u32));
    assert(t[256 * 2 + b1] == crc_steps((2int + 1) as nat, (b1 as int) as u32));
    assert(t[256 * 1 + b2] == crc_steps((1int + 1) as nat, (b2 as int) as u32));
    assert(t[256 * 0 + b3] == crc_steps((0int + 1) as nat, (b3 as int) as u32));
    let (x0, x1, x2, x3) = (t[1792 + a0], t[1536 + a1], t[1280 + a2], t[1024 + a3]);
    let (y0, y1, y2, y3) = (t[768 + b0], t[512 + b1], t[256 + b2], t[b3 as int]);
    assert((x0 ^ x1 ^ x2 ^ x3) ^ (y0 ^ y1 ^ y2 ^ y3) == x0 ^ x1 ^ x2 ^ x3 ^ y0 ^ y1 ^ y2 ^ y3)
        by (bit_vector);
}

/// Applies the mask to a checksum.
pub fn mask_crc32c(c: u32) -> (r: u32)
    ensures
        r == masked(c),
{
    let rotated: u32 = c / 0x8000 + (c % 0x8000) * 0x2_0000;
    rotated.wrapping_add(MASK_DELTA)
}

/// Returns the CRC32C of `data`.
pub fn crc32c(data: &[u8]) -> (r: u32)
    ensures
        r == crc_of(data@),
{
    Crc32c::new().crc32c(data)
}

/// Continues a checksum with more bytes.
pub fn crc32c_update(crc: u32, data: &[u8]) -> (r: u32)
    ensures
        r == crc_from(crc, data@),
{
    Crc32c::new().update(crc, data)
}

/// Returns the masked CRC32C of `data`.
pub fn masked_crc32c(data: &[u8]) -> (r: u32)
    ensures
        r == masked_crc_of(data@),
{
    Crc32c::new().masked_crc32c(data)
}

} // verus!
