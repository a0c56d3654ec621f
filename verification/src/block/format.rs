//! Block format constants and the variable-length integer codec.
use vstd::prelude::*;

verus! {

/// Largest uncompressed block: 8 MiB.
pub const MAX_BLOCK_SIZE: usize = 8_388_608;

/// Low two bits of the tag byte of a literal.
pub const TAG_LITERAL: u8 = 0;

/// Tag bits of a repeat: a literal tag with bit 2 set.
pub const TAG_REPEAT: u8 = 4;

/// Low two bits of the tag byte of a short-offset copy.
pub const TAG_COPY1: u8 = 1;

/// Low two bits of the tag byte of a medium-offset copy.
pub const TAG_COPY2: u8 = 2;

/// Low three bits of the tag byte of a long-offset copy.
pub const TAG_COPY3: u8 = 7;

/// Low three bits of the tag byte of a medium-offset copy fused with literals.
pub const TAG_COPY2_FUSED: u8 = 3;

/// Largest offset of a short-offset copy.
pub const MAX_COPY1_OFFSET: usize = 1024;

/// Smallest offset of a medium-offset copy.
pub const MIN_COPY2_OFFSET: usize = 64;

/// Largest offset of a medium-offset copy.
pub const MAX_COPY2_OFFSET: usize = 65_599;

/// Smallest offset of a long-offset copy.
pub const MIN_COPY3_OFFSET: usize = 65_536;

/// Largest offset of a long-offset copy.
pub const MAX_COPY3_OFFSET: usize = 2_162_687;

/// Most literals that a medium-offset copy can carry.
pub const MAX_COPY2_LITS: usize = 4;

/// Most literals that a long-offset copy can carry.
pub const MAX_COPY3_LITS: usize = 3;

/// Longest match of a medium-offset copy that carries literals.
pub const COPY2_LIT_MAX_LEN: usize = 11;

/// The match finders stop this many bytes before the end of the input, so
/// that eight bytes can be read at every position they look at.
pub const INPUT_MARGIN: usize = 8;

/// Inputs shorter than this are stored uncompressed.
pub const MIN_NON_LITERAL_BLOCK_SIZE: usize = 16;

/// The largest encoded length of an input of length `n`: one byte for an empty
/// input, two bytes of overhead otherwise, nothing beyond
/// [`MAX_BLOCK_SIZE`].
pub open spec fn spec_max_encoded_len(n: int) -> Option<int> {
    if n > MAX_BLOCK_SIZE {
        None
    } else if n == 0 {
        Some(1)
    } else {
        Some(n + 2)
    }
}

/// Returns the maximum encoded length for an input of length `n`, or `None` if
/// `n` exceeds [`MAX_BLOCK_SIZE`].
pub fn max_encoded_len(n: usize) -> (r: Option<usize>)
    ensures
        n > MAX_BLOCK_SIZE ==> r is None,
        n == 0 ==> r == Some(1usize),
        0 < n <= MAX_BLOCK_SIZE ==> r == Some((n + 2) as usize),
        (match r {
            Some(m) => spec_max_encoded_len(n as int) == Some(m as int),
            None => spec_max_encoded_len(n as int) is None,
        }),
{
    if n > MAX_BLOCK_SIZE {
        None
    } else if n == 0 {
        Some(1)
    } else {
        Some(n + 2)
    }
}

/// The little-endian base-128 encoding of `v`: seven bits to a byte, the high
/// bit set in all bytes but the last.
pub open spec fn uvarint(v: nat) -> Seq<u8>
    decreases v,
{
    if v < 128 {
        seq![v as u8]
    } else {
        seq![(v % 128 + 128) as u8] + uvarint(v / 128)
    }
}

/// Decodes the bytes of `s` from position `i` on, where `i` bytes of the same
/// number came before. Gives the value of those bytes and how many there are.
/// At most ten bytes belong to one number, and the tenth is at most one: more
/// does not fit in 64 bits.
pub open spec fn parse_uvarint_from(s: Seq<u8>, i: nat) -> Option<(nat, nat)>
    decreases s.len() - i,
{
    if i >= s.len() || i >= 10 {
        None
    } else if s[i as int] < 128 {
        if i == 9 && s[i as int] > 1 {
            None
        } else {
            Some((s[i as int] as nat, 1))
        }
    } else {
        match parse_uvarint_from(s, i + 1) {
            Some((v, n)) => Some(((s[i as int] - 128 + 128 * v) as nat, n + 1)),
            None => None,
        }
    }
}

/// The number at the head of `s` and its length in bytes, if there is one.
pub open spec fn parse_uvarint(s: Seq<u8>) -> Option<(nat, nat)> {
    parse_uvarint_from(s, 0)
}

/// The place value of byte `i`: `128` to the power `i`.
pub open spec fn pow128(i: nat) -> nat
    decreases i,
{
    if i == 0 {
        1
    } else {
        128 * pow128((i - 1) as nat)
    }
}

proof fn lemma_pow128_bounds(i: nat)
    requires
        i <= 9,
    ensures
        1 <= pow128(i) <= 0x8000_0000_0000_0000,
{
    reveal_with_fuel(pow128, 11);
}

/// The bytes of `uvarint` are at most ten for a 64-bit number.
pub proof fn lemma_uvarint_len(v: nat, k: nat)
    requires
        v < pow128(k),
        k >= 1,
    ensures
        1 <= uvarint(v).len() <= k,
    decreases k,
{
    if v >= 128 {
        assert(v / 128 < pow128((k - 1) as nat));
        assert(k >= 2) by {
            if k == 1 {
                reveal_with_fuel(pow128, 2);
            }
        }
        lemma_uvarint_len(v / 128, (k - 1) as nat);
    }
}

/// Decoding what `uvarint` wrote gives back the number, whatever follows it.
/// The rest of the number starts at byte `i`.
proof fn lemma_uvarint_roundtrip_from(head: Seq<u8>, v: nat, tail: Seq<u8>)
    requires
        head.len() <= 9,
        head.len() == 9 ==> v <= 1,
        v * pow128(head.len()) <= u64::MAX,
    ensures
        parse_uvarint_from(head + uvarint(v) + tail, head.len()) == Some((v, uvarint(v).len())),
    decreases 10 - head.len(),
{
    let s = head + uvarint(v) + tail;
    let i = head.len();
    if v < 128 {
        assert(s[i as int] == v as u8);
    } else {
        let b = (v % 128 + 128) as u8;
        let head2 = head.push(b);
        assert(s[i as int] == b);
        assert(head2 + uvarint(v / 128) + tail =~= s);
        assert((v / 128) * pow128(i + 1) <= v * pow128(i)) by (nonlinear_arith)
            requires
                pow128(i + 1) == 128 * pow128(i),
        ;
        if i + 1 == 9 {
            reveal_with_fuel(pow128, 11);
            assert((v / 128) * 0x8000_0000_0000_0000 <= u64::MAX);
        }
        if i == 9 {
            assert(false);
        }
        lemma_uvarint_roundtrip_from(head2, v / 128, tail);
    }
}

/// Writing a 64-bit number and reading it back, from the head of any longer
/// buffer, gives the number and the length of what was written.
pub proof fn lemma_uvarint_roundtrip(v: u64, tail: Seq<u8>)
    ensures
        parse_uvarint(uvarint(v as nat) + tail) == Some((v as nat, uvarint(v as nat).len())),
{
    assert(pow128(0) == 1);
    assert(Seq::<u8>::empty() + uvarint(v as nat) + tail =~= uvarint(v as nat) + tail);
    lemma_uvarint_roundtrip_from(Seq::empty(), v as nat, tail);
}

/// The bytes from position `i` on make up a number that, at its place value,
/// fits in 64 bits; they lie in the buffer and are at most ten with those before.
proof fn lemma_parse_uvarint_from_bounds(s: Seq<u8>, i: nat)
    ensures
        (match parse_uvarint_from(s, i) {
            Some((v, n)) => {
                &&& (v + 1) * pow128(i) <= 0x1_0000_0000_0000_0000
                &&& 1 <= n
                &&& i + n <= s.len()
                &&& i + n <= 10
            },
            None => true,
        }),
    decreases s.len() - i,
{
    if i < s.len() && i < 10 {
        let b = s[i as int];
        assert(pow128(i + 1) == 128 * pow128(i));
        if b >= 128 {
            lemma_parse_uvarint_from_bounds(s, i + 1);
            if let Some((w, n)) = parse_uvarint_from(s, i + 1) {
                let v = (b - 128 + 128 * w) as nat;
                assert((v + 1) * pow128(i) <= (w + 1) * pow128(i + 1)) by (nonlinear_arith)
                    requires
                        pow128(i + 1) == 128 * pow128(i),
                        v + 1 <= 128 * (w + 1),
                ;
            }
        } else if i < 9 || b <= 1 {
            reveal_with_fuel(pow128, 11);
            assert((b + 1) * pow128(i) <= 0x1_0000_0000_0000_0000) by (nonlinear_arith)
                requires
                    b < 128,
                    pow128(i) <= 0x8000_0000_0000_0000,
                    i < 9 ==> pow128(i) <= 0x100_0000_0000_0000,
                    i == 9 ==> b <= 1,
                    i <= 9,
            ;
        }
    }
}

/// A number read from the head of a buffer fits in 64 bits, and its bytes, ten
/// at most, lie in the buffer.
pub proof fn lemma_parse_uvarint_bounds(s: Seq<u8>)
    ensures
        (match parse_uvarint(s) {
            Some((v, n)) => v <= u64::MAX && 1 <= n <= s.len() && n <= 10,
            None => true,
        }),
{
    assert(pow128(0) == 1);
    lemma_parse_uvarint_from_bounds(s, 0);
}

/// Appends the variable-length encoding of `v` to `dst`.
pub fn put_uvarint(dst: &mut Vec<u8>, v: u64)
    ensures
        final(dst)@ == old(dst)@ + uvarint(v as nat),
{
    let mut v: u64 = v;
    let ghost v0 = v as nat;
    let ghost mut done = Seq::<u8>::empty();
    while v >= 128
        invariant
            dst@ == old(dst)@ + done,
            done + uvarint(v as nat) == uvarint(v0),
        decreases v,
    {
        let b: u8 = (v % 128 + 128) as u8;
        dst.push(b);
        proof {
            assert(done.push(b) + uvarint((v / 128) as nat) =~= done + uvarint(v as nat));
            done = done.push(b);
        }
        v = v / 128;
    }
    dst.push(v as u8);
}

/// Decodes a variable-length number from the head of `src`.
///
/// Returns the value and the number of bytes read, or `None` if the buffer is
/// too short or the value overflows 64 bits.
pub fn get_uvarint(src: &[u8]) -> (r: Option<(u64, usize)>)
    ensures
        (match r {
            Some((v, n)) => parse_uvarint(src@) == Some((v as nat, n as nat)) && 1 <= n <= src.len()
                && n <= 10,
            None => parse_uvarint(src@) is None,
        }),
{
    let mut x: u64 = 0;
    let mut place: u64 = 1;
    let mut i: usize = 0;
    proof {
        lemma_parse_uvarint_bounds(src@);
    }
    while i < src.len()
        invariant
            i <= src.len(),
            i <= 9,
            place == pow128(i as nat),
            x < place,
            (match parse_uvarint(src@) {
                Some((v, n)) => {
                    &&& parse_uvarint_from(src@, i as nat) is Some
                    &&& n == i + (parse_uvarint_from(src@, i as nat)->0).1
                    &&& v == x + place * (parse_uvarint_from(src@, i as nat)->0).0
                },
                None => parse_uvarint_from(src@, i as nat) is None,
            }),
            parse_uvarint(src@) matches Some((v, n)) ==> v <= u64::MAX && 1 <= n <= src.len() && n
                <= 10,
        decreases src.len() - i,
    {
        let b: u8 = src[i];
        proof {
            lemma_pow128_bounds(i as nat);
        }
        if b < 128 {
            if i == 9 && b > 1 {
                return None;
            }
            return Some((x + place * b as u64, i + 1));
        }
        if i == 9 {
            assert(parse_uvarint_from(src@, 10) is None);
            return None;
        }
        proof {
            lemma_pow128_bounds((i + 1) as nat);
            assert(pow128((i + 1) as nat) == 128 * pow128(i as nat));
            let w = (parse_uvarint_from(src@, (i + 1) as nat)->0).0;
            assert(place * (b - 128 + 128 * w) == place * (b - 128) + (128 * place) * w)
                by (nonlinear_arith);
            assert(place * (b - 128) <= place * 127) by (nonlinear_arith)
                requires
                    b <= 255,
            ;
        }
        x = x + place * (b - 128) as u64;
        place = place * 128;
        i = i + 1;
    }
    None
}

} // verus!
