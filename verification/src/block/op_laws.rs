//! How each operation of a block body is written, and what it does.
use crate::block;
use crate::block::format as numbers;
use crate::block::ops;
use crate::block::ops::{Op, State};
use crate::block::Level;
use crate::error::Error;
use vstd::prelude::*;

verus! {

/// The bytes at the head of `s` are this operation.
pub open spec fn reads(s: Seq<u8>, op: Op, n: int) -> bool {
    ops::parse_op(s) == Some((op, n))
}

/// A literal of `n` bytes starts with eight times its length less one, where that is up to 29.
/// Longer ones start with 232, 240 or 248, and their length less 30 in one, two or three bytes,
/// the low one first. The bytes follow.
pub proof fn law_literal_form(lit: Seq<u8>, tail: Seq<u8>)
    requires
        1 <= lit.len() <= 0xff_ffff,
    ensures
        ({
            let n = lit.len() as int;
            let k = n - 30;
            let (a, b, c) = ((k % 256) as u8, (k / 256 % 256) as u8, (k / 65536) as u8);
            &&& n <= 29 ==> reads(seq![(8 * (n - 1)) as u8] + lit + tail, Op::Literal(lit), n + 1)
            &&& 30 <= n < 286 ==> reads(seq![232u8, a] + lit + tail, Op::Literal(lit), n + 2)
            &&& 30 <= n < 65566 ==> reads(seq![240u8, a, b] + lit + tail, Op::Literal(lit), n + 3)
            &&& 30 <= n ==> reads(seq![248u8, a, b, c] + lit + tail, Op::Literal(lit), n + 4)
        }),
{
    reveal(ops::parse_op);
    let n = lit.len() as int;
    let k = n - 30;
    let (a, b, c) = ((k % 256) as u8, (k / 256 % 256) as u8, (k / 65536) as u8);
    if n <= 29 {
        let s = seq![(8 * (n - 1)) as u8] + lit + tail;
        assert(s[0] == 8 * (n - 1));
        assert(s.subrange(1, n + 1) =~= lit);
    } else {
        let s1 = seq![232u8, a] + lit + tail;
        let s2 = seq![240u8, a, b] + lit + tail;
        let s3 = seq![248u8, a, b, c] + lit + tail;
        assert(s1[0] == 232 && s1[1] == a);
        assert(s2[0] == 240 && s2[1] == a && s2[2] == b);
        assert(s3[0] == 248 && s3[1] == a && s3[2] == b && s3[3] == c);
        assert(n < 286 ==> s1.subrange(2, n + 2) =~= lit);
        assert(n < 65566 ==> s2.subrange(3, n + 3) =~= lit);
        assert(s3.subrange(4, n + 4) =~= lit);
        lemma_parts(k);
    }
}

/// A number is what its bytes make.
proof fn lemma_parts(k: int)
    requires
        0 <= k,
    ensures
        k < 256 ==> k % 256 == k,
        k < 65536 ==> k % 256 + 256 * (k / 256 % 256) == k,
        k < 0x100_0000 ==> k % 256 + 256 * (k / 256 % 256) + 65536 * (k / 65536) == k && k / 65536
            < 256,
{
    assert(k / 65536 == k / 256 / 256);
    assert(k == 256 * (k / 256) + k % 256);
    assert(k / 256 == 256 * (k / 256 / 256) + k / 256 % 256);
}

/// A repeat is written as a literal is, without bytes behind it and with four more in front.
pub proof fn law_repeat_form(n: int, tail: Seq<u8>)
    requires
        1 <= n <= 0xff_ffff,
    ensures
        ({
            let k = n - 30;
            let (a, b, c) = ((k % 256) as u8, (k / 256 % 256) as u8, (k / 65536) as u8);
            &&& n <= 29 ==> reads(seq![(8 * (n - 1) + 4) as u8] + tail, Op::Repeat(n), 1)
            &&& 30 <= n < 286 ==> reads(seq![236u8, a] + tail, Op::Repeat(n), 2)
            &&& 30 <= n < 65566 ==> reads(seq![244u8, a, b] + tail, Op::Repeat(n), 3)
            &&& 30 <= n ==> reads(seq![252u8, a, b, c] + tail, Op::Repeat(n), 4)
        }),
{
    reveal(ops::parse_op);
    let k = n - 30;
    let (a, b, c) = ((k % 256) as u8, (k / 256 % 256) as u8, (k / 65536) as u8);
    if n <= 29 {
        let s = seq![(8 * (n - 1) + 4) as u8] + tail;
        assert(s[0] == 8 * (n - 1) + 4);
    } else {
        let s1 = seq![236u8, a] + tail;
        let s2 = seq![244u8, a, b] + tail;
        let s3 = seq![252u8, a, b, c] + tail;
        assert(s1[0] == 236 && s1[1] == a);
        assert(s2[0] == 244 && s2[1] == a && s2[2] == b);
        assert(s3[0] == 252 && s3[1] == a && s3[2] == b && s3[3] == c);
        lemma_parts(k);
    }
}

/// A copy of up to 18 bytes from up to 1024 bytes back takes two bytes: one, and four times
/// its length less four, and 64 times its offset less one, as a number. A longer one, of up
/// to 273 bytes, has fifteen in place of the length and its length less 18 in a third byte.
pub proof fn law_copy1_form(offset: int, length: int, tail: Seq<u8>)
    requires
        1 <= offset <= 1024,
        4 <= length <= 273,
    ensures
        ({
            let op = Op::Copy { lits: Seq::empty(), offset, length };
            let short = 1 + 4 * (length - 4) + 64 * (offset - 1);
            let long = 1 + 4 * 15 + 64 * (offset - 1);
            &&& length < 19 ==> reads(
                seq![(short % 256) as u8, (short / 256) as u8] + tail,
                op,
                2,
            )
            &&& length >= 18 ==> reads(
                seq![(long % 256) as u8, (long / 256) as u8, (length - 18) as u8] + tail,
                op,
                3,
            )
        }),
{
    let short = 1 + 4 * (length - 4) + 64 * (offset - 1);
    let long = 1 + 4 * 15 + 64 * (offset - 1);
    let s = seq![(short % 256) as u8, (short / 256) as u8] + tail;
    let t = seq![(long % 256) as u8, (long / 256) as u8, (length - 18) as u8] + tail;
    lemma_copy1_fields(15, offset - 1);
    if length <= 18 {
        lemma_copy1_fields(length - 4, offset - 1);
        lemma_copy1(s, length - 4, offset - 1);
    }
    if length >= 18 {
        assert(t[2] == (length - 18) as u8);
        lemma_copy1(t, 15, offset - 1);
    }
}

/// Two fields in a number.
proof fn lemma_copy1_fields(a: int, b: int)
    requires
        0 <= a < 16,
        0 <= b < 1024,
    ensures
        ({
            let x = 1 + 4 * a + 64 * b;
            &&& 0 <= x / 256 < 256
            &&& x % 256 % 4 == 1
            &&& x % 256 / 4 % 16 == a
            &&& (x % 256 + 256 * (x / 256)) / 64 == b
        }),
{
    let x = 1 + 4 * a + 64 * b;
    let low = 1 + 4 * a + 64 * (b % 4);
    assert(b == 4 * (b / 4) + b % 4);
    assert(x == low + 256 * (b / 4));
    assert(0 <= low < 256);
    assert(x % 256 == low && x / 256 == b / 4);
    assert(low / 4 == a + 16 * (b % 4));
}

proof fn lemma_copy1(s: Seq<u8>, a: int, b: int)
    requires
        0 <= a < 16,
        0 <= b < 1024,
        s.len() >= 2,
        a == 15 ==> s.len() >= 3,
        s[0] == (1 + 4 * a + 64 * b) % 256,
        s[1] == (1 + 4 * a + 64 * b) / 256,
    ensures
        a < 15 ==> reads(s, Op::Copy { lits: Seq::empty(), offset: b + 1, length: a + 4 }, 2),
        a == 15 ==> reads(
            s,
            Op::Copy { lits: Seq::empty(), offset: b + 1, length: 18 + s[2] },
            3,
        ),
{
    reveal(ops::parse_op);
    lemma_copy1_fields(a, b);
}

/// The field for the length of a copy, and the bytes that it has behind it: the length less
/// four up to 60; beyond that 61, 62 or 63 and the length less 64 in one, two or three bytes.
pub open spec fn length_form(length: int, field: int, more: Seq<u8>) -> bool {
    let k = length - 64;
    let (a, b, c) = ((k % 256) as u8, (k / 256 % 256) as u8, (k / 65536) as u8);
    ||| 4 <= length <= 64 && field == length - 4 && more == Seq::<u8>::empty()
    ||| 64 <= length < 320 && field == 61 && more == seq![a]
    ||| 64 <= length < 65600 && field == 62 && more == seq![a, b]
    ||| 64 <= length < 0x100_0040 && field == 63 && more == seq![a, b, c]
}

proof fn lemma_length_form(length: int, field: int, more: Seq<u8>, s: Seq<u8>, at: int)
    requires
        length_form(length, field, more),
        0 <= at,
        at + more.len() <= s.len(),
        s.subrange(at, at + more.len()) == more,
    ensures
        ops::parse_copy_length(s, field, at) == Some((length, more.len() as int)),
        0 <= field < 64,
{
    let k = length - 64;
    if field >= 61 {
        lemma_parts(k);
        assert(s[at] == more[0]);
        if field >= 62 {
            assert(s[at + 1] == more[1]);
        }
        if field == 63 {
            assert(s[at + 2] == more[2]);
        }
    }
}

/// A copy from 64 to 65599 bytes back: two and four times the field for its length, its offset
/// less 64 in two bytes, and what belongs to the length.
pub proof fn law_copy2_form(
    offset: int,
    length: int,
    field: int,
    more: Seq<u8>,
    tail: Seq<u8>,
)
    requires
        64 <= offset <= 65599,
        length_form(length, field, more),
    ensures
        ({
            let o = offset - 64;
            let head = seq![(2 + 4 * field) as u8, (o % 256) as u8, (o / 256) as u8];
            reads(
                head + more + tail,
                Op::Copy { lits: Seq::empty(), offset, length },
                3 + more.len() as int,
            )
        }),
{
    reveal(ops::parse_op);
    let o = offset - 64;
    let head = seq![(2 + 4 * field) as u8, (o % 256) as u8, (o / 256) as u8];
    let s = head + more + tail;
    assert(s.subrange(3, 3 + more.len() as int) =~= more);
    lemma_length_form(length, field, more, s, 3);
    assert(s[0] == 2 + 4 * field && s[1] == o % 256 && s[2] == o / 256);
    assert((2 + 4 * field) % 4 == 2 && (2 + 4 * field) / 4 == field);
}

/// A copy of 4 to 11 bytes from 64 to 65599 bytes back with one to four bytes before it:
/// three, eight times the number of those bytes less one, and 32 times its length less four;
/// its offset less 64 in two bytes; and those bytes.
pub proof fn law_copy2_fused_form(lits: Seq<u8>, offset: int, length: int, tail: Seq<u8>)
    requires
        1 <= lits.len() <= 4,
        64 <= offset <= 65599,
        4 <= length <= 11,
    ensures
        ({
            let o = offset - 64;
            let tag = 3 + 8 * (lits.len() - 1) + 32 * (length - 4);
            reads(
                seq![tag as u8, (o % 256) as u8, (o / 256) as u8] + lits + tail,
                Op::Copy { lits, offset, length },
                3 + lits.len() as int,
            )
        }),
{
    reveal(ops::parse_op);
    let o = offset - 64;
    let tag = 3 + 8 * (lits.len() - 1) + 32 * (length - 4);
    let s = seq![tag as u8, (o % 256) as u8, (o / 256) as u8] + lits + tail;
    assert(s[0] == tag && s[1] == o % 256 && s[2] == o / 256);
    assert(tag % 4 == 3 && tag / 4 % 2 == 0 && tag / 8 % 4 == lits.len() - 1 && tag / 32 == length
        - 4);
    assert(s.subrange(3, 3 + lits.len() as int) =~= lits);
}

/// A copy from 65536 to 2162687 bytes back with up to three bytes before it: seven, eight
/// times the number of those bytes, 32 times the field for its length, and 2048 times its
/// offset less 65536, as a number of four bytes; what belongs to the length; and those bytes.
pub proof fn law_copy3_form(
    lits: Seq<u8>,
    offset: int,
    length: int,
    field: int,
    more: Seq<u8>,
    tail: Seq<u8>,
)
    requires
        lits.len() <= 3,
        65536 <= offset <= 2162687,
        length_form(length, field, more),
    ensures
        ({
            let x = 7 + 8 * lits.len() + 32 * field + 2048 * (offset - 65536);
            let head = seq![
                (x % 256) as u8,
                (x / 256 % 256) as u8,
                (x / 65536 % 256) as u8,
                (x / 0x100_0000) as u8,
            ];
            reads(
                head + more + lits + tail,
                Op::Copy { lits, offset, length },
                4 + more.len() as int + lits.len(),
            )
        }),
{
    let n = lits.len() as int;
    let x = 7 + 8 * n + 32 * field + 2048 * (offset - 65536);
    let head = seq![
        (x % 256) as u8,
        (x / 256 % 256) as u8,
        (x / 65536 % 256) as u8,
        (x / 0x100_0000) as u8,
    ];
    let s = head + more + lits + tail;
    let m = more.len() as int;
    assert(s.subrange(4, 4 + m) =~= more);
    lemma_length_form(length, field, more, s, 4);
    assert(s[0] == head[0] && s[1] == head[1] && s[2] == head[2] && s[3] == head[3]);
    lemma_copy3_fields(n, field, offset - 65536);
    assert(s.subrange(4 + m, 4 + m + n) =~= lits);
    lemma_copy3(s, n, field, offset - 65536, length, m);
}

/// Three fields in a number, and the number in four bytes.
proof fn lemma_copy3_fields(a: int, b: int, c: int)
    requires
        0 <= a <= 3,
        0 <= b < 64,
        0 <= c < 0x20_0000,
    ensures
        ({
            let x = 7 + 8 * a + 32 * b + 2048 * c;
            &&& 0 <= x < 0x1_0000_0000
            &&& 0 <= x / 0x100_0000 < 256
            &&& x % 256 + 256 * (x / 256 % 256) + 65536 * (x / 65536 % 256) + 16777216 * (x
                / 0x100_0000) == x
            &&& x / 2048 == c
            &&& x / 32 % 64 == b
            &&& x % 256 % 4 == 3
            &&& x % 256 / 4 % 2 == 1
            &&& x % 256 / 8 % 4 == a
        }),
{
    let x = 7 + 8 * a + 32 * b + 2048 * c;
    let k = x / 256;
    let l = k / 256;
    assert(x / 65536 == l);
    assert(x / 0x100_0000 == l / 256);
    let low = 7 + 8 * a + 32 * (b % 8);
    assert(b == 8 * (b / 8) + b % 8);
    assert(x == low + 256 * (b / 8 + 8 * c));
    assert(0 <= low < 256);
    assert(x % 256 == low);
    assert(x / 32 == b + 64 * c);
    assert(low / 8 == a + 4 * (b % 8));
    assert(low / 4 == 1 + 2 * a + 8 * (b % 8));
}

proof fn lemma_copy3(s: Seq<u8>, n: int, field: int, o: int, length: int, m: int)
    requires
        0 <= n <= 3,
        0 <= field < 64,
        0 <= o < 0x20_0000,
        0 <= m,
        s.len() >= 4 + m + n,
        ops::parse_copy_length(s, field, 4) == Some((length, m)),
        ({
            let x = 7 + 8 * n + 32 * field + 2048 * o;
            &&& s[0] == x % 256
            &&& s[1] == x / 256 % 256
            &&& s[2] == x / 65536 % 256
            &&& s[3] == x / 0x100_0000
        }),
    ensures
        reads(
            s,
            Op::Copy { lits: s.subrange(4 + m, 4 + m + n), offset: o + 65536, length },
            4 + m + n,
        ),
{
    reveal(ops::parse_op);
    lemma_copy3_fields(n, field, o);
}

/// Copying back keeps what there is and adds `length` bytes, each the one `offset` bytes
/// before it.
proof fn lemma_copied(out: Seq<u8>, offset: int, length: int)
    requires
        1 <= offset <= out.len(),
        0 <= length,
    ensures
        ({
            let r = ops::copy_back(out, offset, length);
            &&& r.len() == out.len() + length
            &&& r.take(out.len() as int) == out
            &&& forall|i: int| out.len() <= i < r.len() ==> #[trigger] r[i] == r[i - offset]
        }),
    decreases length,
{
    let n = out.len() as int;
    if length > 0 {
        let next = out.push(out[n - offset]);
        lemma_copied(next, offset, length - 1);
        let r = ops::copy_back(out, offset, length);
        assert(r.take(n + 1) == next);
        assert(r.take(n) =~= r.take(n + 1).take(n));
        assert(next.take(n) =~= out);
        assert(r[n] == r.take(n + 1)[n]);
        assert(r[n - offset] == r.take(n + 1)[n - offset]);
    } else {
        assert(out.take(n) =~= out);
    }
}

/// What an operation adds to the output, which it keeps. A literal adds its bytes. A copy adds
/// its bytes, and then as many as its length, each the one its offset before it; a repeat
/// does so with the offset of the last copy. It fails where there is not so much output.
pub proof fn law_step(st: State, op: Op)
    requires
        st.offset >= 1,
        op matches Op::Repeat(n) ==> n >= 0,
        op matches Op::Copy { lits, offset, length } ==> offset >= 1 && length >= 0,
    ensures
        ({
            let (lits, offset, length) = match op {
                Op::Literal(b) => (b, st.offset, 0int),
                Op::Repeat(n) => (Seq::<u8>::empty(), st.offset, n),
                Op::Copy { lits, offset, length } => (lits, offset, length),
            };
            let n = st.out.len() + lits.len();
            match ops::step(st, op) {
                None => !(op is Literal) && offset > n,
                Some(x) => {
                    &&& op is Literal || offset <= n
                    &&& x.offset == offset
                    &&& x.out.len() == n + length
                    &&& x.out.take(n as int) == st.out + lits
                    &&& forall|i: int| n <= i < x.out.len() ==> #[trigger] x.out[i] == x.out[i
                        - offset]
                },
            }
        }),
{
    match op {
        Op::Literal(b) => {
            let x = st.out + b;
            assert(x.take(x.len() as int) =~= x);
        },
        Op::Repeat(n) => {
            assert(st.out + Seq::<u8>::empty() =~= st.out);
            if st.offset <= st.out.len() {
                lemma_copied(st.out, st.offset, n);
            }
        },
        Op::Copy { lits, offset, length } => {
            if offset <= st.out.len() + lits.len() {
                lemma_copied(st.out + lits, offset, length);
            }
        },
    }
}

/// What a block is. A zero alone is the empty block. Two zeros stand before bytes that are
/// stored as they are. Else, behind a zero, comes the length of what the block decodes to, up
/// to 8 MiB, and operations that make up so many bytes in no more bytes. Nothing else is a
/// block.
pub proof fn law_block_form(data: Seq<u8>, n: int, body: Seq<u8>)
    requires
        1 <= n <= 8388608,
        1 <= body.len(),
    ensures
        ({
            let packed = seq![0u8] + numbers::uvarint(n as nat) + body;
            &&& block::block_decoded(seq![0u8]) == Ok::<Seq<u8>, Error>(Seq::empty())
            &&& data.len() > 0 ==> block::block_decoded(seq![0u8, 0u8] + data) == Ok::<
                Seq<u8>,
                Error,
            >(data)
            &&& block::block_decoded(packed) is Ok <==> (body.len() <= n && (ops::decoded(body)
                matches Some(out) && out.len() == n))
            &&& block::block_decoded(packed) matches Ok(out) ==> ops::decoded(body) == Some(out)
            &&& block::block_decoded(Seq::empty()) is Err
            &&& data.len() > 0 && data[0] != 0 ==> block::block_decoded(data) is Err
        }),
{
    let packed = seq![0u8] + numbers::uvarint(n as nat) + body;
    let v = numbers::uvarint(n as nat);
    assert(packed.skip(1) =~= v + body);
    numbers::lemma_uvarint_roundtrip(n as u64, body);
    assert(packed.skip(1 + v.len() as int) =~= body);
    block::lemma_block_varint_len(n as nat);
    assert(seq![0u8].skip(1) =~= Seq::<u8>::empty());
    if data.len() > 0 {
        let b = seq![0u8, 0u8] + data;
        assert(b.skip(1) =~= numbers::uvarint(0) + data);
        numbers::lemma_uvarint_roundtrip(0, data);
        assert(b.skip(2) =~= data);
    }
}

/// The levels have the numbers one to three; there are no others. The most that a block takes
/// is two bytes more than its data, up to 8 MiB.
pub proof fn law_levels_and_sizes(v: i32, n: int)
    requires
        n >= 0,
    ensures
        block::level_of(1) == Ok::<Level, Error>(Level::Fastest),
        block::level_of(2) == Ok::<Level, Error>(Level::Balanced),
        block::level_of(3) == Ok::<Level, Error>(Level::Smallest),
        v < 1 || v > 3 ==> block::level_of(v) is Err,
        Level::Fastest.number() == 1 && Level::Balanced.number() == 2 && Level::Smallest.number()
            == 3,
        numbers::spec_max_encoded_len(n) == if n > 8388608 {
            None
        } else if n == 0 {
            Some(1)
        } else {
            Some(n + 2)
        },
{
}

} // verus!
