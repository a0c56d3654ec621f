//! Writing operations: literals, repeats, and copies with or without literals
//! before them.
use crate::block::format::{
    COPY2_LIT_MAX_LEN, MAX_COPY1_OFFSET, MAX_COPY2_LITS, MAX_COPY2_OFFSET, MAX_COPY3_LITS,
    MAX_COPY3_OFFSET, MIN_COPY2_OFFSET, MIN_COPY3_OFFSET, TAG_COPY1, TAG_COPY2, TAG_COPY2_FUSED,
    TAG_COPY3, TAG_LITERAL, TAG_REPEAT,
};
use crate::block::load_store::{append_slice, store16, store24, store32};
use crate::block::ops;
use crate::block::ops::{Op, State};
use vstd::prelude::*;

verus! {

/// Longest literal or repeat that one header can describe.
pub const MAX_RUN: usize = 16_777_245;

/// Longest copy that one header can describe.
pub const MAX_COPY: usize = 16_777_279;

/// `v` as one byte.
pub open spec fn le8_bytes(v: int) -> Seq<u8> {
    seq![v as u8]
}

/// `v` as two bytes, the low one first.
pub open spec fn le16_bytes(v: int) -> Seq<u8> {
    seq![(v % 256) as u8, (v / 256) as u8]
}

/// `v` as three bytes, the low one first.
pub open spec fn le24_bytes(v: int) -> Seq<u8> {
    seq![(v % 256) as u8, ((v / 256) % 256) as u8, (v / 65536) as u8]
}

/// `v` as four bytes, the low one first.
pub open spec fn le32_bytes(v: int) -> Seq<u8> {
    seq![
        (v % 256) as u8,
        ((v / 256) % 256) as u8,
        ((v / 65536) % 256) as u8,
        (v / 16777216) as u8,
    ]
}

/// Four bytes hold the number that they were made of.
pub proof fn lemma_le32_bytes(v: int)
    requires
        0 <= v <= u32::MAX,
    ensures
        le32_bytes(v).len() == 4,
        ({
            let b = le32_bytes(v);
            b[0] + 256 * b[1] + 65536 * b[2] + 0x100_0000 * b[3] == v
        }),
{
    let a = v / 256;
    let b = a / 256;
    assert(v / 65536 == b);
    assert(v / 16777216 == b / 256);
    assert(v == 256 * a + v % 256);
    assert(a == 256 * b + a % 256);
    assert(b == 256 * (b / 256) + b % 256);
}

/// The header of a literal of `n` bytes.
pub open spec fn literal_header(n: int) -> Seq<u8> {
    if n <= 29 {
        seq![((n - 1) * 8) as u8]
    } else if n <= 284 {
        seq![232u8] + le8_bytes(n - 30)
    } else if n <= 65565 {
        seq![240u8] + le16_bytes(n - 30)
    } else {
        seq![248u8] + le24_bytes(n - 30)
    }
}

/// A literal operation; nothing for no bytes.
pub open spec fn literal_bytes(lit: Seq<u8>) -> Seq<u8> {
    if lit.len() == 0 {
        Seq::empty()
    } else {
        literal_header(lit.len() as int) + lit
    }
}

/// A repeat operation.
pub open spec fn repeat_bytes(length: int) -> Seq<u8> {
    if length < 30 {
        seq![((length - 1) * 8 + 4) as u8]
    } else if length < 286 {
        seq![236u8] + le8_bytes(length - 30)
    } else if length < 65566 {
        seq![244u8] + le16_bytes(length - 30)
    } else {
        seq![252u8] + le24_bytes(length - 30)
    }
}

/// The six-bit length field of a copy.
pub open spec fn copy_length_field(length: int) -> int {
    if length <= 64 {
        length - 4
    } else if length < 320 {
        61
    } else if length < 65600 {
        62
    } else {
        63
    }
}

/// The extra length bytes of a copy.
pub open spec fn copy_length_bytes(length: int) -> Seq<u8> {
    if length <= 64 {
        Seq::empty()
    } else if length < 320 {
        le8_bytes(length - 64)
    } else if length < 65600 {
        le16_bytes(length - 64)
    } else {
        le24_bytes(length - 64)
    }
}

/// A copy with a sixteen-bit offset and no literals.
pub open spec fn copy2_bytes(offset: int, length: int) -> Seq<u8> {
    seq![(copy_length_field(length) * 4 + 2) as u8] + le16_bytes(offset - 64) + copy_length_bytes(
        length,
    )
}

/// The header of a copy with a 21-bit offset and `lits` literals.
pub open spec fn copy3_header(offset: int, length: int, lits: int) -> Seq<u8> {
    le32_bytes((offset - 65536) * 2048 + copy_length_field(length) * 32 + lits * 8 + 7)
        + copy_length_bytes(length)
}

/// A copy with a ten-bit offset of at most 273 bytes.
pub open spec fn copy1_bytes(offset: int, length: int) -> Seq<u8> {
    if length < 19 {
        le16_bytes((offset - 1) * 64 + (length - 4) * 4 + 1)
    } else {
        le16_bytes((offset - 1) * 64 + 61) + le8_bytes(length - 18)
    }
}

/// A copy without literals in the smallest form that its offset allows. Beyond
/// 273 bytes, a copy with a ten-bit offset is followed by a repeat.
pub open spec fn copy_bytes(offset: int, length: int) -> Seq<u8> {
    if offset > MAX_COPY2_OFFSET {
        copy3_header(offset, length, 0)
    } else if offset > MAX_COPY1_OFFSET {
        copy2_bytes(offset, length)
    } else if length < 274 {
        copy1_bytes(offset, length)
    } else {
        copy1_bytes(offset, 18) + repeat_bytes(length - 18)
    }
}

/// A copy of at most eleven bytes with a sixteen-bit offset and one to four
/// literals.
pub open spec fn copy2_fused_bytes(lits: Seq<u8>, offset: int, length: int) -> Seq<u8> {
    seq![((length - 4) * 32 + (lits.len() - 1) * 8 + 3) as u8] + le16_bytes(offset - 64) + lits
}

/// A copy with one to four literals and a sixteen-bit offset; beyond eleven
/// bytes it is followed by a repeat.
pub open spec fn copy_lits2_bytes(lits: Seq<u8>, offset: int, length: int) -> Seq<u8> {
    if length <= COPY2_LIT_MAX_LEN {
        copy2_fused_bytes(lits, offset, length)
    } else {
        copy2_fused_bytes(lits, offset, 11) + repeat_bytes(length - 11)
    }
}

/// A copy with a 21-bit offset and one to three literals.
pub open spec fn copy_lits3_bytes(lits: Seq<u8>, offset: int, length: int) -> Seq<u8> {
    copy3_header(offset, length, lits.len() as int) + lits
}

/// A literal reads back as written.
pub proof fn lemma_parse_literal(lit: Seq<u8>)
    requires
        1 <= lit.len() <= MAX_RUN,
    ensures
        ops::parse_op(literal_bytes(lit)) == Some((Op::Literal(lit), literal_bytes(lit).len() as int)),
{
    reveal(ops::parse_op);
    let h = literal_header(lit.len() as int);
    let s = literal_bytes(lit);
    assert(s.subrange(h.len() as int, s.len() as int) =~= lit);
}

/// A repeat reads back as written.
pub proof fn lemma_parse_repeat(length: int)
    requires
        1 <= length <= MAX_RUN,
    ensures
        ops::parse_op(repeat_bytes(length)) == Some(
            (Op::Repeat(length), repeat_bytes(length).len() as int),
        ),
{
    reveal(ops::parse_op);
}

proof fn lemma_copy1_fields(o: int, field: int)
    requires
        0 <= o < 1024,
        0 <= field < 16,
    ensures
        ({
            let v = o * 64 + field * 4 + 1;
            &&& 0 <= v < 65536
            &&& (v % 256) % 4 == 1
            &&& ((v % 256) / 4) % 16 == field
            &&& v / 64 == o
            &&& v % 256 + 256 * (v / 256) == v
        }),
{
    let v = o * 64 + field * 4 + 1;
    let r = o % 4;
    assert(v % 256 == r * 64 + field * 4 + 1);
}

/// The four bytes of a number make it up.
proof fn lemma_four_bytes(v: int)
    requires
        0 <= v < 0x1_0000_0000,
    ensures
        v % 256 + 256 * ((v / 256) % 256) + 65536 * ((v / 65536) % 256) + 16777216 * (v / 16777216)
            == v,
{
    let a = v / 256;
    let b = a / 256;
    assert(v / 65536 == b);
    assert(v / 16777216 == b / 256);
}

/// The fields in the lowest byte.
proof fn lemma_copy3_low(f: int, lits: int)
    requires
        0 <= f < 8,
        0 <= lits < 4,
    ensures
        ({
            let low = f * 32 + lits * 8 + 7;
            &&& 0 <= low < 256
            &&& low % 4 == 3
            &&& (low / 4) % 2 == 1
            &&& (low / 8) % 4 == lits
            &&& low / 32 == f
        }),
{
}

proof fn lemma_copy3_fields(o: int, field: int, lits: int)
    requires
        0 <= o < 0x20_0000,
        0 <= field < 64,
        0 <= lits < 4,
    ensures
        ({
            let v = o * 2048 + field * 32 + lits * 8 + 7;
            &&& 0 <= v < 0x1_0000_0000
            &&& (v % 256) % 4 == 3
            &&& ((v % 256) / 4) % 2 == 1
            &&& ((v % 256) / 8) % 4 == lits
            &&& (v / 32) % 64 == field
            &&& v / 2048 == o
            &&& v % 256 + 256 * ((v / 256) % 256) + 65536 * ((v / 65536) % 256) + 16777216 * (v
                / 16777216) == v
        }),
{
    let v = o * 2048 + field * 32 + lits * 8 + 7;
    let low = (field % 8) * 32 + lits * 8 + 7;
    assert(v % 256 == low) by {
        let high = o * 8 + field / 8;
        assert(v == 256 * high + low);
        lemma_copy3_low(field % 8, lits);
    }
    assert((v / 32) % 64 == field) by {
        assert(v / 32 == o * 64 + field);
    }
    assert(v / 2048 == o);
    lemma_copy3_low(field % 8, lits);
    lemma_four_bytes(v);
}

/// A copy with a ten-bit offset reads back as written.
pub proof fn lemma_parse_copy1(offset: int, length: int)
    requires
        1 <= offset <= MAX_COPY1_OFFSET,
        4 <= length < 274,
    ensures
        ops::parse_op(copy1_bytes(offset, length)) == Some(
            (
                Op::Copy { lits: Seq::empty(), offset, length },
                copy1_bytes(offset, length).len() as int,
            ),
        ),
{
    reveal(ops::parse_op);
    lemma_copy1_fields(offset - 1, if length < 19 { length - 4 } else { 15 });
}

/// A copy with a sixteen-bit offset reads back as written.
pub proof fn lemma_parse_copy2(offset: int, length: int)
    requires
        MIN_COPY2_OFFSET <= offset <= MAX_COPY2_OFFSET,
        4 <= length <= MAX_COPY,
    ensures
        ops::parse_op(copy2_bytes(offset, length)) == Some(
            (
                Op::Copy { lits: Seq::empty(), offset, length },
                copy2_bytes(offset, length).len() as int,
            ),
        ),
{
    reveal(ops::parse_op);
}

/// A fused copy with a sixteen-bit offset reads back as written.
pub proof fn lemma_parse_copy2_fused(lits: Seq<u8>, offset: int, length: int)
    requires
        1 <= lits.len() <= MAX_COPY2_LITS,
        MIN_COPY2_OFFSET <= offset <= MAX_COPY2_OFFSET,
        4 <= length <= COPY2_LIT_MAX_LEN,
    ensures
        ops::parse_op(copy2_fused_bytes(lits, offset, length)) == Some(
            (
                Op::Copy { lits, offset, length },
                copy2_fused_bytes(lits, offset, length).len() as int,
            ),
        ),
{
    reveal(ops::parse_op);
    let s = copy2_fused_bytes(lits, offset, length);
    assert(s.subrange(3, s.len() as int) =~= lits);
}

/// A copy with a 21-bit offset reads back as written.
pub proof fn lemma_parse_copy3(lits: Seq<u8>, offset: int, length: int)
    requires
        lits.len() <= MAX_COPY3_LITS,
        MIN_COPY3_OFFSET <= offset <= MAX_COPY3_OFFSET,
        4 <= length <= MAX_COPY,
    ensures
        ops::parse_op(copy_lits3_bytes(lits, offset, length)) == Some(
            (
                Op::Copy { lits, offset, length },
                copy_lits3_bytes(lits, offset, length).len() as int,
            ),
        ),
{
    reveal(ops::parse_op);
    let s = copy_lits3_bytes(lits, offset, length);
    let h = copy3_header(offset, length, lits.len() as int);
    let v = (offset - 65536) * 2048 + copy_length_field(length) * 32 + lits.len() * 8 + 7;
    lemma_copy3_fields(offset - 65536, copy_length_field(length), lits.len() as int);
    assert(ops::le32(s, 0) == v);
    assert(s.subrange(h.len() as int, s.len() as int) =~= lits);
}

/// At `p`, `src` repeats for `length` bytes what stands `offset` bytes before.
pub open spec fn is_match(src: Seq<u8>, p: int, offset: int, length: int) -> bool {
    &&& 0 < offset <= p
    &&& 0 <= length
    &&& p + length <= src.len()
    &&& forall|i: int| p <= i < p + length ==> #[trigger] src[i] == src[i - offset]
}

/// The block body `body` makes up the first `upto` bytes of `src` and leaves
/// `repeat` as the offset of the last copy.
#[verifier::opaque]
pub open spec fn produces(body: Seq<u8>, src: Seq<u8>, upto: int, repeat: int) -> bool {
    &&& 0 <= upto <= src.len()
    &&& ops::run(body, ops::start()) == Some(State { out: src.take(upto), offset: repeat })
}

/// A literal extends what a body makes up.
pub proof fn lemma_produces_literal(body: Seq<u8>, src: Seq<u8>, a: int, b: int, repeat: int)
    requires
        produces(body, src, a, repeat),
        a <= b <= src.len(),
        b - a <= MAX_RUN,
    ensures
        produces(body + literal_bytes(src.subrange(a, b)), src, b, repeat),
{
    reveal(produces);
    let lit = src.subrange(a, b);
    if a == b {
        assert(body + literal_bytes(lit) =~= body);
    } else {
        lemma_parse_literal(lit);
        ops::lemma_run_push(body, literal_bytes(lit), ops::start());
        assert(src.take(a) + lit =~= src.take(b));
    }
}

/// A repeat extends what a body makes up by a match at the last offset.
pub proof fn lemma_produces_repeat(body: Seq<u8>, src: Seq<u8>, a: int, repeat: int, length: int)
    requires
        produces(body, src, a, repeat),
        is_match(src, a, repeat, length),
        1 <= length <= MAX_RUN,
    ensures
        produces(body + repeat_bytes(length), src, a + length, repeat),
{
    reveal(produces);
    lemma_parse_repeat(length);
    ops::lemma_run_push(body, repeat_bytes(length), ops::start());
    ops::lemma_copy_back_matches(src, a, repeat, length);
}

proof fn lemma_produces_op(
    body: Seq<u8>,
    bytes: Seq<u8>,
    src: Seq<u8>,
    a: int,
    b: int,
    repeat: int,
    offset: int,
    length: int,
)
    requires
        produces(body, src, a, repeat),
        a <= b,
        is_match(src, b, offset, length),
        bytes.len() > 0,
        ops::parse_op(bytes) == Some(
            (Op::Copy { lits: src.subrange(a, b), offset, length }, bytes.len() as int),
        ),
    ensures
        produces(body + bytes, src, b + length, offset),
{
    reveal(produces);
    ops::lemma_run_push(body, bytes, ops::start());
    assert(src.take(a) + src.subrange(a, b) =~= src.take(b));
    ops::lemma_copy_back_matches(src, b, offset, length);
}

/// A copy with a sixteen-bit offset extends what a body makes up by a match.
pub proof fn lemma_produces_copy2(
    body: Seq<u8>,
    src: Seq<u8>,
    a: int,
    repeat: int,
    offset: int,
    length: int,
)
    requires
        produces(body, src, a, repeat),
        is_match(src, a, offset, length),
        MIN_COPY2_OFFSET <= offset <= MAX_COPY2_OFFSET,
        4 <= length <= MAX_COPY,
    ensures
        produces(body + copy2_bytes(offset, length), src, a + length, offset),
{
    lemma_parse_copy2(offset, length);
    assert(src.subrange(a, a) =~= Seq::<u8>::empty());
    lemma_produces_op(body, copy2_bytes(offset, length), src, a, a, repeat, offset, length);
}

/// A copy extends what a body makes up by a match.
pub proof fn lemma_produces_copy(
    body: Seq<u8>,
    src: Seq<u8>,
    a: int,
    repeat: int,
    offset: int,
    length: int,
)
    requires
        produces(body, src, a, repeat),
        is_match(src, a, offset, length),
        1 <= offset <= MAX_COPY3_OFFSET,
        4 <= length <= MAX_RUN,
    ensures
        produces(body + copy_bytes(offset, length), src, a + length, offset),
{
    assert(src.subrange(a, a) =~= Seq::<u8>::empty());
    if offset > MAX_COPY2_OFFSET {
        lemma_parse_copy3(Seq::empty(), offset, length);
        assert(copy_lits3_bytes(Seq::empty(), offset, length) =~= copy3_header(offset, length, 0));
        lemma_produces_op(body, copy_bytes(offset, length), src, a, a, repeat, offset, length);
    } else if offset > MAX_COPY1_OFFSET {
        lemma_produces_copy2(body, src, a, repeat, offset, length);
    } else if length < 274 {
        lemma_parse_copy1(offset, length);
        lemma_produces_op(body, copy_bytes(offset, length), src, a, a, repeat, offset, length);
    } else {
        let head = copy1_bytes(offset, 18);
        lemma_parse_copy1(offset, 18);
        lemma_produces_op(body, head, src, a, a, repeat, offset, 18);
        assert(is_match(src, a + 18, offset, length - 18));
        lemma_produces_repeat(body + head, src, a + 18, offset, length - 18);
        assert(body + head + repeat_bytes(length - 18) =~= body + copy_bytes(offset, length));
    }
}

/// A copy with a sixteen-bit offset and literals extends what a body makes up
/// by the literals and a match.
pub proof fn lemma_produces_copy_lits2(
    body: Seq<u8>,
    src: Seq<u8>,
    a: int,
    b: int,
    repeat: int,
    offset: int,
    length: int,
)
    requires
        produces(body, src, a, repeat),
        1 <= b - a <= MAX_COPY2_LITS,
        is_match(src, b, offset, length),
        MIN_COPY2_OFFSET <= offset <= MAX_COPY2_OFFSET,
        4 <= length <= MAX_RUN,
    ensures
        produces(
            body + copy_lits2_bytes(src.subrange(a, b), offset, length),
            src,
            b + length,
            offset,
        ),
{
    let lits = src.subrange(a, b);
    if length <= COPY2_LIT_MAX_LEN {
        lemma_parse_copy2_fused(lits, offset, length);
        lemma_produces_op(
            body,
            copy_lits2_bytes(lits, offset, length),
            src,
            a,
            b,
            repeat,
            offset,
            length,
        );
    } else {
        let head = copy2_fused_bytes(lits, offset, 11);
        lemma_parse_copy2_fused(lits, offset, 11);
        assert(is_match(src, b, offset, 11));
        lemma_produces_op(body, head, src, a, b, repeat, offset, 11);
        assert(is_match(src, b + 11, offset, length - 11));
        lemma_produces_repeat(body + head, src, b + 11, offset, length - 11);
        assert(body + head + repeat_bytes(length - 11) =~= body + copy_lits2_bytes(
            lits,
            offset,
            length,
        ));
    }
}

/// A copy with a 21-bit offset and literals extends what a body makes up by the
/// literals and a match.
pub proof fn lemma_produces_copy_lits3(
    body: Seq<u8>,
    src: Seq<u8>,
    a: int,
    b: int,
    repeat: int,
    offset: int,
    length: int,
)
    requires
        produces(body, src, a, repeat),
        1 <= b - a <= MAX_COPY3_LITS,
        is_match(src, b, offset, length),
        MIN_COPY3_OFFSET <= offset <= MAX_COPY3_OFFSET,
        4 <= length <= MAX_COPY,
    ensures
        produces(
            body + copy_lits3_bytes(src.subrange(a, b), offset, length),
            src,
            b + length,
            offset,
        ),
{
    let lits = src.subrange(a, b);
    lemma_parse_copy3(lits, offset, length);
    lemma_produces_op(
        body,
        copy_lits3_bytes(lits, offset, length),
        src,
        a,
        b,
        repeat,
        offset,
        length,
    );
}

/// Appends a literal and returns the number of bytes written.
pub fn emit_literal(dst: &mut Vec<u8>, lit: &[u8]) -> (n: usize)
    requires
        lit.len() <= MAX_RUN,
    ensures
        final(dst)@ == old(dst)@ + literal_bytes(lit@),
        n == literal_bytes(lit@).len(),
{
    let len: usize = lit.len();
    if len == 0 {
        assert(old(dst)@ + literal_bytes(lit@) =~= old(dst)@);
        return 0;
    }
    let ghost h = literal_header(len as int);
    let header: usize;
    if len <= 29 {
        dst.push((len as u8 - 1) * 8 + TAG_LITERAL);
        header = 1;
    } else if len <= 284 {
        dst.push(232 + TAG_LITERAL);
        dst.push((len - 30) as u8);
        header = 2;
    } else if len <= 65565 {
        dst.push(240 + TAG_LITERAL);
        store16(dst, len - 30);
        header = 3;
    } else {
        dst.push(248 + TAG_LITERAL);
        store24(dst, len - 30);
        header = 4;
    }
    assert(dst@ =~= old(dst)@ + h);
    append_slice(dst, lit);
    assert(dst@ =~= old(dst)@ + literal_bytes(lit@));
    header + len
}

/// Appends a repeat and returns the number of bytes written.
pub fn emit_repeat(dst: &mut Vec<u8>, length: usize) -> (n: usize)
    requires
        1 <= length <= MAX_RUN,
    ensures
        final(dst)@ == old(dst)@ + repeat_bytes(length as int),
        n == repeat_bytes(length as int).len(),
{
    let n: usize;
    if length < 30 {
        dst.push((length as u8 - 1) * 8 + TAG_REPEAT);
        n = 1;
    } else if length < 286 {
        dst.push(232 + TAG_REPEAT);
        dst.push((length - 30) as u8);
        n = 2;
    } else if length < 65566 {
        dst.push(240 + TAG_REPEAT);
        store16(dst, length - 30);
        n = 3;
    } else {
        dst.push(248 + TAG_REPEAT);
        store24(dst, length - 30);
        n = 4;
    }
    assert(dst@ =~= old(dst)@ + repeat_bytes(length as int));
    n
}

/// The six-bit length field of a copy of `length` bytes.
fn length_field(length: usize) -> (f: usize)
    requires
        4 <= length <= MAX_COPY,
    ensures
        f == copy_length_field(length as int),
{
    if length <= 64 {
        length - 4
    } else if length < 320 {
        61
    } else if length < 65600 {
        62
    } else {
        63
    }
}

/// Appends the extra length bytes of a copy and returns their number.
fn emit_copy_length(dst: &mut Vec<u8>, length: usize) -> (n: usize)
    requires
        4 <= length <= MAX_COPY,
    ensures
        final(dst)@ == old(dst)@ + copy_length_bytes(length as int),
        n == copy_length_bytes(length as int).len(),
{
    if length <= 64 {
        assert(dst@ =~= old(dst)@ + copy_length_bytes(length as int));
        0
    } else if length < 320 {
        dst.push((length - 64) as u8);
        assert(dst@ =~= old(dst)@ + copy_length_bytes(length as int));
        1
    } else if length < 65600 {
        store16(dst, length - 64);
        2
    } else {
        store24(dst, length - 64);
        3
    }
}

/// Appends a copy with a sixteen-bit offset and no literals; returns the number
/// of bytes written.
pub fn encode_copy2(dst: &mut Vec<u8>, offset: usize, length: usize) -> (n: usize)
    requires
        MIN_COPY2_OFFSET <= offset <= MAX_COPY2_OFFSET,
        4 <= length <= MAX_COPY,
    ensures
        final(dst)@ == old(dst)@ + copy2_bytes(offset as int, length as int),
        n == copy2_bytes(offset as int, length as int).len(),
{
    dst.push(length_field(length) as u8 * 4 + TAG_COPY2);
    store16(dst, offset - MIN_COPY2_OFFSET);
    let n: usize = emit_copy_length(dst, length);
    assert(dst@ =~= old(dst)@ + copy2_bytes(offset as int, length as int));
    3 + n
}

/// Appends the header of a copy with a 21-bit offset, which announces `lits`
/// literals to follow; returns the number of bytes written.
fn encode_copy3(dst: &mut Vec<u8>, offset: usize, length: usize, lits: usize) -> (n: usize)
    requires
        MIN_COPY3_OFFSET <= offset <= MAX_COPY3_OFFSET,
        4 <= length <= MAX_COPY,
        lits <= MAX_COPY3_LITS,
    ensures
        final(dst)@ == old(dst)@ + copy3_header(offset as int, length as int, lits as int),
        n == copy3_header(offset as int, length as int, lits as int).len(),
{
    let v: u32 = (offset - MIN_COPY3_OFFSET) as u32 * 2048 + length_field(length) as u32 * 32
        + lits as u32 * 8 + TAG_COPY3 as u32;
    store32(dst, v);
    let n: usize = emit_copy_length(dst, length);
    assert(dst@ =~= old(dst)@ + copy3_header(offset as int, length as int, lits as int));
    4 + n
}

/// Appends a copy without literals in the smallest form that its offset allows;
/// returns the number of bytes written.
pub fn emit_copy(dst: &mut Vec<u8>, offset: usize, length: usize) -> (n: usize)
    requires
        1 <= offset <= MAX_COPY3_OFFSET,
        4 <= length <= MAX_RUN,
    ensures
        final(dst)@ == old(dst)@ + copy_bytes(offset as int, length as int),
        n == copy_bytes(offset as int, length as int).len(),
{
    if offset > MAX_COPY2_OFFSET {
        return encode_copy3(dst, offset, length, 0);
    }
    if offset > MAX_COPY1_OFFSET {
        return encode_copy2(dst, offset, length);
    }
    let off: usize = offset - 1;
    if length < 19 {
        store16(dst, off * 64 + (length - 4) * 4 + TAG_COPY1 as usize);
        return 2;
    }
    if length < 274 {
        store16(dst, off * 64 + 15 * 4 + TAG_COPY1 as usize);
        dst.push((length - 18) as u8);
        assert(dst@ =~= old(dst)@ + copy_bytes(offset as int, length as int));
        return 3;
    }
    store16(dst, off * 64 + 14 * 4 + TAG_COPY1 as usize);
    let n: usize = emit_repeat(dst, length - 18);
    assert(dst@ =~= old(dst)@ + copy_bytes(offset as int, length as int));
    2 + n
}

/// Appends a copy with one to four literals and a sixteen-bit offset; returns
/// the number of bytes written. A match of more than eleven bytes becomes a copy
/// of eleven and a repeat.
pub fn emit_copy_lits2(dst: &mut Vec<u8>, lits: &[u8], offset: usize, length: usize) -> (n: usize)
    requires
        1 <= lits.len() <= MAX_COPY2_LITS,
        MIN_COPY2_OFFSET <= offset <= MAX_COPY2_OFFSET,
        4 <= length <= MAX_RUN,
    ensures
        final(dst)@ == old(dst)@ + copy_lits2_bytes(lits@, offset as int, length as int),
        n == copy_lits2_bytes(lits@, offset as int, length as int).len(),
{
    let fused: usize = if length > COPY2_LIT_MAX_LEN {
        COPY2_LIT_MAX_LEN
    } else {
        length
    };
    dst.push((fused - 4) as u8 * 32 + (lits.len() - 1) as u8 * 8 + TAG_COPY2_FUSED);
    store16(dst, offset - MIN_COPY2_OFFSET);
    append_slice(dst, lits);
    let n: usize = 3 + lits.len();
    assert(dst@ =~= old(dst)@ + copy2_fused_bytes(lits@, offset as int, fused as int));
    if length > COPY2_LIT_MAX_LEN {
        let m: usize = emit_repeat(dst, length - COPY2_LIT_MAX_LEN);
        assert(dst@ =~= old(dst)@ + copy_lits2_bytes(lits@, offset as int, length as int));
        return n + m;
    }
    n
}

/// Appends a copy with one to three literals and a 21-bit offset; returns the
/// number of bytes written.
pub fn emit_copy_lits3(dst: &mut Vec<u8>, lits: &[u8], offset: usize, length: usize) -> (n: usize)
    requires
        1 <= lits.len() <= MAX_COPY3_LITS,
        MIN_COPY3_OFFSET <= offset <= MAX_COPY3_OFFSET,
        4 <= length <= MAX_COPY,
    ensures
        final(dst)@ == old(dst)@ + copy_lits3_bytes(lits@, offset as int, length as int),
        n == copy_lits3_bytes(lits@, offset as int, length as int).len(),
{
    let n: usize = encode_copy3(dst, offset, length, lits.len());
    append_slice(dst, lits);
    assert(dst@ =~= old(dst)@ + copy_lits3_bytes(lits@, offset as int, length as int));
    n + lits.len()
}

/// The size of the header of a literal of `n` bytes; nothing for no bytes.
pub open spec fn literal_size_n(n: int) -> int {
    if n == 0 {
        0
    } else if n <= 29 {
        1
    } else if n <= 284 {
        2
    } else if n <= 65565 {
        3
    } else {
        4
    }
}

/// The size of a repeat of `length` bytes; nothing for no bytes.
pub open spec fn repeat_size(length: int) -> int {
    if length == 0 {
        0
    } else if length <= 29 {
        1
    } else if length <= 285 {
        2
    } else if length <= 65565 {
        3
    } else {
        4
    }
}

/// The number of bytes that it takes to write `x`.
pub open spec fn byte_len(x: int) -> int
    decreases x,
{
    if x <= 0 {
        0
    } else {
        1 + byte_len(x / 256)
    }
}

proof fn lemma_byte_len(x: int)
    ensures
        0 <= byte_len(x),
        x >= 0 ==> byte_len(x) <= x,
    decreases x,
{
    if x > 0 {
        lemma_byte_len(x / 256);
    }
}

/// The size of a copy with a sixteen-bit offset and no literals.
pub open spec fn copy2_size(length: int) -> int {
    if length <= 64 {
        3
    } else if length < 320 {
        4
    } else if length < 65600 {
        5
    } else {
        6
    }
}

/// The size of a copy without literals.
pub open spec fn copy_size(offset: int, length: int) -> int {
    if offset > MAX_COPY2_OFFSET {
        4 + byte_len(length - 64)
    } else if offset > MAX_COPY1_OFFSET {
        copy2_size(length)
    } else if length <= 18 {
        2
    } else if length < 274 {
        3
    } else {
        2 + repeat_size(length - 18)
    }
}

/// The size functions agree with what the emitting functions write.
pub proof fn lemma_sizes(offset: int, length: int)
    requires
        4 <= length <= MAX_RUN,
        1 <= offset,
    ensures
        repeat_size(length) == repeat_bytes(length).len(),
        copy2_size(length) == copy2_bytes(offset, length).len(),
        copy_size(offset, length) == copy_bytes(offset, length).len(),
{
    reveal_with_fuel(byte_len, 5);
}

/// A literal takes its header and its bytes.
pub proof fn law_literal_size(lit: Seq<u8>)
    ensures
        literal_bytes(lit).len() == literal_size_n(lit.len() as int) + lit.len(),
{
}

/// The number of bytes that [`emit_literal`] writes for the header of a literal of `n`
/// bytes.
pub fn emit_literal_size_n(n: usize) -> (r: usize)
    ensures
        r == literal_size_n(n as int),
{
    if n == 0 {
        0
    } else if n <= 29 {
        1
    } else if n <= 284 {
        2
    } else if n <= 65565 {
        3
    } else {
        4
    }
}

/// The size of what [`emit_repeat`] writes.
pub fn emit_repeat_size(length: usize) -> (r: usize)
    ensures
        r == repeat_size(length as int),
{
    if length == 0 {
        return 0;
    }
    if length <= 29 {
        return 1;
    }
    let length: usize = length - 29;
    if length <= 256 {
        return 2;
    }
    if length <= 65536 {
        return 3;
    }
    4
}

/// The size of what [`encode_copy2`] writes.
pub fn emit_copy2_size(length: usize) -> (r: usize)
    requires
        length >= 4,
    ensures
        r == copy2_size(length as int),
{
    let length: usize = length - 4;
    if length <= 60 {
        return 3;
    }
    let length: usize = length - 60;
    if length < 256 {
        return 4;
    }
    if length < 65536 {
        return 5;
    }
    6
}

/// The size of what [`emit_copy`] writes.
pub fn emit_copy_size(offset: usize, length: usize) -> (r: usize)
    requires
        length >= 4,
    ensures
        r == copy_size(offset as int, length as int),
{
    if offset > MAX_COPY2_OFFSET {
        let mut size: usize = 4;
        let mut extra: usize = if length <= 64 {
            0
        } else {
            length - 64
        };
        proof {
            lemma_byte_len(length - 64);
        }
        while extra > 0
            invariant
                size + byte_len(extra as int) == 4 + byte_len(length - 64),
                4 + byte_len(length - 64) <= usize::MAX,
            decreases extra,
        {
            proof {
                lemma_byte_len(extra as int / 256);
            }
            extra = extra / 256;
            size = size + 1;
        }
        size
    } else if offset <= MAX_COPY1_OFFSET {
        if length <= 18 {
            2
        } else if length < 18 + 256 {
            3
        } else {
            2 + emit_repeat_size(length - 18)
        }
    } else {
        emit_copy2_size(length)
    }
}

} // verus!
