//! What the encoders of all levels share: where they stand in the input, and
//! operations that keep the output a faithful encoding of the input so far.
use crate::block::emit;
use crate::block::emit::{
    emit_copy, emit_copy_lits2, emit_copy_lits3, emit_literal, emit_repeat, encode_copy2,
};
use crate::block::format::{
    MAX_BLOCK_SIZE, MAX_COPY2_LITS, MAX_COPY2_OFFSET, MAX_COPY3_LITS, MAX_COPY3_OFFSET,
    MIN_COPY2_OFFSET, MIN_COPY3_OFFSET,
};
use crate::block::ops;
use vstd::prelude::*;
use vstd::slice::slice_subrange;

verus! {

/// Where an encoder stands in its input.
#[derive(Clone, Copy)]
pub struct Cursor {
    /// The position looked at.
    pub s: usize,
    /// The first byte not yet written.
    pub next_emit: usize,
    /// The offset of the last copy.
    pub repeat: usize,
}

/// What a search for a match came to.
pub enum Found {
    /// The cursor's position matches this earlier one.
    Match(usize),
    /// The end of the input is near; the rest is written as a literal.
    Finished,
    /// The output grew too large.
    GiveUp,
}

/// The output from `start` on is a block body that makes up `src` up to `upto`
/// and leaves `repeat` as the offset of the last copy.
pub open spec fn faithful(dst: Seq<u8>, start: int, src: Seq<u8>, upto: int, repeat: int) -> bool {
    &&& 0 <= start <= dst.len()
    &&& 0 <= upto <= src.len() <= MAX_BLOCK_SIZE
    &&& emit::produces(dst.skip(start), src, upto, repeat)
}

/// What an encoder has written, and where it stands in its input.
pub struct Work {
    /// The block body so far.
    pub body: Seq<u8>,
    /// The position looked at.
    pub s: int,
    /// The first byte not yet written.
    pub next_emit: int,
    /// The offset of the last copy.
    pub repeat: int,
}

/// What has been written to `dst` from `start` on, with the cursor.
pub open spec fn work(dst: Seq<u8>, start: int, cur: Cursor) -> Work {
    Work {
        body: dst.skip(start),
        s: cur.s as int,
        next_emit: cur.next_emit as int,
        repeat: cur.repeat as int,
    }
}

/// Where every encoder starts: the first byte has nothing before it to match.
pub open spec fn start_work() -> Work {
    Work { body: Seq::empty(), s: 1, next_emit: 0, repeat: 1 }
}

/// `src[a..b]` as a literal.
#[verifier::opaque]
pub open spec fn literal(src: Seq<u8>, a: int, b: int) -> Seq<u8> {
    emit::literal_bytes(src.subrange(a, b))
}

/// A match of `length` bytes with the offset of the last copy.
#[verifier::opaque]
pub open spec fn repeated(length: int) -> Seq<u8> {
    emit::repeat_bytes(length)
}

/// A match of `length` bytes.
#[verifier::opaque]
pub open spec fn copied(offset: int, length: int) -> Seq<u8> {
    emit::copy_bytes(offset, length)
}

/// A match of `length` bytes as a copy with a sixteen-bit offset.
#[verifier::opaque]
pub open spec fn copied2(offset: int, length: int) -> Seq<u8> {
    emit::copy2_bytes(offset, length)
}

/// `src[a..b]` and a match of `length` bytes as a copy with a sixteen-bit offset.
#[verifier::opaque]
pub open spec fn fused2(src: Seq<u8>, a: int, b: int, offset: int, length: int) -> Seq<u8> {
    emit::copy_lits2_bytes(src.subrange(a, b), offset, length)
}

/// `src[a..b]` and a match of `length` bytes as a copy with a 21-bit offset.
#[verifier::opaque]
pub open spec fn fused3(src: Seq<u8>, a: int, b: int, offset: int, length: int) -> Seq<u8> {
    emit::copy_lits3_bytes(src.subrange(a, b), offset, length)
}

/// `bytes` were added.
pub open spec fn wrote(before: Seq<u8>, after: Seq<u8>, start: int, bytes: Seq<u8>) -> bool {
    after.skip(start) == before.skip(start) + bytes
}

/// Nothing before `start` changed, and at most `n` bytes were added.
pub open spec fn grew(before: Seq<u8>, after: Seq<u8>, start: int, n: int) -> bool {
    &&& before.len() <= after.len() <= before.len() + n
    &&& after.take(start) == before.take(start)
}

/// All bytes of `src` are the same.
pub open spec fn is_constant(src: Seq<u8>) -> bool {
    forall|i: int| 0 <= i < src.len() ==> #[trigger] src[i] == src[0]
}

proof fn lemma_appended(before: Seq<u8>, bytes: Seq<u8>, start: int)
    requires
        0 <= start <= before.len(),
    ensures
        (before + bytes).skip(start) == before.skip(start) + bytes,
        (before + bytes).take(start) == before.take(start),
{
    assert((before + bytes).skip(start) =~= before.skip(start) + bytes);
    assert((before + bytes).take(start) =~= before.take(start));
}

/// An empty body is a faithful encoding of nothing.
pub proof fn lemma_faithful_start(dst: Seq<u8>, src: Seq<u8>)
    requires
        src.len() <= MAX_BLOCK_SIZE,
    ensures
        faithful(dst, dst.len() as int, src, 0, 1),
{
    reveal(emit::produces);
    assert(dst.skip(dst.len() as int) =~= Seq::<u8>::empty());
    assert(src.take(0) =~= Seq::<u8>::empty());
}

/// A faithful encoding of all of the input decodes to it.
pub proof fn lemma_faithful_end(dst: Seq<u8>, start: int, src: Seq<u8>, repeat: int)
    requires
        faithful(dst, start, src, src.len() as int, repeat),
    ensures
        ops::decoded(dst.skip(start)) == Some(src),
{
    reveal(emit::produces);
    assert(src.take(src.len() as int) =~= src);
}

/// Writes `src[a..b]` as a literal.
pub fn put_literal(dst: &mut Vec<u8>, start: usize, src: &[u8], a: usize, b: usize, repeat: usize)
    requires
        faithful(old(dst)@, start as int, src@, a as int, repeat as int),
        a <= b <= src.len(),
    ensures
        faithful(final(dst)@, start as int, src@, b as int, repeat as int),
        grew(old(dst)@, final(dst)@, start as int, b - a + 4),
        b - a <= 29 ==> grew(old(dst)@, final(dst)@, start as int, b - a + 1),
        wrote(
            old(dst)@,
            final(dst)@,
            start as int,
            literal(src@, a as int, b as int),
        ),
{
    emit_literal(dst, slice_subrange(src, a, b));
    proof {
        reveal(literal);
        lemma_appended(old(dst)@, emit::literal_bytes(src@.subrange(a as int, b as int)), start as int);
        emit::lemma_produces_literal(
            old(dst)@.skip(start as int),
            src@,
            a as int,
            b as int,
            repeat as int,
        );
    }
}

/// Writes a match of `length` bytes at `a` with the offset of the last copy.
pub fn put_repeat(
    dst: &mut Vec<u8>,
    start: usize,
    src: &[u8],
    a: usize,
    repeat: usize,
    length: usize,
)
    requires
        faithful(old(dst)@, start as int, src@, a as int, repeat as int),
        emit::is_match(src@, a as int, repeat as int, length as int),
        length >= 1,
    ensures
        faithful(final(dst)@, start as int, src@, a + length, repeat as int),
        grew(old(dst)@, final(dst)@, start as int, 4),
        wrote(
            old(dst)@,
            final(dst)@,
            start as int,
            repeated(length as int),
        ),
{
    emit_repeat(dst, length);
    proof {
        reveal(repeated);
        lemma_appended(old(dst)@, emit::repeat_bytes(length as int), start as int);
        emit::lemma_produces_repeat(
            old(dst)@.skip(start as int),
            src@,
            a as int,
            repeat as int,
            length as int,
        );
    }
}

/// Writes a match of `length` bytes at `a`.
pub fn put_copy(
    dst: &mut Vec<u8>,
    start: usize,
    src: &[u8],
    a: usize,
    repeat: usize,
    offset: usize,
    length: usize,
)
    requires
        faithful(old(dst)@, start as int, src@, a as int, repeat as int),
        emit::is_match(src@, a as int, offset as int, length as int),
        offset <= MAX_COPY3_OFFSET,
        length >= 4,
    ensures
        faithful(final(dst)@, start as int, src@, a + length, offset as int),
        grew(old(dst)@, final(dst)@, start as int, 7),
        wrote(
            old(dst)@,
            final(dst)@,
            start as int,
            copied(offset as int, length as int),
        ),
{
    emit_copy(dst, offset, length);
    proof {
        reveal(copied);
        lemma_appended(old(dst)@, emit::copy_bytes(offset as int, length as int), start as int);
        emit::lemma_produces_copy(
            old(dst)@.skip(start as int),
            src@,
            a as int,
            repeat as int,
            offset as int,
            length as int,
        );
    }
}

/// Writes a match of `length` bytes at `a` as a copy with a sixteen-bit offset.
pub fn put_copy2(
    dst: &mut Vec<u8>,
    start: usize,
    src: &[u8],
    a: usize,
    repeat: usize,
    offset: usize,
    length: usize,
)
    requires
        faithful(old(dst)@, start as int, src@, a as int, repeat as int),
        emit::is_match(src@, a as int, offset as int, length as int),
        MIN_COPY2_OFFSET <= offset <= MAX_COPY2_OFFSET,
        length >= 4,
    ensures
        faithful(final(dst)@, start as int, src@, a + length, offset as int),
        grew(old(dst)@, final(dst)@, start as int, 7),
        wrote(
            old(dst)@,
            final(dst)@,
            start as int,
            copied2(offset as int, length as int),
        ),
{
    encode_copy2(dst, offset, length);
    proof {
        reveal(copied2);
        lemma_appended(old(dst)@, emit::copy2_bytes(offset as int, length as int), start as int);
        emit::lemma_produces_copy2(
            old(dst)@.skip(start as int),
            src@,
            a as int,
            repeat as int,
            offset as int,
            length as int,
        );
    }
}

/// Writes `src[a..b]`, one to four bytes, and a match of `length` bytes at `b`
/// as a copy with a sixteen-bit offset.
pub fn put_copy_lits2(
    dst: &mut Vec<u8>,
    start: usize,
    src: &[u8],
    a: usize,
    b: usize,
    repeat: usize,
    offset: usize,
    length: usize,
)
    requires
        faithful(old(dst)@, start as int, src@, a as int, repeat as int),
        1 <= b - a <= MAX_COPY2_LITS,
        emit::is_match(src@, b as int, offset as int, length as int),
        MIN_COPY2_OFFSET <= offset <= MAX_COPY2_OFFSET,
        length >= 4,
    ensures
        faithful(final(dst)@, start as int, src@, b + length, offset as int),
        grew(old(dst)@, final(dst)@, start as int, 11),
        wrote(
            old(dst)@,
            final(dst)@,
            start as int,
            fused2(src@, a as int, b as int, offset as int, length as int),
        ),
{
    emit_copy_lits2(dst, slice_subrange(src, a, b), offset, length);
    proof {
        reveal(fused2);
        let lits = src@.subrange(a as int, b as int);
        lemma_appended(
            old(dst)@,
            emit::copy_lits2_bytes(lits, offset as int, length as int),
            start as int,
        );
        emit::lemma_produces_copy_lits2(
            old(dst)@.skip(start as int),
            src@,
            a as int,
            b as int,
            repeat as int,
            offset as int,
            length as int,
        );
    }
}

/// Writes `src[a..b]`, one to three bytes, and a match of `length` bytes at `b`
/// as a copy with a 21-bit offset.
pub fn put_copy_lits3(
    dst: &mut Vec<u8>,
    start: usize,
    src: &[u8],
    a: usize,
    b: usize,
    repeat: usize,
    offset: usize,
    length: usize,
)
    requires
        faithful(old(dst)@, start as int, src@, a as int, repeat as int),
        1 <= b - a <= MAX_COPY3_LITS,
        emit::is_match(src@, b as int, offset as int, length as int),
        MIN_COPY3_OFFSET <= offset <= MAX_COPY3_OFFSET,
        length >= 4,
    ensures
        faithful(final(dst)@, start as int, src@, b + length, offset as int),
        grew(old(dst)@, final(dst)@, start as int, 11),
        wrote(
            old(dst)@,
            final(dst)@,
            start as int,
            fused3(src@, a as int, b as int, offset as int, length as int),
        ),
{
    emit_copy_lits3(dst, slice_subrange(src, a, b), offset, length);
    proof {
        reveal(fused3);
        let lits = src@.subrange(a as int, b as int);
        lemma_appended(
            old(dst)@,
            emit::copy_lits3_bytes(lits, offset as int, length as int),
            start as int,
        );
        emit::lemma_produces_copy_lits3(
            old(dst)@.skip(start as int),
            src@,
            a as int,
            b as int,
            repeat as int,
            offset as int,
            length as int,
        );
    }
}

/// The output may not grow beyond this.
pub open spec fn limit_of(len: int) -> int {
    len - len / 32 - 6
}

/// A cursor at rest between operations.
pub open spec fn cursor_ok(dst: Seq<u8>, start: int, src: Seq<u8>, cur: Cursor) -> bool {
    &&& faithful(dst, start, src, cur.next_emit as int, cur.repeat as int)
    &&& cur.next_emit <= cur.s <= src.len()
    &&& cur.repeat >= 1
}

/// Nothing has been written of an input that is one byte over and over.
pub open spec fn constant_start(dst: Seq<u8>, start: int, src: Seq<u8>, cur: Cursor) -> bool {
    &&& is_constant(src)
    &&& src.len() >= 32
    &&& dst.len() == start
    &&& cur.s == 1
    &&& cur.next_emit == 0
    &&& cur.repeat == 1
}

/// All but a few bytes of the input have been written in a few bytes.
pub open spec fn constant_end(dst: Seq<u8>, start: int, src: Seq<u8>, cur: Cursor) -> bool {
    &&& dst.len() <= start + 9
    &&& cur.next_emit + 8 > src.len()
}

/// Every position in `table` lies before `bound`.
pub open spec fn below32(table: Seq<u32>, bound: int) -> bool {
    forall|i: int| 0 <= i < table.len() ==> (#[trigger] table[i]) < bound
}

/// Every position in `table` lies before `bound`.
pub open spec fn below16(table: Seq<u16>, bound: int) -> bool {
    forall|i: int| 0 <= i < table.len() ==> (#[trigger] table[i]) < bound
}

/// The outcome of an encoder: either the body at the end of `after` decodes to
/// `src`, or there is none. An input of one byte over and over, if it is
/// long enough, is always encoded, in a few bytes.
pub open spec fn encoded_or_not(before: Seq<u8>, after: Seq<u8>, src: Seq<u8>, n: int) -> bool {
    &&& before.len() <= after.len()
    &&& after.take(before.len() as int) == before
    &&& n > 0 ==> {
        &&& n == after.len() - before.len()
        &&& ops::decoded(after.skip(before.len() as int)) == Some(src)
    }
    &&& is_constant(src) && src.len() >= 32 ==> 0 < n <= 17
}

/// The encoder appended `body` and returned its length, or returned zero where
/// there is none.
pub open spec fn is_outcome(
    before: Seq<u8>,
    after: Seq<u8>,
    n: int,
    body: Option<Seq<u8>>,
) -> bool {
    match body {
        None => n == 0,
        Some(body) => n > 0 && n == body.len() && after == before + body,
    }
}

/// The body with what is left of the input as a literal; nothing where it grows
/// too large.
pub open spec fn finished(src: Seq<u8>, limit: int, w: Work) -> Option<Seq<u8>> {
    if w.next_emit >= src.len() {
        Some(w.body)
    } else if w.body.len() + (src.len() - w.next_emit) > limit {
        None
    } else {
        Some(w.body + literal(src, w.next_emit, src.len() as int))
    }
}

/// The positions in a table.
pub open spec fn positions32(table: Seq<u32>) -> Seq<int> {
    Seq::new(table.len(), |i: int| table[i] as int)
}

/// The positions in a table.
pub open spec fn positions16(table: Seq<u16>) -> Seq<int> {
    Seq::new(table.len(), |i: int| table[i] as int)
}

/// A table in which nothing has been recorded.
pub open spec fn empty_table(size: int) -> Seq<int> {
    Seq::new(size as nat, |i: int| 0)
}

/// Writes what is left of the input as a literal and returns the length of the
/// body, or zero where it grew too large.
pub fn finish(dst: &mut Vec<u8>, start: usize, src: &[u8], cur: &Cursor, dst_limit: usize) -> (n: usize)
    requires
        cursor_ok(old(dst)@, start as int, src@, *cur),
        old(dst).len() - start <= dst_limit + 60,
        dst_limit <= src.len(),
        src.len() >= 1,
    ensures
        start <= final(dst).len(),
        final(dst)@.take(start as int) == old(dst)@.take(start as int),
        n > 0 ==> n == final(dst).len() - start && ops::decoded(final(dst)@.skip(start as int))
            == Some(src@),
        constant_end(old(dst)@, start as int, src@, *cur) && dst_limit >= 16 ==> 0 < n <= 17,
        is_outcome(
            old(dst)@.take(start as int),
            final(dst)@,
            n as int,
            finished(src@, dst_limit as int, work(old(dst)@, start as int, *cur)),
        ),
{
    if cur.next_emit < src.len() {
        if (dst.len() - start) + (src.len() - cur.next_emit) > dst_limit {
            return 0;
        }
        put_literal(dst, start, src, cur.next_emit, src.len(), cur.repeat);
    }
    proof {
        lemma_faithful_end(dst@, start as int, src@, cur.repeat as int);
        if dst.len() == start {
            assert(dst@.skip(start as int) =~= Seq::<u8>::empty());
        }
        assert(dst@ =~= dst@.take(start as int) + dst@.skip(start as int));
    }
    dst.len() - start
}

} // verus!
