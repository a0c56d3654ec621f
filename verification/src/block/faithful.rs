//! What the encoders write decodes to their input: what all levels share, and the
//! fastest one.
use crate::block::emit;
use crate::block::encode;
use crate::block::encode::Work;
use crate::block::encode_l1;
use crate::block::encode_l1::Search;
use crate::block::format::{
    INPUT_MARGIN, MAX_BLOCK_SIZE, MAX_COPY2_LITS, MAX_COPY2_OFFSET, MAX_COPY3_LITS,
    MAX_COPY3_OFFSET, MIN_COPY2_OFFSET, MIN_COPY3_OFFSET, MIN_NON_LITERAL_BLOCK_SIZE,
};
use crate::block::hash;
use crate::block::load_store;
use crate::block::match_len;
use crate::block::ops;
use vstd::arithmetic::div_mod;
use vstd::arithmetic::power2;
use vstd::prelude::*;

verus! {

/// What has been written makes up the input up to the first byte not yet written.
pub open spec fn work_ok(src: Seq<u8>, w: Work) -> bool {
    &&& 0 <= w.next_emit <= w.s <= src.len() <= MAX_BLOCK_SIZE
    &&& w.repeat >= 1
    &&& emit::produces(w.body, src, w.next_emit, w.repeat)
}

/// Nothing written makes up nothing.
pub proof fn lemma_start(src: Seq<u8>)
    requires
        1 <= src.len() <= MAX_BLOCK_SIZE,
    ensures
        work_ok(src, encode::start_work()),
{
    reveal(emit::produces);
    assert(src.take(0) =~= Seq::<u8>::empty());
}

/// A literal.
pub proof fn lemma_literal(body: Seq<u8>, src: Seq<u8>, a: int, b: int, repeat: int)
    requires
        emit::produces(body, src, a, repeat),
        0 <= a <= b <= src.len() <= MAX_BLOCK_SIZE,
    ensures
        emit::produces(body + encode::literal(src, a, b), src, b, repeat),
{
    reveal(encode::literal);
    emit::lemma_produces_literal(body, src, a, b, repeat);
}

/// A match with the offset of the last copy.
pub proof fn lemma_repeated(body: Seq<u8>, src: Seq<u8>, a: int, repeat: int, length: int)
    requires
        emit::produces(body, src, a, repeat),
        src.len() <= MAX_BLOCK_SIZE,
        emit::is_match(src, a, repeat, length),
        length >= 1,
    ensures
        emit::produces(body + encode::repeated(length), src, a + length, repeat),
{
    reveal(encode::repeated);
    emit::lemma_produces_repeat(body, src, a, repeat, length);
}

/// A match.
pub proof fn lemma_copied(
    body: Seq<u8>,
    src: Seq<u8>,
    a: int,
    repeat: int,
    offset: int,
    length: int,
)
    requires
        emit::produces(body, src, a, repeat),
        src.len() <= MAX_BLOCK_SIZE,
        emit::is_match(src, a, offset, length),
        offset <= MAX_COPY3_OFFSET,
        length >= 4,
    ensures
        emit::produces(body + encode::copied(offset, length), src, a + length, offset),
{
    reveal(encode::copied);
    emit::lemma_produces_copy(body, src, a, repeat, offset, length);
}

/// A match as a copy with a sixteen-bit offset.
pub proof fn lemma_copied2(
    body: Seq<u8>,
    src: Seq<u8>,
    a: int,
    repeat: int,
    offset: int,
    length: int,
)
    requires
        emit::produces(body, src, a, repeat),
        src.len() <= MAX_BLOCK_SIZE,
        emit::is_match(src, a, offset, length),
        MIN_COPY2_OFFSET <= offset <= MAX_COPY2_OFFSET,
        length >= 4,
    ensures
        emit::produces(body + encode::copied2(offset, length), src, a + length, offset),
{
    reveal(encode::copied2);
    emit::lemma_produces_copy2(body, src, a, repeat, offset, length);
}

/// Literals and a match as a copy with a sixteen-bit offset.
pub proof fn lemma_fused2(
    body: Seq<u8>,
    src: Seq<u8>,
    a: int,
    b: int,
    repeat: int,
    offset: int,
    length: int,
)
    requires
        emit::produces(body, src, a, repeat),
        src.len() <= MAX_BLOCK_SIZE,
        1 <= b - a <= MAX_COPY2_LITS,
        emit::is_match(src, b, offset, length),
        MIN_COPY2_OFFSET <= offset <= MAX_COPY2_OFFSET,
        length >= 4,
    ensures
        emit::produces(body + encode::fused2(src, a, b, offset, length), src, b + length, offset),
{
    reveal(encode::fused2);
    emit::lemma_produces_copy_lits2(body, src, a, b, repeat, offset, length);
}

/// Literals and a match as a copy with a 21-bit offset.
pub proof fn lemma_fused3(
    body: Seq<u8>,
    src: Seq<u8>,
    a: int,
    b: int,
    repeat: int,
    offset: int,
    length: int,
)
    requires
        emit::produces(body, src, a, repeat),
        src.len() <= MAX_BLOCK_SIZE,
        1 <= b - a <= MAX_COPY3_LITS,
        emit::is_match(src, b, offset, length),
        MIN_COPY3_OFFSET <= offset <= MAX_COPY3_OFFSET,
        length >= 4,
    ensures
        emit::produces(body + encode::fused3(src, a, b, offset, length), src, b + length, offset),
{
    reveal(encode::fused3);
    emit::lemma_produces_copy_lits3(body, src, a, b, repeat, offset, length);
}

/// A body that makes up all of the input decodes to it.
pub proof fn lemma_all(body: Seq<u8>, src: Seq<u8>, repeat: int)
    requires
        emit::produces(body, src, src.len() as int, repeat),
        src.len() > 0,
    ensures
        ops::decoded(body) == Some(src),
        body.len() > 0,
{
    reveal(emit::produces);
    assert(src.take(src.len() as int) =~= src);
    if body.len() == 0 {
        assert(body =~= Seq::<u8>::empty());
    }
}

/// The rest as a literal.
pub proof fn lemma_finished(src: Seq<u8>, limit: int, w: Work)
    requires
        work_ok(src, w),
        src.len() > 0,
    ensures
        encode::finished(src, limit, w) matches Some(body) ==> ops::decoded(body) == Some(src)
            && body.len() > 0,
{
    if w.next_emit < src.len() {
        lemma_literal(w.body, src, w.next_emit, src.len() as int, w.repeat);
        lemma_all(
            w.body + encode::literal(src, w.next_emit, src.len() as int),
            src,
            w.repeat,
        );
    } else {
        lemma_all(w.body, src, w.repeat);
    }
}

/// A match of four bytes or more that extends forwards by `n` and backwards as far as
/// it goes.
pub proof fn lemma_extended(src: Seq<u8>, s: int, cand: int, floor: int, from: int, n: int)
    requires
        0 <= cand < s,
        0 <= floor <= s,
        s + from <= src.len(),
        0 <= n <= match_len::common_len(src, s + from, cand + from),
        0 <= from,
        forall|k: int| 0 <= k < from ==> src[s + k] == #[trigger] src[cand + k],
    ensures
        ({
            let back = match_len::common_back(src, s, cand, floor);
            &&& 0 <= back <= cand
            &&& back <= s - floor
            &&& emit::is_match(src, s - back, s - cand, back + from + n)
        }),
{
    let back = match_len::common_back(src, s, cand, floor);
    let offset = s - cand;
    match_len::lemma_common_len(src, s + from, cand + from);
    match_len::lemma_common_back(src, s, cand, floor);
    assert forall|i: int| s - back <= i < s + from + n implies #[trigger] src[i] == src[i
        - offset] by {
        if s <= i < s + from {
            assert(src[s + (i - s)] == src[cand + (i - s)]);
        }
    }
}

/// A hash of `h` bits.
pub proof fn lemma_hash(u: u64, factor: u64, prime: u64, h: u32)
    requires
        1 <= h <= 32,
    ensures
        0 <= hash::spec_hash(u, factor, prime, h) < power2::pow2(h as nat),
{
    let x = u.wrapping_mul(factor).wrapping_mul(prime);
    power2::lemma2_to64();
    power2::lemma_pow2_pos((64 - h) as nat);
    power2::lemma_pow2_pos(h as nat);
    power2::lemma_pow2_adds((64 - h) as nat, h as nat);
    div_mod::lemma_div_pos_is_pos(x as int, power2::pow2((64 - h) as nat) as int);
    div_mod::lemma_multiply_divide_lt(
        x as int,
        power2::pow2((64 - h) as nat) as int,
        power2::pow2(h as nat) as int,
    );
}

/// A hash of `h` bits of four bytes.
pub proof fn lemma_hash4(u: u64, h: u32)
    requires
        1 <= h <= 31,
    ensures
        0 <= hash::spec_hash4(u, h) < power2::pow2(h as nat),
{
    let x = ((u % 0x1_0000_0000) as u32).wrapping_mul(hash::PRIME4);
    power2::lemma2_to64();
    power2::lemma_pow2_pos((32 - h) as nat);
    power2::lemma_pow2_pos(h as nat);
    power2::lemma_pow2_adds((32 - h) as nat, h as nat);
    div_mod::lemma_div_pos_is_pos(x as int, power2::pow2((32 - h) as nat) as int);
    div_mod::lemma_multiply_divide_lt(
        x as int,
        power2::pow2((32 - h) as nat) as int,
        power2::pow2(h as nat) as int,
    );
}

/// A table of `size` positions that lie before `bound`.
pub open spec fn table_ok(table: Seq<int>, size: int, bound: int) -> bool {
    &&& table.len() == size
    &&& forall|i: int| 0 <= i < size ==> 0 <= #[trigger] table[i] < bound
}

spec fn size_l1(big: bool) -> int {
    if big {
        encode_l1::TABLE_SIZE_BIG as int
    } else {
        encode_l1::TABLE_SIZE_64K as int
    }
}

proof fn lemma_slot_l1(big: bool, x: u64)
    ensures
        0 <= encode_l1::slot(big, x) < size_l1(big),
{
    reveal(encode_l1::slot);
    power2::lemma2_to64();
    lemma_hash(x, 0x1_0000, hash::PRIME6, encode_l1::TABLE_BITS_BIG);
    lemma_hash(x, 0x100_0000, hash::PRIME5, encode_l1::TABLE_BITS_64K);
}

/// Operations take few bytes beside their literals.
proof fn lemma_op_lens(src: Seq<u8>, a: int, b: int, offset: int, length: int)
    requires
        0 <= a <= b <= src.len(),
    ensures
        encode::literal(src, a, b).len() <= b - a + 4,
        encode::repeated(length).len() <= 4,
        encode::copied(offset, length).len() <= 7,
        encode::fused2(src, a, b, offset, length).len() <= b - a + 7,
        encode::fused3(src, a, b, offset, length).len() <= b - a + 7,
{
    reveal(encode::literal);
    reveal(encode::repeated);
    reveal(encode::copied);
    reveal(encode::fused2);
    reveal(encode::fused3);
}

proof fn lemma_repeat_match_l1(src: Seq<u8>, limit: int, w: Work)
    requires
        work_ok(src, w),
        w.s + 5 <= src.len(),
        w.repeat <= w.s + 1,
        load_store::agree4(src, w.s + 1, w.s + 1 - w.repeat),
    ensures
        encode_l1::repeat_match(src, limit, w) matches Some(v) ==> {
            &&& work_ok(src, v)
            &&& v.s >= w.s + 5
            &&& v.body.len() <= limit + 8
        },
{
    let at = w.s + 1;
    let cand = at - w.repeat;
    let back = match_len::common_back(src, at, cand, w.next_emit);
    let n = match_len::common_words(src, at + 4, cand + 4);
    match_len::lemma_common_words(src, at + 4, cand + 4);
    lemma_extended(src, at, cand, w.next_emit, 4, n);
    let base = at - back;
    lemma_op_lens(src, w.next_emit, base, 0, back + 4 + n);
    lemma_literal(w.body, src, w.next_emit, base, w.repeat);
    lemma_repeated(
        w.body + encode::literal(src, w.next_emit, base),
        src,
        base,
        w.repeat,
        back + 4 + n,
    );
}

proof fn lemma_found_match_l1(src: Seq<u8>, limit: int, w: Work, cand: int, max_lits: int)
    requires
        work_ok(src, w),
        w.s + 4 <= src.len(),
        0 <= cand < w.s,
        w.s - cand <= MAX_COPY3_OFFSET,
        load_store::agree4(src, w.s, cand),
        w.body.len() <= limit + 8,
        max_lits <= MAX_COPY3_LITS || (max_lits == MAX_COPY2_LITS && w.s - cand
            <= MAX_COPY2_OFFSET),
    ensures
        encode_l1::found_match(src, limit, w, cand, max_lits) matches Some(v) ==> {
            &&& work_ok(src, v)
            &&& v.s == v.next_emit
            &&& v.s >= 4
            &&& v.s >= w.s + 4 || v.s + 8 > src.len()
            &&& v.body.len() <= limit + 24
        },
{
    let offset = w.s - cand;
    let back = match_len::common_back(src, w.s, cand, w.next_emit);
    let base = w.s - back;
    match_len::lemma_common_back(src, w.s, cand, w.next_emit);
    let n = match_len::common_words(src, base + 4, base + 4 - offset);
    match_len::lemma_common_words(src, base + 4, base + 4 - offset);
    assert forall|k: int| 0 <= k < 4 implies src[base + k] == #[trigger] src[base - offset + k] by {
        if base + k >= w.s {
            assert(src[w.s + (base + k - w.s)] == src[cand + (base + k - w.s)]);
        }
    }
    lemma_extended(src, base, base - offset, base, 4, n);
    let length = 4 + n;
    assert(emit::is_match(src, base, offset, length));
    match_len::lemma_common_len(src, base + 4, base + 4 - offset);
    let end = base + length;
    if end < w.s + 4 && end + 8 <= src.len() {
        assert(src[w.s + (end - w.s)] == src[cand + (end - w.s)]) by {
            if end < w.s {
                assert(src[end] == src[end - offset]);
            }
        }
    }
    let lits = base - w.next_emit;
    lemma_op_lens(src, w.next_emit, base, offset, length);
    if lits == 0 {
        lemma_copied(w.body, src, base, w.repeat, offset, length);
    } else if lits > max_lits || offset < MIN_COPY2_OFFSET {
        lemma_literal(w.body, src, w.next_emit, base, w.repeat);
        lemma_copied(
            w.body + encode::literal(src, w.next_emit, base),
            src,
            base,
            w.repeat,
            offset,
            length,
        );
    } else if offset <= MAX_COPY2_OFFSET {
        lemma_fused2(w.body, src, w.next_emit, base, w.repeat, offset, length);
    } else {
        lemma_fused3(w.body, src, w.next_emit, base, w.repeat, offset, length);
    }
}

proof fn lemma_search_l1(big: bool, src: Seq<u8>, limit: int, w: Work, table: Seq<int>)
    requires
        work_ok(src, w),
        1 <= w.s,
        w.s + INPUT_MARGIN <= src.len(),
        table_ok(table, size_l1(big), w.s),
        w.body.len() <= limit + 8,
    ensures
        match encode_l1::search(big, src, limit, w, table) {
            Search::GiveUp => true,
            Search::Finished(v) => work_ok(src, v) && v.body.len() <= limit + 8,
            Search::Match(cand, v, t) => {
                &&& work_ok(src, v)
                &&& v.body.len() <= limit + 8
                &&& v.s + 10 <= src.len()
                &&& 0 <= cand < v.s
                &&& v.s - cand <= MAX_COPY3_OFFSET
                &&& load_store::agree4(src, v.s, cand)
                &&& table_ok(t, size_l1(big), v.s + 3)
            },
        },
    decreases src.len() - w.s,
{
    let s_limit = src.len() - INPUT_MARGIN;
    let next_s = w.s + (w.s - w.next_emit) / encode_l1::patience(big) + 4;
    if next_s <= s_limit {
        let x = load_store::bytes_at(src, w.s);
        let h0 = encode_l1::slot(big, x);
        let h1 = encode_l1::slot(big, x / 0x100);
        let h2 = encode_l1::slot(big, x / 0x1_0000);
        lemma_slot_l1(big, x);
        lemma_slot_l1(big, x / 0x100);
        lemma_slot_l1(big, x / 0x1_0000);
        let two = table.update(h0, w.s).update(h1, w.s + 1);
        let three = two.update(h2, w.s + 2);
        assert(table_ok(two, size_l1(big), w.s + 2));
        assert(table_ok(three, size_l1(big), w.s + 3));
        let near = w.s + 2 - MAX_COPY3_OFFSET;
        if w.repeat <= w.s + 1 && load_store::agree4(src, w.s + 1, w.s + 1 - w.repeat) {
            lemma_repeat_match_l1(src, limit, w);
            if let Some(v) = encode_l1::repeat_match(src, limit, w) {
                if v.s < s_limit {
                    lemma_search_l1(big, src, limit, v, two);
                }
            }
        } else if table[h0] >= near && load_store::agree4(src, w.s, table[h0]) {
        } else if table[h1] >= near && load_store::agree4(src, w.s + 1, table[h1]) {
        } else if two[h2] >= near && load_store::agree4(src, w.s + 2, two[h2]) {
        } else {
            lemma_search_l1(big, src, limit, Work { s: next_s, ..w }, three);
        }
    }
}

proof fn lemma_chain_l1(big: bool, src: Seq<u8>, limit: int, w: Work, table: Seq<int>)
    requires
        work_ok(src, w),
        w.s == w.next_emit,
        2 <= w.s,
        src.len() >= MIN_NON_LITERAL_BLOCK_SIZE,
        w.s + INPUT_MARGIN <= src.len() ==> table_ok(table, size_l1(big), w.s),
        w.body.len() <= limit + 24,
    ensures
        encode_l1::chain(big, src, limit, w, table) matches Some((done, v, t)) ==> {
            &&& work_ok(src, v)
            &&& v.body.len() <= limit + 24
            &&& !done ==> {
                &&& v.body.len() <= limit
                &&& v.s + INPUT_MARGIN <= src.len()
                &&& 1 <= v.s
                &&& table_ok(t, size_l1(big), v.s)
            }
        },
    decreases src.len() - w.s,
{
    if w.s < src.len() - INPUT_MARGIN && w.body.len() <= limit {
        let x = load_store::bytes_at(src, w.s - 2);
        let m2 = encode_l1::slot(big, x);
        let h = encode_l1::slot(big, x / 0x1_0000);
        lemma_slot_l1(big, x);
        lemma_slot_l1(big, x / 0x1_0000);
        let cand = table[h];
        let next = table.update(m2, w.s - 2).update(h, w.s);
        assert(table_ok(next, size_l1(big), w.s + 1));
        if !(w.s - cand > MAX_COPY3_OFFSET || !load_store::agree4(src, w.s, cand)) {
            let n = match_len::common_words(src, w.s + 4, cand + 4);
            match_len::lemma_common_words(src, w.s + 4, cand + 4);
            lemma_extended(src, w.s, cand, w.s, 4, n);
            lemma_copied(w.body, src, w.s, w.repeat, w.s - cand, 4 + n);
            lemma_op_lens(src, 0, 0, w.s - cand, 4 + n);
            let end = w.s + 4 + n;
            let v = Work {
                body: w.body + encode::copied(w.s - cand, end - w.s),
                s: end,
                next_emit: end,
                repeat: w.s - cand,
            };
            lemma_chain_l1(big, src, limit, v, next);
        }
    }
}

proof fn lemma_greedy_l1(big: bool, src: Seq<u8>, limit: int, w: Work, table: Seq<int>)
    requires
        work_ok(src, w),
        1 <= w.s,
        w.s + INPUT_MARGIN <= src.len(),
        src.len() >= MIN_NON_LITERAL_BLOCK_SIZE,
        !big ==> src.len() <= 65536,
        table_ok(table, size_l1(big), w.s),
        w.body.len() <= limit + 8,
    ensures
        encode_l1::greedy(big, src, limit, w, table) matches Some(v) ==> work_ok(src, v)
            && v.body.len() <= limit + 24,
    decreases src.len() - w.s,
{
    reveal(encode_l1::round);
    lemma_search_l1(big, src, limit, w, table);
    if let Search::Match(cand, v, t) = encode_l1::search(big, src, limit, w, table) {
        let lits = encode_l1::most_lits(big);
        lemma_found_match_l1(src, limit, v, cand, lits);
        if let Some(u) = encode_l1::found_match(src, limit, v, cand, lits) {
            lemma_chain_l1(big, src, limit, u, t);
            if let Some((done, y, z)) = encode_l1::chain(big, src, limit, u, t) {
                if !done && w.s < y.s <= src.len() {
                    lemma_greedy_l1(big, src, limit, y, z);
                }
            }
        }
    }
}

/// What the fastest encoder writes decodes to the input, wherever in it the matches lie,
/// and for an input of more than 64 KiB takes less space than the input.
pub proof fn law_body_l1(src: Seq<u8>)
    requires
        src.len() <= MAX_BLOCK_SIZE,
    ensures
        encode_l1::body_of(src) matches Some(body) ==> ops::decoded(body) == Some(src)
            && body.len() > 0,
        encode_l1::body_of(src) matches Some(body) ==> src.len() > 65536 ==> body.len()
            < src.len(),
{
    if src.len() >= MIN_NON_LITERAL_BLOCK_SIZE {
        let big = src.len() > 65536;
        let limit = encode::limit_of(src.len() as int);
        let table = encode::empty_table(size_l1(big));
        lemma_start(src);
        lemma_greedy_l1(big, src, limit, encode::start_work(), table);
        if let Some(w) = encode_l1::greedy(big, src, limit, encode::start_work(), table) {
            lemma_finished(src, limit, w);
            lemma_op_lens(src, w.next_emit, src.len() as int, 0, 0);
        }
    }
}

} // verus!
