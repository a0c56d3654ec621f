//! What the balanced encoder writes decodes to its input.
use crate::block::emit;
use crate::block::encode;
use crate::block::encode::Work;
use crate::block::encode_l2;
use crate::block::encode_l2::{Search, Tables, Written};
use crate::block::faithful;
use crate::block::format::{
    INPUT_MARGIN, MAX_BLOCK_SIZE, MAX_COPY2_LITS, MAX_COPY2_OFFSET, MAX_COPY3_LITS,
    MAX_COPY3_OFFSET, MIN_COPY2_OFFSET, MIN_NON_LITERAL_BLOCK_SIZE,
};
use crate::block::hash;
use crate::block::load_store;
use crate::block::match_len;
use crate::block::ops;
use vstd::arithmetic::power2;
use vstd::prelude::*;

verus! {

/// The positions in both tables lie before `bound`.
spec fn tables_ok(big: bool, t: Tables, bound: int) -> bool {
    let e = encode_l2::empty_tables(big);
    &&& faithful::table_ok(t.long, e.long.len() as int, bound)
    &&& faithful::table_ok(t.short, e.short.len() as int, bound)
}

proof fn lemma_slots(big: bool, x: u64)
    ensures
        0 <= encode_l2::long_slot(big, x) < encode_l2::empty_tables(big).long.len(),
        0 <= encode_l2::short_slot(big, x) < encode_l2::empty_tables(big).short.len(),
{
    reveal(encode_l2::long_slot);
    reveal(encode_l2::short_slot);
    power2::lemma2_to64();
    faithful::lemma_hash(x, 0x100, hash::PRIME7, encode_l2::L_TABLE_BITS_BIG);
    faithful::lemma_hash(x, 0x1_0000, hash::PRIME6, encode_l2::L_TABLE_BITS_64K);
    faithful::lemma_hash4(x, encode_l2::S_TABLE_BITS_BIG);
    faithful::lemma_hash4(x, encode_l2::S_TABLE_BITS_64K);
}

proof fn lemma_with_both(big: bool, src: Seq<u8>, t: Tables, i: int, bound: int)
    requires
        tables_ok(big, t, bound),
        0 <= i,
        i + 1 < bound,
    ensures
        tables_ok(big, encode_l2::with_both(big, src, t, i), bound),
{
    let x = load_store::bytes_at(src, i);
    lemma_slots(big, x);
    lemma_slots(big, x / 0x100);
}

proof fn lemma_with_long(big: bool, src: Seq<u8>, t: Tables, i: int, bound: int)
    requires
        tables_ok(big, t, bound),
        0 <= i < bound,
    ensures
        tables_ok(big, encode_l2::with_long(big, src, t, i), bound),
{
    lemma_slots(big, load_store::bytes_at(src, i));
}

proof fn lemma_with_ends(big: bool, src: Seq<u8>, t: Tables, a: int, b: int, bound: int)
    requires
        tables_ok(big, t, bound),
        0 <= a,
        b + 1 < bound,
    ensures
        tables_ok(big, encode_l2::with_ends(big, src, t, a, b), bound),
    decreases (if a < b { b - a } else { 0 }),
{
    if a < b {
        let one = encode_l2::with_both(big, src, t, a);
        lemma_with_both(big, src, t, a, bound);
        lemma_with_both(big, src, one, b, bound);
        lemma_with_ends(big, src, encode_l2::with_both(big, src, one, b), a + 2, b - 2, bound);
    }
}

proof fn lemma_with_halves(
    big: bool,
    src: Seq<u8>,
    t: Tables,
    a: int,
    b: int,
    end: int,
    bound: int,
)
    requires
        tables_ok(big, t, bound),
        0 <= a <= b,
        end <= bound,
    ensures
        tables_ok(big, encode_l2::with_halves(big, src, t, a, b, end), bound),
    decreases (if b < end { end - b } else { 0 }),
{
    if b < end {
        let one = encode_l2::with_long(big, src, t, a);
        lemma_with_long(big, src, t, a, bound);
        lemma_with_long(big, src, one, b, bound);
        lemma_with_halves(
            big,
            src,
            encode_l2::with_long(big, src, one, b),
            a + 2,
            b + 2,
            end,
            bound,
        );
    }
}

proof fn lemma_with_match(big: bool, src: Seq<u8>, t: Tables, base: int, s: int)
    requires
        tables_ok(big, t, s),
        0 <= base,
        base + 4 <= s,
    ensures
        tables_ok(big, encode_l2::with_match(big, src, t, base, s), s),
{
    let one = encode_l2::with_both(big, src, t, base + 1);
    lemma_with_both(big, src, t, base + 1, s);
    lemma_with_both(big, src, one, s - 2, s);
    let two = encode_l2::with_both(big, src, one, s - 2);
    lemma_with_halves(big, src, two, base + 2, (base + s) / 2, s - 3, s);
}

proof fn lemma_repeat_match(src: Seq<u8>, limit: int, w: Work)
    requires
        faithful::work_ok(src, w),
        w.s + 5 <= src.len(),
        w.repeat <= w.s,
        load_store::agree4(src, w.s + 1, w.s + 1 - w.repeat),
    ensures
        encode_l2::repeat_match(src, limit, w) matches Some((base, v)) ==> {
            &&& faithful::work_ok(src, v)
            &&& v.s >= w.s + 5
            &&& 0 <= base <= w.s + 1
        },
{
    let at = w.s + 1;
    let cand = at - w.repeat;
    let back = match_len::common_back(src, at, cand, w.next_emit);
    let n = match_len::common_len(src, at + 4, cand + 4);
    match_len::lemma_common_words(src, at + 4, cand + 4);
    faithful::lemma_extended(src, at, cand, w.next_emit, 4, n);
    let base = at - back;
    faithful::lemma_literal(w.body, src, w.next_emit, base, w.repeat);
    faithful::lemma_repeated(
        w.body + encode::literal(src, w.next_emit, base),
        src,
        base,
        w.repeat,
        back + 4 + n,
    );
}

proof fn lemma_found_match(src: Seq<u8>, limit: int, w: Work, cand: int)
    requires
        faithful::work_ok(src, w),
        w.s + 4 <= src.len(),
        0 <= cand < w.s,
        w.s - cand <= MAX_COPY3_OFFSET,
        load_store::agree4(src, w.s, cand),
    ensures
        encode_l2::found_match(src, limit, w, cand) matches Written::Wrote(base, v) ==> {
            &&& faithful::work_ok(src, v)
            &&& v.s >= w.s + 4
            &&& 0 <= base
            &&& base + 4 <= v.s
        },
{
    let offset = w.s - cand;
    let back = match_len::common_back(src, w.s, cand, w.next_emit);
    let base = w.s - back;
    match_len::lemma_common_back(src, w.s, cand, w.next_emit);
    let n = match_len::common_len(src, base + 4, base + 4 - offset);
    match_len::lemma_common_len(src, base + 4, base + 4 - offset);
    assert forall|k: int| 0 <= k < 4 implies src[base + k] == #[trigger] src[base - offset + k] by {
        if base + k >= w.s {
            assert(src[w.s + (base + k - w.s)] == src[cand + (base + k - w.s)]);
        }
    }
    faithful::lemma_extended(src, base, base - offset, base, 4, n);
    let length = 4 + n;
    assert(emit::is_match(src, base, offset, length));
    let end = base + length;
    if end < w.s + 4 {
        assert(src[w.s + (end - w.s)] == src[cand + (end - w.s)]) by {
            if end < w.s {
                assert(src[end] == src[end - offset]);
            }
        }
    }
    let lits = base - w.next_emit;
    if lits == 0 {
        faithful::lemma_copied(w.body, src, base, w.repeat, offset, length);
    } else {
        faithful::lemma_literal(w.body, src, w.next_emit, base, w.repeat);
        faithful::lemma_copied(
            w.body + encode::literal(src, w.next_emit, base),
            src,
            base,
            w.repeat,
            offset,
            length,
        );
        if MIN_COPY2_OFFSET <= offset <= MAX_COPY2_OFFSET && lits <= MAX_COPY2_LITS {
            faithful::lemma_fused2(w.body, src, w.next_emit, base, w.repeat, offset, length);
        }
        if offset > MAX_COPY2_OFFSET && lits <= MAX_COPY3_LITS {
            faithful::lemma_fused3(w.body, src, w.next_emit, base, w.repeat, offset, length);
        }
    }
}

proof fn lemma_search(big: bool, src: Seq<u8>, limit: int, w: Work, t: Tables)
    requires
        faithful::work_ok(src, w),
        1 <= w.s,
        w.s + INPUT_MARGIN <= src.len(),
        tables_ok(big, t, w.s),
    ensures
        match encode_l2::search(big, src, limit, w, t) {
            Search::GiveUp => true,
            Search::Finished(v) => faithful::work_ok(src, v),
            Search::Match(cand, next_s, v, t) => {
                &&& faithful::work_ok(src, v)
                &&& v.s <= next_s
                &&& next_s + INPUT_MARGIN <= src.len()
                &&& 0 <= cand < v.s
                &&& v.s - cand <= MAX_COPY3_OFFSET
                &&& load_store::agree4(src, v.s, cand)
                &&& tables_ok(big, t, next_s + 1)
                &&& tables_ok(big, t, v.s + 2)
            },
        },
    decreases src.len() - w.s,
{
    let s_limit = src.len() - INPUT_MARGIN;
    let next_s = w.s + (w.s - w.next_emit) / 128 + 1;
    if next_s <= s_limit {
        let x = load_store::bytes_at(src, w.s);
        lemma_slots(big, x);
        lemma_slots(big, x / 0x100);
        let long = t.long[encode_l2::long_slot(big, x)];
        let short = t.short[encode_l2::short_slot(big, x)];
        let now = Tables {
            long: t.long.update(encode_l2::long_slot(big, x), w.s),
            short: t.short.update(encode_l2::short_slot(big, x), w.s),
        };
        assert(tables_ok(big, now, w.s + 1));
        if w.s - long < MAX_COPY3_OFFSET - 1 && load_store::agree8(src, w.s, long) {
            assert(load_store::agree4(src, w.s, long));
        } else if w.s >= w.repeat && load_store::agree4(src, w.s + 1, w.s + 1 - w.repeat) {
            lemma_repeat_match(src, limit, w);
            if let Some((base, v)) = encode_l2::repeat_match(src, limit, w) {
                if v.s < s_limit {
                    lemma_with_ends(big, src, now, base + 1, v.s - 2, v.s);
                    lemma_search(
                        big,
                        src,
                        limit,
                        v,
                        encode_l2::with_repeat(big, src, now, base, v.s),
                    );
                }
            }
        } else if w.s - long < MAX_COPY3_OFFSET && load_store::agree4(src, w.s, long) {
        } else if w.s - short < MAX_COPY3_OFFSET && load_store::agree4(src, w.s, short) {
            let later = Tables {
                long: now.long.update(encode_l2::long_slot(big, x / 0x100), w.s + 1),
                ..now
            };
            assert(tables_ok(big, later, w.s + 2));
        } else {
            lemma_search(big, src, limit, Work { s: next_s, ..w }, now);
        }
    }
}

proof fn lemma_better(big: bool, src: Seq<u8>, limit: int, w: Work, t: Tables)
    requires
        faithful::work_ok(src, w),
        1 <= w.s,
        w.s + INPUT_MARGIN <= src.len(),
        tables_ok(big, t, w.s),
    ensures
        encode_l2::better(big, src, limit, w, t) matches Some(v) ==> faithful::work_ok(src, v),
    decreases src.len() - w.s,
{
    reveal(encode_l2::round);
    let s_limit = src.len() - INPUT_MARGIN;
    lemma_search(big, src, limit, w, t);
    if let Search::Match(cand, next_s, v, t) = encode_l2::search(big, src, limit, w, t) {
        lemma_found_match(src, limit, v, cand);
        match encode_l2::found_match(src, limit, v, cand) {
            Written::GiveUp => {},
            Written::Skip => {
                let u = Work { s: next_s + 1, ..v };
                if u.s < s_limit && w.s < u.s {
                    lemma_better(big, src, limit, u, t);
                }
            },
            Written::Wrote(base, u) => {
                if u.s < s_limit && u.body.len() <= limit && w.s < u.s {
                    lemma_with_match(big, src, t, base, u.s);
                    lemma_better(
                        big,
                        src,
                        limit,
                        u,
                        encode_l2::with_match(big, src, t, base, u.s),
                    );
                }
            },
        }
    }
}

/// What the balanced encoder writes decodes to the input.
pub proof fn law_body_l2(src: Seq<u8>)
    requires
        src.len() <= MAX_BLOCK_SIZE,
    ensures
        encode_l2::body_of(src) matches Some(body) ==> ops::decoded(body) == Some(src)
            && body.len() > 0,
{
    if src.len() >= MIN_NON_LITERAL_BLOCK_SIZE {
        let big = src.len() > 65536;
        let limit = encode::limit_of(src.len() as int);
        let t = encode_l2::empty_tables(big);
        faithful::lemma_start(src);
        lemma_better(big, src, limit, encode::start_work(), t);
        if let Some(w) = encode_l2::better(big, src, limit, encode::start_work(), t) {
            faithful::lemma_finished(src, limit, w);
        }
    }
}

} // verus!
