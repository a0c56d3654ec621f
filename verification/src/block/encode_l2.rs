//! The balanced encoder: a table of long and a table of short hashes.
use crate::block::emit;
use crate::block::encode;
use crate::block::encode::{
    finish, put_copy, put_copy_lits2, put_copy_lits3, put_literal, put_repeat, Cursor, Found, Work,
};
use crate::block::format::{
    INPUT_MARGIN, MAX_BLOCK_SIZE, MAX_COPY2_LITS, MAX_COPY2_OFFSET, MAX_COPY3_LITS,
    MAX_COPY3_OFFSET, MIN_COPY2_OFFSET, MIN_NON_LITERAL_BLOCK_SIZE,
};
use crate::block::hash;
use crate::block::hash::{hash4, hash6, hash7};
use crate::block::load_store;
use crate::block::load_store::{load64, same4, same8};
use crate::block::match_len;
use crate::block::match_len::{extend_back, match_len};
use vstd::arithmetic::power2;
use vstd::prelude::*;

verus! {

pub const L_TABLE_BITS_BIG: u32 = 17;

pub const L_TABLE_SIZE_BIG: usize = 131_072;

pub const S_TABLE_BITS_BIG: u32 = 14;

pub const S_TABLE_SIZE_BIG: usize = 16_384;

pub const L_TABLE_BITS_64K: u32 = 15;

pub const L_TABLE_SIZE_64K: usize = 32_768;

pub const S_TABLE_BITS_64K: u32 = 12;

pub const S_TABLE_SIZE_64K: usize = 4_096;

/// Where a position is recorded by many of the bytes at it: by seven of them in a
/// large input, by six in one of up to 64 KiB.
#[verifier::opaque]
pub open spec fn long_slot(big: bool, x: u64) -> int {
    if big {
        hash::spec_hash(x, 0x100, hash::PRIME7, L_TABLE_BITS_BIG)
    } else {
        hash::spec_hash(x, 0x1_0000, hash::PRIME6, L_TABLE_BITS_64K)
    }
}

/// Where a position is recorded by four of the bytes at it.
#[verifier::opaque]
pub open spec fn short_slot(big: bool, x: u64) -> int {
    hash::spec_hash4(
        x,
        if big {
            S_TABLE_BITS_BIG
        } else {
            S_TABLE_BITS_64K
        },
    )
}

/// The positions recorded.
pub struct Tables {
    /// By many bytes.
    pub long: Seq<int>,
    /// By four bytes.
    pub short: Seq<int>,
}

/// The positions in two tables.
pub open spec fn tables32(long: Seq<u32>, short: Seq<u32>) -> Tables {
    Tables { long: encode::positions32(long), short: encode::positions32(short) }
}

/// The positions in two tables.
pub open spec fn tables16(long: Seq<u16>, short: Seq<u16>) -> Tables {
    Tables { long: encode::positions16(long), short: encode::positions16(short) }
}

/// Tables in which nothing has been recorded.
pub open spec fn empty_tables(big: bool) -> Tables {
    if big {
        Tables {
            long: encode::empty_table(L_TABLE_SIZE_BIG as int),
            short: encode::empty_table(S_TABLE_SIZE_BIG as int),
        }
    } else {
        Tables {
            long: encode::empty_table(L_TABLE_SIZE_64K as int),
            short: encode::empty_table(S_TABLE_SIZE_64K as int),
        }
    }
}

/// `i` has been recorded by its long hash.
pub open spec fn with_long(big: bool, src: Seq<u8>, t: Tables, i: int) -> Tables {
    let x = load_store::bytes_at(src, i);
    Tables { long: t.long.update(long_slot(big, x), i), ..t }
}

/// `i` has been recorded by its long hash and `i + 1` by its short one.
pub open spec fn with_both(big: bool, src: Seq<u8>, t: Tables, i: int) -> Tables {
    let x = load_store::bytes_at(src, i);
    Tables {
        long: t.long.update(long_slot(big, x), i),
        short: t.short.update(short_slot(big, x / 0x100), i + 1),
    }
}

/// Every other position from `a` up and from `b` down has been recorded until they
/// meet.
pub open spec fn with_ends(big: bool, src: Seq<u8>, t: Tables, a: int, b: int) -> Tables
    decreases (if a < b { b - a } else { 0 }),
{
    if a < b {
        with_ends(big, src, with_both(big, src, with_both(big, src, t, a), b), a + 2, b - 2)
    } else {
        t
    }
}

/// Every other position from `a` on, and as many from `b` up to `end`, have been
/// recorded by their long hashes.
pub open spec fn with_halves(
    big: bool,
    src: Seq<u8>,
    t: Tables,
    a: int,
    b: int,
    end: int,
) -> Tables
    decreases (if b < end { end - b } else { 0 }),
{
    if b < end {
        with_halves(
            big,
            src,
            with_long(big, src, with_long(big, src, t, a), b),
            a + 2,
            b + 2,
            end,
        )
    } else {
        t
    }
}

/// Positions of the repeat at `base..s` have been recorded.
pub open spec fn with_repeat(big: bool, src: Seq<u8>, t: Tables, base: int, s: int) -> Tables {
    with_ends(big, src, t, base + 1, s - 2)
}

/// Positions of the match at `base..s` have been recorded.
pub open spec fn with_match(big: bool, src: Seq<u8>, t: Tables, base: int, s: int) -> Tables {
    with_halves(
        big,
        src,
        with_both(big, src, with_both(big, src, t, base + 1), s - 2),
        base + 2,
        (base + s) / 2,
        s - 3,
    )
}

/// The match, with the offset of the last copy, that was found one byte behind
/// the cursor has been written; with it comes where its bytes start. Nothing where
/// the output grows too large.
pub open spec fn repeat_match(src: Seq<u8>, limit: int, w: Work) -> Option<(int, Work)> {
    let at = w.s + 1;
    let base = at - match_len::common_back(src, at, at - w.repeat, w.next_emit);
    let end = at + 4 + match_len::common_len(src, at + 4, at + 4 - w.repeat);
    if w.body.len() + (base - w.next_emit) > limit {
        None
    } else {
        Some(
            (
                base,
                Work {
                    body: w.body + encode::literal(src, w.next_emit, base) + encode::repeated(
                        end - base,
                    ),
                    s: end,
                    next_emit: end,
                    repeat: w.repeat,
                },
            ),
        )
    }
}

/// What becomes of a match.
pub enum Written {
    /// It is written; its bytes start here.
    Wrote(int, Work),
    /// It is too short for its distance.
    Skip,
    /// The output grew too large.
    GiveUp,
}

/// What becomes of the match of the cursor's position with `cand`, extended both
/// ways, with the literals before it.
pub open spec fn found_match(src: Seq<u8>, limit: int, w: Work, cand: int) -> Written {
    let offset = w.s - cand;
    let base = w.s - match_len::common_back(src, w.s, cand, w.next_emit);
    let length = 4 + match_len::common_len(src, base + 4, base + 4 - offset);
    let lits = base - w.next_emit;
    let most: int = if offset > MAX_COPY2_OFFSET {
        MAX_COPY3_LITS as int
    } else if offset >= MIN_COPY2_OFFSET {
        MAX_COPY2_LITS as int
    } else {
        0
    };
    let body = if lits == 0 {
        w.body + encode::copied(offset, length)
    } else if lits > most {
        w.body + encode::literal(src, w.next_emit, base) + encode::copied(offset, length)
    } else if offset <= MAX_COPY2_OFFSET {
        w.body + encode::fused2(src, w.next_emit, base, offset, length)
    } else {
        w.body + encode::fused3(src, w.next_emit, base, offset, length)
    };
    if w.body.len() + lits > limit {
        Written::GiveUp
    } else if offset > 65535 && length <= 4 && w.repeat != offset {
        Written::Skip
    } else {
        let end = base + length;
        Written::Wrote(base, Work { body, s: end, next_emit: end, repeat: offset })
    }
}

/// What a search for a match comes to.
pub enum Search {
    /// The position now looked at matches this earlier one; where the match is not
    /// used, the search goes on behind the second position.
    Match(int, int, Work, Tables),
    /// The end of the input is near.
    Finished(Work),
    /// The output grew too large.
    GiveUp,
}

/// The search for a match from the cursor on: first a long one, then one with the
/// offset of the last copy one byte behind, then a short one, for which a long one
/// a byte behind is taken if there is one. Matches with the offset of the last copy
/// are written on the way.
pub open spec fn search(big: bool, src: Seq<u8>, limit: int, w: Work, t: Tables) -> Search
    decreases src.len() - w.s,
    when w.next_emit <= w.s
{
    let s_limit = src.len() - INPUT_MARGIN;
    let next_s = w.s + (w.s - w.next_emit) / 128 + 1;
    if next_s > s_limit {
        Search::Finished(w)
    } else {
        let x = load_store::bytes_at(src, w.s);
        let long = t.long[long_slot(big, x)];
        let short = t.short[short_slot(big, x)];
        let now = Tables {
            long: t.long.update(long_slot(big, x), w.s),
            short: t.short.update(short_slot(big, x), w.s),
        };
        if w.s - long < MAX_COPY3_OFFSET - 1 && load_store::agree8(src, w.s, long) {
            Search::Match(long, next_s, w, now)
        } else if w.s >= w.repeat && load_store::agree4(src, w.s + 1, w.s + 1 - w.repeat) {
            proof {
                match_len::lemma_common_words(src, w.s + 5, w.s + 5 - w.repeat);
            }
            match repeat_match(src, limit, w) {
                None => Search::GiveUp,
                Some((base, v)) => if v.s >= s_limit {
                    Search::Finished(v)
                } else {
                    search(big, src, limit, v, with_repeat(big, src, now, base, v.s))
                },
            }
        } else if w.s - long < MAX_COPY3_OFFSET && load_store::agree4(src, w.s, long) {
            Search::Match(long, next_s, w, now)
        } else if w.s - short < MAX_COPY3_OFFSET && load_store::agree4(src, w.s, short) {
            let behind = now.long[long_slot(big, x / 0x100)];
            let later = Tables {
                long: now.long.update(long_slot(big, x / 0x100), w.s + 1),
                ..now
            };
            if w.s - behind < MAX_COPY3_OFFSET - 1 && load_store::agree4(src, w.s + 1, behind) {
                Search::Match(behind, next_s, Work { s: w.s + 1, ..w }, later)
            } else {
                Search::Match(short, next_s, w, later)
            }
        } else {
            search(big, src, limit, Work { s: next_s, ..w }, now)
        }
    }
}

/// One search, and what becomes of the match it finds. With the result comes
/// whether the end of the input is near; nothing where the output grows too large.
#[verifier::opaque]
pub open spec fn round(
    big: bool,
    src: Seq<u8>,
    limit: int,
    w: Work,
    t: Tables,
) -> Option<(bool, Work, Tables)> {
    let s_limit = src.len() - INPUT_MARGIN;
    match search(big, src, limit, w, t) {
        Search::GiveUp => None,
        Search::Finished(v) => Some((true, v, t)),
        Search::Match(cand, next_s, v, t) => match found_match(src, limit, v, cand) {
            Written::GiveUp => None,
            Written::Skip => Some((next_s + 1 >= s_limit, Work { s: next_s + 1, ..v }, t)),
            Written::Wrote(base, v) => if v.s >= s_limit {
                Some((true, v, t))
            } else if v.body.len() > limit {
                None
            } else {
                Some((false, v, with_match(big, src, t, base, v.s)))
            },
        },
    }
}

/// Matches are looked for and written up to the end of the input; nothing where
/// the output grows too large. Every round moves the cursor on.
pub open spec fn better(big: bool, src: Seq<u8>, limit: int, w: Work, t: Tables) -> Option<Work>
    decreases src.len() - w.s,
{
    match round(big, src, limit, w, t) {
        None => None,
        Some((done, v, t)) => if done {
            Some(v)
        } else if w.s < v.s <= src.len() {
            better(big, src, limit, v, t)
        } else {
            None
        },
    }
}

/// The body of `src` by the balanced encoder; nothing where it does not get
/// smaller.
pub open spec fn body_of(src: Seq<u8>) -> Option<Seq<u8>> {
    if src.len() < MIN_NON_LITERAL_BLOCK_SIZE {
        None
    } else {
        let big = src.len() > 65536;
        let limit = encode::limit_of(src.len() as int);
        match better(big, src, limit, encode::start_work(), empty_tables(big)) {
            None => None,
            Some(w) => encode::finished(src, limit, w),
        }
    }
}

/// Where a position of a large input is recorded by many bytes.
fn long_slot_big(x: u64) -> (r: usize)
    ensures
        r == long_slot(true, x),
        r < L_TABLE_SIZE_BIG,
{
    proof {
        power2::lemma2_to64();
        reveal(long_slot);
    }
    hash7(x, L_TABLE_BITS_BIG) as usize
}

/// Where a position of a large input is recorded by four bytes.
fn short_slot_big(x: u64) -> (r: usize)
    ensures
        r == short_slot(true, x),
        r < S_TABLE_SIZE_BIG,
{
    proof {
        power2::lemma2_to64();
        reveal(short_slot);
    }
    hash4(x, S_TABLE_BITS_BIG) as usize
}

/// Where a position of an input of up to 64 KiB is recorded by many bytes.
fn long_slot_64k(x: u64) -> (r: usize)
    ensures
        r == long_slot(false, x),
        r < L_TABLE_SIZE_64K,
{
    proof {
        power2::lemma2_to64();
        reveal(long_slot);
    }
    hash6(x, L_TABLE_BITS_64K) as usize
}

/// Where a position of an input of up to 64 KiB is recorded by four bytes.
fn short_slot_64k(x: u64) -> (r: usize)
    ensures
        r == short_slot(false, x),
        r < S_TABLE_SIZE_64K,
{
    proof {
        power2::lemma2_to64();
        reveal(short_slot);
    }
    hash4(x, S_TABLE_BITS_64K) as usize
}

/// What became of a match.
enum Put {
    /// It was written; its bytes start here.
    Wrote(usize),
    /// It is too short for its distance.
    Skip,
    /// The output grew too large.
    GiveUp,
}

/// Writes the match, with the offset of the last copy, that was found one byte
/// behind the cursor; returns where its bytes start, or `None` where the output
/// grows too large.
fn put_repeat_match(
    dst: &mut Vec<u8>,
    start: usize,
    src: &[u8],
    cur: &mut Cursor,
    dst_limit: usize,
) -> (r: Option<usize>)
    requires
        encode::cursor_ok(old(dst)@, start as int, src@, *old(cur)),
        old(cur).s + 5 <= src.len(),
        old(cur).repeat <= old(cur).s,
        forall|k: int|
            0 <= k < 4 ==> src@[old(cur).s + 1 + k] == #[trigger] src@[old(cur).s + 1
                - old(cur).repeat + k],
        old(dst).len() - start <= dst_limit + 40,
        dst_limit <= src.len(),
    ensures
        start <= final(dst).len(),
        final(dst)@.take(start as int) == old(dst)@.take(start as int),
        r matches Some(base) ==> {
            &&& encode::cursor_ok(final(dst)@, start as int, src@, *final(cur))
            &&& final(cur).next_emit == final(cur).s
            &&& final(cur).repeat == old(cur).repeat
            &&& final(cur).s >= old(cur).s + 5
            &&& base <= old(cur).s + 1
            &&& final(dst).len() - start <= dst_limit + 8
        },
        repeat_match(
            src@,
            dst_limit as int,
            encode::work(old(dst)@, start as int, *old(cur)),
        ) == (match r {
            None => None,
            Some(base) => Some(
                (base as int, encode::work(final(dst)@, start as int, *final(cur))),
            ),
        }),
{
    let s: usize = cur.s;
    let repeat: usize = cur.repeat;
    let next_emit: usize = cur.next_emit;
    let k: usize = extend_back(src, s + 1, s + 1 - repeat, next_emit);
    let base: usize = s + 1 - k;
    if (dst.len() - start) + (base - next_emit) > dst_limit {
        return None;
    }
    put_literal(dst, start, src, next_emit, base, repeat);
    let n: usize = match_len(src, s + 5, s + 5 - repeat);
    let end: usize = s + 5 + n;
    proof {
        assert forall|i: int| base <= i < end implies #[trigger] src@[i] == src@[i - repeat] by {
            if s + 1 <= i < s + 5 {
                let k = i - (s + 1);
                assert(src@[s + 1 + k] == src@[s + 1 - repeat + k]);
            }
        }
        assert(emit::is_match(src@, base as int, repeat as int, end - base));
    }
    put_repeat(dst, start, src, base, repeat, end - base);
    cur.s = end;
    cur.next_emit = end;
    Some(base)
}

/// Writes the match of the cursor's position with `cand`, extended both ways,
/// and the literals before it. A far match of four bytes is skipped.
fn put_found_match(
    dst: &mut Vec<u8>,
    start: usize,
    src: &[u8],
    cur: &mut Cursor,
    cand: usize,
    dst_limit: usize,
) -> (r: Put)
    requires
        encode::cursor_ok(old(dst)@, start as int, src@, *old(cur)),
        old(cur).s + 4 <= src.len(),
        cand < old(cur).s,
        old(cur).s - cand <= MAX_COPY3_OFFSET,
        forall|k: int| 0 <= k < 4 ==> src@[old(cur).s + k] == #[trigger] src@[cand + k],
        old(dst).len() - start <= dst_limit + 40,
        dst_limit <= src.len(),
    ensures
        start <= final(dst).len(),
        final(dst)@.take(start as int) == old(dst)@.take(start as int),
        match r {
            Put::Wrote(base) => {
                &&& encode::cursor_ok(final(dst)@, start as int, src@, *final(cur))
                &&& final(cur).next_emit == final(cur).s
                &&& final(cur).s >= old(cur).s + 4
                &&& base + 4 <= final(cur).s
                &&& final(dst).len() - start <= dst_limit + 20
            },
            Put::Skip => final(dst)@ == old(dst)@ && *final(cur) == *old(cur),
            Put::GiveUp => true,
        },
        encode::constant_start(old(dst)@, start as int, src@, *old(cur)) && dst_limit >= 1 ==> r
            is Wrote && encode::constant_end(final(dst)@, start as int, src@, *final(cur)),
        found_match(
            src@,
            dst_limit as int,
            encode::work(old(dst)@, start as int, *old(cur)),
            cand as int,
        ) == (match r {
            Put::Wrote(base) => Written::Wrote(
                base as int,
                encode::work(final(dst)@, start as int, *final(cur)),
            ),
            Put::Skip => Written::Skip,
            Put::GiveUp => Written::GiveUp,
        }),
{
    let next_emit: usize = cur.next_emit;
    let offset: usize = cur.s - cand;
    let k: usize = extend_back(src, cur.s, cand, next_emit);
    let base: usize = cur.s - k;
    if (dst.len() - start) + (base - next_emit) > dst_limit {
        return Put::GiveUp;
    }
    let n: usize = match_len(src, base + 4, base + 4 - offset);
    let end: usize = base + 4 + n;
    let length: usize = end - base;
    proof {
        let s0 = cur.s as int;
        assert forall|i: int| s0 <= i < s0 + 4 implies #[trigger] src@[i] == src@[i - offset] by {
            let k = i - s0;
            assert(src@[s0 + k] == src@[cand + k]);
        }
        assert forall|i: int| base <= i < end implies #[trigger] src@[i] == src@[i - offset] by {}
        assert(emit::is_match(src@, base as int, offset as int, length as int));
        if end < s0 + 4 {
            assert(src@[end as int] == src@[end - offset]);
        }
        if encode::is_constant(src@) && end < src.len() {
            assert(src@[end as int] == src@[0]);
            assert(src@[end - offset] == src@[0]);
        }
    }
    if offset > 65535 && length <= 4 && cur.repeat != offset {
        return Put::Skip;
    }
    let lits: usize = base - next_emit;
    if lits > 0 {
        if offset <= MAX_COPY2_OFFSET {
            if lits > MAX_COPY2_LITS || offset < MIN_COPY2_OFFSET {
                put_literal(dst, start, src, next_emit, base, cur.repeat);
                put_copy(dst, start, src, base, cur.repeat, offset, length);
            } else {
                put_copy_lits2(dst, start, src, next_emit, base, cur.repeat, offset, length);
            }
        } else if lits > MAX_COPY3_LITS {
            put_literal(dst, start, src, next_emit, base, cur.repeat);
            put_copy(dst, start, src, base, cur.repeat, offset, length);
        } else {
            put_copy_lits3(dst, start, src, next_emit, base, cur.repeat, offset, length);
        }
    } else {
        put_copy(dst, start, src, base, cur.repeat, offset, length);
    }
    cur.s = end;
    cur.next_emit = end;
    cur.repeat = offset;
    Put::Wrote(base)
}

/// Records `i` by its long hash and `i + 1` by its short one.
fn index_both_big(src: &[u8], l_table: &mut Vec<u32>, s_table: &mut Vec<u32>, i: usize)
    requires
        i + 8 <= src.len() <= MAX_BLOCK_SIZE,
        old(l_table).len() == L_TABLE_SIZE_BIG,
        old(s_table).len() == S_TABLE_SIZE_BIG,
    ensures
        final(l_table).len() == L_TABLE_SIZE_BIG,
        final(s_table).len() == S_TABLE_SIZE_BIG,
        forall|b: int|
            b > i + 1 && encode::below32(old(l_table)@, b) ==> #[trigger] encode::below32(
                final(l_table)@,
                b,
            ),
        forall|b: int|
            b > i + 1 && encode::below32(old(s_table)@, b) ==> #[trigger] encode::below32(
                final(s_table)@,
                b,
            ),
        tables32(final(l_table)@, final(s_table)@) == with_both(
            true,
            src@,
            tables32(old(l_table)@, old(s_table)@),
            i as int,
        ),
{
    let cv: u64 = load64(src, i);
    l_table[long_slot_big(cv)] = i as u32;
    s_table[short_slot_big(cv / 0x100)] = (i + 1) as u32;
    proof {
        let t = with_both(true, src@, tables32(old(l_table)@, old(s_table)@), i as int);
        assert(encode::positions32(l_table@) =~= t.long);
        assert(encode::positions32(s_table@) =~= t.short);
    }
}

/// Records `i` by its long hash.
fn index_long_big(src: &[u8], l_table: &mut Vec<u32>, i: usize)
    requires
        i + 8 <= src.len() <= MAX_BLOCK_SIZE,
        old(l_table).len() == L_TABLE_SIZE_BIG,
    ensures
        final(l_table).len() == L_TABLE_SIZE_BIG,
        forall|b: int|
            b > i && encode::below32(old(l_table)@, b) ==> #[trigger] encode::below32(
                final(l_table)@,
                b,
            ),
        encode::positions32(final(l_table)@) == encode::positions32(old(l_table)@).update(
            long_slot(true, load_store::bytes_at(src@, i as int)),
            i as int,
        ),
{
    l_table[long_slot_big(load64(src, i))] = i as u32;
    assert(encode::positions32(l_table@) =~= encode::positions32(old(l_table)@).update(
        long_slot(true, load_store::bytes_at(src@, i as int)),
        i as int,
    ));
}

/// Records every other position of the repeat at `base..s`, from both ends.
fn index_repeat_big(
    src: &[u8],
    l_table: &mut Vec<u32>,
    s_table: &mut Vec<u32>,
    base: usize,
    s: usize,
)
    requires
        base < s,
        s + INPUT_MARGIN <= src.len() <= MAX_BLOCK_SIZE,
        old(l_table).len() == L_TABLE_SIZE_BIG,
        old(s_table).len() == S_TABLE_SIZE_BIG,
        encode::below32(old(l_table)@, s as int),
        encode::below32(old(s_table)@, s as int),
    ensures
        final(l_table).len() == L_TABLE_SIZE_BIG,
        final(s_table).len() == S_TABLE_SIZE_BIG,
        encode::below32(final(l_table)@, s as int),
        encode::below32(final(s_table)@, s as int),
        tables32(final(l_table)@, final(s_table)@) == with_repeat(
            true,
            src@,
            tables32(old(l_table)@, old(s_table)@),
            base as int,
            s as int,
        ),
{
    let mut idx0: usize = base + 1;
    let mut idx1: usize = if s >= 2 {
        s - 2
    } else {
        0
    };
    while idx0 < idx1
        invariant
            idx1 <= s - 2 || idx1 == 0,
            idx0 <= s + 2,
            s + INPUT_MARGIN <= src.len() <= MAX_BLOCK_SIZE,
            l_table.len() == L_TABLE_SIZE_BIG,
            s_table.len() == S_TABLE_SIZE_BIG,
            encode::below32(l_table@, s as int),
            encode::below32(s_table@, s as int),
            with_ends(true, src@, tables32(l_table@, s_table@), idx0 as int, idx1 as int)
                == with_repeat(
                true,
                src@,
                tables32(old(l_table)@, old(s_table)@),
                base as int,
                s as int,
            ),
        decreases s + 4 - idx0,
    {
        index_both_big(src, l_table, s_table, idx0);
        index_both_big(src, l_table, s_table, idx1);
        proof {
            reveal_with_fuel(with_ends, 2);
        }
        idx0 = idx0 + 2;
        idx1 = if idx1 >= 2 {
            idx1 - 2
        } else {
            0
        };
    }
}

/// Records positions of the match at `base..s`: those next to its ends by both
/// hashes, every other one in between by the long hash.
fn index_match_big(
    src: &[u8],
    l_table: &mut Vec<u32>,
    s_table: &mut Vec<u32>,
    base: usize,
    s: usize,
)
    requires
        base + 4 <= s,
        s + INPUT_MARGIN <= src.len() <= MAX_BLOCK_SIZE,
        old(l_table).len() == L_TABLE_SIZE_BIG,
        old(s_table).len() == S_TABLE_SIZE_BIG,
        encode::below32(old(l_table)@, s as int),
        encode::below32(old(s_table)@, s as int),
    ensures
        final(l_table).len() == L_TABLE_SIZE_BIG,
        final(s_table).len() == S_TABLE_SIZE_BIG,
        encode::below32(final(l_table)@, s as int),
        encode::below32(final(s_table)@, s as int),
        tables32(final(l_table)@, final(s_table)@) == with_match(
            true,
            src@,
            tables32(old(l_table)@, old(s_table)@),
            base as int,
            s as int,
        ),
{
    let mut idx0: usize = base + 1;
    let mut idx1: usize = s - 2;
    index_both_big(src, l_table, s_table, idx0);
    index_both_big(src, l_table, s_table, idx1);
    idx0 = idx0 + 1;
    idx1 = idx1 - 1;
    let mut idx2: usize = (idx0 + idx1 + 1) / 2;
    while idx2 < idx1
        invariant
            idx1 < s,
            idx0 <= idx2 || idx2 >= idx1,
            idx2 <= s + 2,
            s + INPUT_MARGIN <= src.len() <= MAX_BLOCK_SIZE,
            l_table.len() == L_TABLE_SIZE_BIG,
            s_table.len() == S_TABLE_SIZE_BIG,
            encode::below32(l_table@, s as int),
            encode::below32(s_table@, s as int),
            with_halves(
                true,
                src@,
                tables32(l_table@, s_table@),
                idx0 as int,
                idx2 as int,
                idx1 as int,
            ) == with_match(
                true,
                src@,
                tables32(old(l_table)@, old(s_table)@),
                base as int,
                s as int,
            ),
        decreases s + 4 - idx2,
    {
        index_long_big(src, l_table, idx0);
        index_long_big(src, l_table, idx2);
        idx0 = idx0 + 2;
        idx2 = idx2 + 2;
    }
}

/// Looks for a match from the cursor on; with it comes the position to go on
/// from where it is not used. Matches with the offset of the last copy are
/// written on the way.
fn search_big(
    dst: &mut Vec<u8>,
    start: usize,
    src: &[u8],
    cur: &mut Cursor,
    l_table: &mut Vec<u32>,
    s_table: &mut Vec<u32>,
    dst_limit: usize,
) -> (r: (Found, usize))
    requires
        encode::cursor_ok(old(dst)@, start as int, src@, *old(cur)),
        1 <= old(cur).s,
        old(cur).s + INPUT_MARGIN <= src.len(),
        old(dst).len() - start <= dst_limit + 8,
        1 <= dst_limit <= src.len(),
        old(l_table).len() == L_TABLE_SIZE_BIG,
        old(s_table).len() == S_TABLE_SIZE_BIG,
        encode::below32(old(l_table)@, old(cur).s as int),
        encode::below32(old(s_table)@, old(cur).s as int),
    ensures
        start <= final(dst).len(),
        final(dst)@.take(start as int) == old(dst)@.take(start as int),
        final(l_table).len() == L_TABLE_SIZE_BIG,
        final(s_table).len() == S_TABLE_SIZE_BIG,
        match r.0 {
            Found::Match(cand) => {
                &&& encode::cursor_ok(final(dst)@, start as int, src@, *final(cur))
                &&& old(cur).s <= final(cur).s
                &&& final(cur).s <= r.1
                &&& r.1 + INPUT_MARGIN <= src.len()
                &&& cand < final(cur).s
                &&& final(cur).s - cand <= MAX_COPY3_OFFSET
                &&& forall|k: int|
                    0 <= k < 4 ==> src@[final(cur).s + k] == #[trigger] src@[cand + k]
                &&& final(dst).len() - start <= dst_limit + 8
                &&& encode::below32(final(l_table)@, r.1 + 1)
                &&& encode::below32(final(s_table)@, r.1 + 1)
                &&& encode::below32(final(l_table)@, final(cur).s + 2)
                &&& encode::below32(final(s_table)@, final(cur).s + 2)
            },
            Found::Finished => {
                &&& encode::cursor_ok(final(dst)@, start as int, src@, *final(cur))
                &&& final(dst).len() - start <= dst_limit + 8
            },
            Found::GiveUp => true,
        },
        encode::constant_start(old(dst)@, start as int, src@, *old(cur)) && (forall|i: int|
            0 <= i < L_TABLE_SIZE_BIG ==> old(l_table)@[i] == 0) ==> r.0 is Match && final(dst)@
            == old(dst)@ && *final(cur) == *old(cur),
        search(
            true,
            src@,
            dst_limit as int,
            encode::work(old(dst)@, start as int, *old(cur)),
            tables32(old(l_table)@, old(s_table)@),
        ) == (match r.0 {
            Found::Match(cand) => Search::Match(
                cand as int,
                r.1 as int,
                encode::work(final(dst)@, start as int, *final(cur)),
                tables32(final(l_table)@, final(s_table)@),
            ),
            Found::Finished => Search::Finished(
                encode::work(final(dst)@, start as int, *final(cur)),
            ),
            Found::GiveUp => Search::GiveUp,
        }),
{
    let s_limit: usize = src.len() - INPUT_MARGIN;
    loop
        invariant
            encode::cursor_ok(dst@, start as int, src@, *cur),
            dst@.take(start as int) == old(dst)@.take(start as int),
            1 <= cur.s,
            old(cur).s <= cur.s,
            s_limit + INPUT_MARGIN == src.len(),
            cur.s <= s_limit,
            dst.len() - start <= dst_limit + 8,
            1 <= dst_limit <= src.len(),
            l_table.len() == L_TABLE_SIZE_BIG,
            s_table.len() == S_TABLE_SIZE_BIG,
            encode::below32(l_table@, cur.s as int),
            encode::below32(s_table@, cur.s as int),
            encode::constant_start(old(dst)@, start as int, src@, *old(cur)) && (forall|i: int|
                0 <= i < L_TABLE_SIZE_BIG ==> old(l_table)@[i] == 0) ==> dst@ == old(dst)@ && *cur
                == *old(cur) && l_table@ == old(l_table)@,
            search(
                true,
                src@,
                dst_limit as int,
                encode::work(dst@, start as int, *cur),
                tables32(l_table@, s_table@),
            ) == search(
                true,
                src@,
                dst_limit as int,
                encode::work(old(dst)@, start as int, *old(cur)),
                tables32(old(l_table)@, old(s_table)@),
            ),
        decreases src.len() - cur.s,
    {
        let s: usize = cur.s;
        let next_s: usize = s + (s - cur.next_emit) / 128 + 1;
        if next_s > s_limit {
            return (Found::Finished, next_s);
        }
        let cv: u64 = load64(src, s);
        let hash_l: usize = long_slot_big(cv);
        let hash_s: usize = short_slot_big(cv);
        let ghost before = tables32(l_table@, s_table@);
        let cand_l: usize = l_table[hash_l] as usize;
        let cand_s: usize = s_table[hash_s] as usize;
        l_table[hash_l] = s as u32;
        s_table[hash_s] = s as u32;
        assert(encode::below32(l_table@, s + 1));
        assert(encode::below32(s_table@, s + 1));
        assert(encode::positions32(l_table@) =~= before.long.update(hash_l as int, s as int));
        assert(encode::positions32(s_table@) =~= before.short.update(hash_s as int, s as int));
        proof {
            if encode::is_constant(src@) {
                assert forall|k: int| 0 <= k < 8 implies src@[s + k] == #[trigger] src@[cand_l
                    + k] by {
                    assert(src@[s + k] == src@[0]);
                    assert(src@[cand_l + k] == src@[0]);
                }
            }
        }
        if s - cand_l < MAX_COPY3_OFFSET - 1 && same8(src, s, cand_l) {
            assert forall|k: int| 0 <= k < 4 implies src@[s + k] == #[trigger] src@[cand_l + k] by {}
            return (Found::Match(cand_l), next_s);
        }
        if s >= cur.repeat && same4(src, s + 1, s + 1 - cur.repeat) {
            match put_repeat_match(dst, start, src, cur, dst_limit) {
                None => {
                    return (Found::GiveUp, next_s);
                },
                Some(base) => {
                    if cur.s >= s_limit {
                        return (Found::Finished, next_s);
                    }
                    index_repeat_big(src, l_table, s_table, base, cur.s);
                },
            }
            continue;
        }
        if s - cand_l < MAX_COPY3_OFFSET && same4(src, s, cand_l) {
            return (Found::Match(cand_l), next_s);
        }
        if s - cand_s < MAX_COPY3_OFFSET && same4(src, s, cand_s) {
            let hash_l2: usize = long_slot_big(cv / 0x100);
            let cand_l2: usize = l_table[hash_l2] as usize;
            l_table[hash_l2] = (s + 1) as u32;
            assert(encode::below32(l_table@, s + 2));
            assert(encode::positions32(l_table@) =~= before.long.update(
                hash_l as int,
                s as int,
            ).update(hash_l2 as int, s + 1));
            if s - cand_l2 < MAX_COPY3_OFFSET - 1 && same4(src, s + 1, cand_l2) {
                cur.s = s + 1;
                return (Found::Match(cand_l2), next_s);
            }
            return (Found::Match(cand_s), next_s);
        }
        cur.s = next_s;
    }
}

/// Encodes an input of more than 64 KiB with empty tables; appends the block
/// body to `dst` and returns its length, or zero where the input does not get
/// smaller.
fn encode_better_inner_big(
    dst: &mut Vec<u8>,
    src: &[u8],
    dst_limit: usize,
    l_table: &mut Vec<u32>,
    s_table: &mut Vec<u32>,
) -> (n: usize)
    requires
        65536 < src.len() <= MAX_BLOCK_SIZE,
        dst_limit == encode::limit_of(src.len() as int),
        old(l_table).len() == L_TABLE_SIZE_BIG,
        old(s_table).len() == S_TABLE_SIZE_BIG,
        forall|i: int| 0 <= i < L_TABLE_SIZE_BIG ==> old(l_table)@[i] == 0,
        forall|i: int| 0 <= i < S_TABLE_SIZE_BIG ==> old(s_table)@[i] == 0,
    ensures
        encode::encoded_or_not(old(dst)@, final(dst)@, src@, n as int),
        encode::is_outcome(old(dst)@, final(dst)@, n as int, body_of(src@)),
{
    let start: usize = dst.len();
    let s_limit: usize = src.len() - INPUT_MARGIN;
    let mut cur: Cursor = Cursor { s: 1, next_emit: 0, repeat: 1 };
    proof {
        encode::lemma_faithful_start(dst@, src@);
        assert(dst@.skip(start as int) =~= Seq::<u8>::empty());
        assert(encode::positions32(l_table@) =~= empty_tables(true).long);
        assert(encode::positions32(s_table@) =~= empty_tables(true).short);
        assert(dst@.take(start as int) =~= dst@);
    }
    loop
        invariant_except_break
            encode::cursor_ok(dst@, start as int, src@, cur),
            dst@.take(start as int) == old(dst)@,
            1 <= cur.s,
            cur.s + INPUT_MARGIN <= src.len(),
            dst.len() - start <= dst_limit + 8,
            l_table.len() == L_TABLE_SIZE_BIG,
            s_table.len() == S_TABLE_SIZE_BIG,
            encode::below32(l_table@, cur.s as int),
            encode::below32(s_table@, cur.s as int),
            encode::is_constant(src@) ==> encode::constant_start(dst@, start as int, src@, cur)
                && l_table@ == old(l_table)@,
            better(
                true,
                src@,
                dst_limit as int,
                encode::work(dst@, start as int, cur),
                tables32(l_table@, s_table@),
            ) == better(
                true,
                src@,
                dst_limit as int,
                encode::start_work(),
                empty_tables(true),
            ),
        invariant
            65536 < src.len() <= MAX_BLOCK_SIZE,
            dst_limit == encode::limit_of(src.len() as int),
            s_limit + INPUT_MARGIN == src.len(),
            start == old(dst).len(),
            forall|i: int| 0 <= i < L_TABLE_SIZE_BIG ==> old(l_table)@[i] == 0,
        ensures
            better(
                true,
                src@,
                dst_limit as int,
                encode::start_work(),
                empty_tables(true),
            ) == Some(encode::work(dst@, start as int, cur)),
            encode::cursor_ok(dst@, start as int, src@, cur),
            dst@.take(start as int) == old(dst)@,
            dst.len() - start <= dst_limit + 60,
            encode::is_constant(src@) ==> encode::constant_end(dst@, start as int, src@, cur),
        decreases src.len() - cur.s,
    {
        proof {
            reveal(round);
        }
        let (found, next_s) = search_big(dst, start, src, &mut cur, l_table, s_table, dst_limit);
        match found {
            Found::GiveUp => {
                return 0;
            },
            Found::Finished => {
                break;
            },
            Found::Match(cand) => {
                match put_found_match(dst, start, src, &mut cur, cand, dst_limit) {
                    Put::GiveUp => {
                        return 0;
                    },
                    Put::Skip => {
                        cur.s = next_s + 1;
                        if cur.s >= s_limit {
                            break;
                        }
                    },
                    Put::Wrote(base) => {
                        if cur.s >= s_limit {
                            break;
                        }
                        if dst.len() - start > dst_limit {
                            return 0;
                        }
                        index_match_big(src, l_table, s_table, base, cur.s);
                    },
                }
            },
        }
    }
    finish(dst, start, src, &cur, dst_limit)
}

/// Encodes an input of more than 64 KiB; appends the block body to `dst` and
/// returns its length, or zero where the input does not get smaller.
fn encode_block_big(dst: &mut Vec<u8>, src: &[u8]) -> (n: usize)
    requires
        65536 < src.len() <= MAX_BLOCK_SIZE,
    ensures
        encode::encoded_or_not(old(dst)@, final(dst)@, src@, n as int),
        encode::is_outcome(old(dst)@, final(dst)@, n as int, body_of(src@)),
{
    let dst_limit: usize = src.len() - src.len() / 32 - 6;
    let mut l_table: Vec<u32> = vec![0u32; L_TABLE_SIZE_BIG];
    let mut s_table: Vec<u32> = vec![0u32; S_TABLE_SIZE_BIG];
    encode_better_inner_big(dst, src, dst_limit, &mut l_table, &mut s_table)
}

/// Records `i` by its long hash and `i + 1` by its short one.
fn index_both_64k(src: &[u8], l_table: &mut Vec<u16>, s_table: &mut Vec<u16>, i: usize)
    requires
        i + 8 <= src.len() <= 65536,
        old(l_table).len() == L_TABLE_SIZE_64K,
        old(s_table).len() == S_TABLE_SIZE_64K,
    ensures
        final(l_table).len() == L_TABLE_SIZE_64K,
        final(s_table).len() == S_TABLE_SIZE_64K,
        forall|b: int|
            b > i + 1 && encode::below16(old(l_table)@, b) ==> #[trigger] encode::below16(
                final(l_table)@,
                b,
            ),
        forall|b: int|
            b > i + 1 && encode::below16(old(s_table)@, b) ==> #[trigger] encode::below16(
                final(s_table)@,
                b,
            ),
        tables16(final(l_table)@, final(s_table)@) == with_both(
            false,
            src@,
            tables16(old(l_table)@, old(s_table)@),
            i as int,
        ),
{
    let cv: u64 = load64(src, i);
    l_table[long_slot_64k(cv)] = i as u16;
    s_table[short_slot_64k(cv / 0x100)] = (i + 1) as u16;
    proof {
        let t = with_both(false, src@, tables16(old(l_table)@, old(s_table)@), i as int);
        assert(encode::positions16(l_table@) =~= t.long);
        assert(encode::positions16(s_table@) =~= t.short);
    }
}

/// Records `i` by its long hash.
fn index_long_64k(src: &[u8], l_table: &mut Vec<u16>, i: usize)
    requires
        i + 8 <= src.len() <= 65536,
        old(l_table).len() == L_TABLE_SIZE_64K,
    ensures
        final(l_table).len() == L_TABLE_SIZE_64K,
        forall|b: int|
            b > i && encode::below16(old(l_table)@, b) ==> #[trigger] encode::below16(
                final(l_table)@,
                b,
            ),
        encode::positions16(final(l_table)@) == encode::positions16(old(l_table)@).update(
            long_slot(false, load_store::bytes_at(src@, i as int)),
            i as int,
        ),
{
    l_table[long_slot_64k(load64(src, i))] = i as u16;
    assert(encode::positions16(l_table@) =~= encode::positions16(old(l_table)@).update(
        long_slot(false, load_store::bytes_at(src@, i as int)),
        i as int,
    ));
}

/// Records every other position of the repeat at `base..s`, from both ends.
fn index_repeat_64k(
    src: &[u8],
    l_table: &mut Vec<u16>,
    s_table: &mut Vec<u16>,
    base: usize,
    s: usize,
)
    requires
        base < s,
        s + INPUT_MARGIN <= src.len() <= 65536,
        old(l_table).len() == L_TABLE_SIZE_64K,
        old(s_table).len() == S_TABLE_SIZE_64K,
        encode::below16(old(l_table)@, s as int),
        encode::below16(old(s_table)@, s as int),
    ensures
        final(l_table).len() == L_TABLE_SIZE_64K,
        final(s_table).len() == S_TABLE_SIZE_64K,
        encode::below16(final(l_table)@, s as int),
        encode::below16(final(s_table)@, s as int),
        tables16(final(l_table)@, final(s_table)@) == with_repeat(
            false,
            src@,
            tables16(old(l_table)@, old(s_table)@),
            base as int,
            s as int,
        ),
{
    let mut idx0: usize = base + 1;
    let mut idx1: usize = if s >= 2 {
        s - 2
    } else {
        0
    };
    while idx0 < idx1
        invariant
            idx1 <= s - 2 || idx1 == 0,
            idx0 <= s + 2,
            s + INPUT_MARGIN <= src.len() <= 65536,
            l_table.len() == L_TABLE_SIZE_64K,
            s_table.len() == S_TABLE_SIZE_64K,
            encode::below16(l_table@, s as int),
            encode::below16(s_table@, s as int),
            with_ends(false, src@, tables16(l_table@, s_table@), idx0 as int, idx1 as int)
                == with_repeat(
                false,
                src@,
                tables16(old(l_table)@, old(s_table)@),
                base as int,
                s as int,
            ),
        decreases s + 4 - idx0,
    {
        index_both_64k(src, l_table, s_table, idx0);
        index_both_64k(src, l_table, s_table, idx1);
        proof {
            reveal_with_fuel(with_ends, 2);
        }
        idx0 = idx0 + 2;
        idx1 = if idx1 >= 2 {
            idx1 - 2
        } else {
            0
        };
    }
}

/// Records positions of the match at `base..s`: those next to its ends by both
/// hashes, every other one in between by the long hash.
fn index_match_64k(
    src: &[u8],
    l_table: &mut Vec<u16>,
    s_table: &mut Vec<u16>,
    base: usize,
    s: usize,
)
    requires
        base + 4 <= s,
        s + INPUT_MARGIN <= src.len() <= 65536,
        old(l_table).len() == L_TABLE_SIZE_64K,
        old(s_table).len() == S_TABLE_SIZE_64K,
        encode::below16(old(l_table)@, s as int),
        encode::below16(old(s_table)@, s as int),
    ensures
        final(l_table).len() == L_TABLE_SIZE_64K,
        final(s_table).len() == S_TABLE_SIZE_64K,
        encode::below16(final(l_table)@, s as int),
        encode::below16(final(s_table)@, s as int),
        tables16(final(l_table)@, final(s_table)@) == with_match(
            false,
            src@,
            tables16(old(l_table)@, old(s_table)@),
            base as int,
            s as int,
        ),
{
    let mut idx0: usize = base + 1;
    let mut idx1: usize = s - 2;
    index_both_64k(src, l_table, s_table, idx0);
    index_both_64k(src, l_table, s_table, idx1);
    idx0 = idx0 + 1;
    idx1 = idx1 - 1;
    let mut idx2: usize = (idx0 + idx1 + 1) / 2;
    while idx2 < idx1
        invariant
            idx1 < s,
            idx0 <= idx2 || idx2 >= idx1,
            idx2 <= s + 2,
            s + INPUT_MARGIN <= src.len() <= 65536,
            l_table.len() == L_TABLE_SIZE_64K,
            s_table.len() == S_TABLE_SIZE_64K,
            encode::below16(l_table@, s as int),
            encode::below16(s_table@, s as int),
            with_halves(
                false,
                src@,
                tables16(l_table@, s_table@),
                idx0 as int,
                idx2 as int,
                idx1 as int,
            ) == with_match(
                false,
                src@,
                tables16(old(l_table)@, old(s_table)@),
                base as int,
                s as int,
            ),
        decreases s + 4 - idx2,
    {
        index_long_64k(src, l_table, idx0);
        index_long_64k(src, l_table, idx2);
        idx0 = idx0 + 2;
        idx2 = idx2 + 2;
    }
}

/// Looks for a match from the cursor on; with it comes the position to go on
/// from where it is not used. Matches with the offset of the last copy are
/// written on the way.
fn search_64k(
    dst: &mut Vec<u8>,
    start: usize,
    src: &[u8],
    cur: &mut Cursor,
    l_table: &mut Vec<u16>,
    s_table: &mut Vec<u16>,
    dst_limit: usize,
) -> (r: (Found, usize))
    requires
        encode::cursor_ok(old(dst)@, start as int, src@, *old(cur)),
        1 <= old(cur).s,
        old(cur).s + INPUT_MARGIN <= src.len(),
        old(dst).len() - start <= dst_limit + 8,
        1 <= dst_limit <= src.len() <= 65536,
        old(l_table).len() == L_TABLE_SIZE_64K,
        old(s_table).len() == S_TABLE_SIZE_64K,
        encode::below16(old(l_table)@, old(cur).s as int),
        encode::below16(old(s_table)@, old(cur).s as int),
    ensures
        start <= final(dst).len(),
        final(dst)@.take(start as int) == old(dst)@.take(start as int),
        final(l_table).len() == L_TABLE_SIZE_64K,
        final(s_table).len() == S_TABLE_SIZE_64K,
        match r.0 {
            Found::Match(cand) => {
                &&& encode::cursor_ok(final(dst)@, start as int, src@, *final(cur))
                &&& old(cur).s <= final(cur).s
                &&& final(cur).s <= r.1
                &&& r.1 + INPUT_MARGIN <= src.len()
                &&& cand < final(cur).s
                &&& final(cur).s - cand <= MAX_COPY3_OFFSET
                &&& forall|k: int|
                    0 <= k < 4 ==> src@[final(cur).s + k] == #[trigger] src@[cand + k]
                &&& final(dst).len() - start <= dst_limit + 8
                &&& encode::below16(final(l_table)@, r.1 + 1)
                &&& encode::below16(final(s_table)@, r.1 + 1)
                &&& encode::below16(final(l_table)@, final(cur).s + 2)
                &&& encode::below16(final(s_table)@, final(cur).s + 2)
            },
            Found::Finished => {
                &&& encode::cursor_ok(final(dst)@, start as int, src@, *final(cur))
                &&& final(dst).len() - start <= dst_limit + 8
            },
            Found::GiveUp => true,
        },
        encode::constant_start(old(dst)@, start as int, src@, *old(cur)) && (forall|i: int|
            0 <= i < L_TABLE_SIZE_64K ==> old(l_table)@[i] == 0) ==> r.0 is Match && final(dst)@
            == old(dst)@ && *final(cur) == *old(cur),
        search(
            false,
            src@,
            dst_limit as int,
            encode::work(old(dst)@, start as int, *old(cur)),
            tables16(old(l_table)@, old(s_table)@),
        ) == (match r.0 {
            Found::Match(cand) => Search::Match(
                cand as int,
                r.1 as int,
                encode::work(final(dst)@, start as int, *final(cur)),
                tables16(final(l_table)@, final(s_table)@),
            ),
            Found::Finished => Search::Finished(
                encode::work(final(dst)@, start as int, *final(cur)),
            ),
            Found::GiveUp => Search::GiveUp,
        }),
{
    let s_limit: usize = src.len() - INPUT_MARGIN;
    loop
        invariant
            encode::cursor_ok(dst@, start as int, src@, *cur),
            dst@.take(start as int) == old(dst)@.take(start as int),
            1 <= cur.s,
            old(cur).s <= cur.s,
            s_limit + INPUT_MARGIN == src.len(),
            cur.s <= s_limit,
            dst.len() - start <= dst_limit + 8,
            1 <= dst_limit <= src.len() <= 65536,
            l_table.len() == L_TABLE_SIZE_64K,
            s_table.len() == S_TABLE_SIZE_64K,
            encode::below16(l_table@, cur.s as int),
            encode::below16(s_table@, cur.s as int),
            encode::constant_start(old(dst)@, start as int, src@, *old(cur)) && (forall|i: int|
                0 <= i < L_TABLE_SIZE_64K ==> old(l_table)@[i] == 0) ==> dst@ == old(dst)@ && *cur
                == *old(cur) && l_table@ == old(l_table)@,
            search(
                false,
                src@,
                dst_limit as int,
                encode::work(dst@, start as int, *cur),
                tables16(l_table@, s_table@),
            ) == search(
                false,
                src@,
                dst_limit as int,
                encode::work(old(dst)@, start as int, *old(cur)),
                tables16(old(l_table)@, old(s_table)@),
            ),
        decreases src.len() - cur.s,
    {
        let s: usize = cur.s;
        let next_s: usize = s + (s - cur.next_emit) / 128 + 1;
        if next_s > s_limit {
            return (Found::Finished, next_s);
        }
        let cv: u64 = load64(src, s);
        let hash_l: usize = long_slot_64k(cv);
        let hash_s: usize = short_slot_64k(cv);
        let ghost before = tables16(l_table@, s_table@);
        let cand_l: usize = l_table[hash_l] as usize;
        let cand_s: usize = s_table[hash_s] as usize;
        l_table[hash_l] = s as u16;
        s_table[hash_s] = s as u16;
        assert(encode::below16(l_table@, s + 1));
        assert(encode::below16(s_table@, s + 1));
        assert(encode::positions16(l_table@) =~= before.long.update(hash_l as int, s as int));
        assert(encode::positions16(s_table@) =~= before.short.update(hash_s as int, s as int));
        proof {
            if encode::is_constant(src@) {
                assert forall|k: int| 0 <= k < 8 implies src@[s + k] == #[trigger] src@[cand_l
                    + k] by {
                    assert(src@[s + k] == src@[0]);
                    assert(src@[cand_l + k] == src@[0]);
                }
            }
        }
        if same8(src, s, cand_l) {
            assert forall|k: int| 0 <= k < 4 implies src@[s + k] == #[trigger] src@[cand_l + k] by {}
            return (Found::Match(cand_l), next_s);
        }
        if s >= cur.repeat && same4(src, s + 1, s + 1 - cur.repeat) {
            match put_repeat_match(dst, start, src, cur, dst_limit) {
                None => {
                    return (Found::GiveUp, next_s);
                },
                Some(base) => {
                    if cur.s >= s_limit {
                        return (Found::Finished, next_s);
                    }
                    index_repeat_64k(src, l_table, s_table, base, cur.s);
                },
            }
            continue;
        }
        if same4(src, s, cand_l) {
            return (Found::Match(cand_l), next_s);
        }
        if same4(src, s, cand_s) {
            let hash_l2: usize = long_slot_64k(cv / 0x100);
            let cand_l2: usize = l_table[hash_l2] as usize;
            l_table[hash_l2] = (s + 1) as u16;
            assert(encode::below16(l_table@, s + 2));
            assert(encode::positions16(l_table@) =~= before.long.update(
                hash_l as int,
                s as int,
            ).update(hash_l2 as int, s + 1));
            if same4(src, s + 1, cand_l2) {
                cur.s = s + 1;
                return (Found::Match(cand_l2), next_s);
            }
            return (Found::Match(cand_s), next_s);
        }
        cur.s = next_s;
    }
}

/// Encodes an input of at most 64 KiB with empty tables; appends the block
/// body to `dst` and returns its length, or zero where the input does not get
/// smaller.
fn encode_better_inner_64k(
    dst: &mut Vec<u8>,
    src: &[u8],
    dst_limit: usize,
    l_table: &mut Vec<u16>,
    s_table: &mut Vec<u16>,
) -> (n: usize)
    requires
        MIN_NON_LITERAL_BLOCK_SIZE <= src.len() <= 65536,
        dst_limit == encode::limit_of(src.len() as int),
        old(l_table).len() == L_TABLE_SIZE_64K,
        old(s_table).len() == S_TABLE_SIZE_64K,
        forall|i: int| 0 <= i < L_TABLE_SIZE_64K ==> old(l_table)@[i] == 0,
        forall|i: int| 0 <= i < S_TABLE_SIZE_64K ==> old(s_table)@[i] == 0,
    ensures
        encode::encoded_or_not(old(dst)@, final(dst)@, src@, n as int),
        encode::is_outcome(old(dst)@, final(dst)@, n as int, body_of(src@)),
{
    let start: usize = dst.len();
    let s_limit: usize = src.len() - INPUT_MARGIN;
    let mut cur: Cursor = Cursor { s: 1, next_emit: 0, repeat: 1 };
    proof {
        encode::lemma_faithful_start(dst@, src@);
        assert(dst@.skip(start as int) =~= Seq::<u8>::empty());
        assert(encode::positions16(l_table@) =~= empty_tables(false).long);
        assert(encode::positions16(s_table@) =~= empty_tables(false).short);
        assert(dst@.take(start as int) =~= dst@);
    }
    loop
        invariant_except_break
            encode::cursor_ok(dst@, start as int, src@, cur),
            dst@.take(start as int) == old(dst)@,
            1 <= cur.s,
            cur.s + INPUT_MARGIN <= src.len(),
            dst.len() - start <= dst_limit + 8,
            l_table.len() == L_TABLE_SIZE_64K,
            s_table.len() == S_TABLE_SIZE_64K,
            encode::below16(l_table@, cur.s as int),
            encode::below16(s_table@, cur.s as int),
            encode::is_constant(src@) && src.len() >= 32 ==> encode::constant_start(dst@, start as int, src@, cur)
                && l_table@ == old(l_table)@,
            better(
                false,
                src@,
                dst_limit as int,
                encode::work(dst@, start as int, cur),
                tables16(l_table@, s_table@),
            ) == better(
                false,
                src@,
                dst_limit as int,
                encode::start_work(),
                empty_tables(false),
            ),
        invariant
            MIN_NON_LITERAL_BLOCK_SIZE <= src.len() <= 65536,
            dst_limit == encode::limit_of(src.len() as int),
            s_limit + INPUT_MARGIN == src.len(),
            start == old(dst).len(),
            forall|i: int| 0 <= i < L_TABLE_SIZE_64K ==> old(l_table)@[i] == 0,
        ensures
            better(
                false,
                src@,
                dst_limit as int,
                encode::start_work(),
                empty_tables(false),
            ) == Some(encode::work(dst@, start as int, cur)),
            encode::cursor_ok(dst@, start as int, src@, cur),
            dst@.take(start as int) == old(dst)@,
            dst.len() - start <= dst_limit + 60,
            encode::is_constant(src@) && src.len() >= 32 ==> encode::constant_end(dst@, start as int, src@, cur),
        decreases src.len() - cur.s,
    {
        proof {
            reveal(round);
        }
        let (found, next_s) = search_64k(dst, start, src, &mut cur, l_table, s_table, dst_limit);
        match found {
            Found::GiveUp => {
                return 0;
            },
            Found::Finished => {
                break;
            },
            Found::Match(cand) => {
                match put_found_match(dst, start, src, &mut cur, cand, dst_limit) {
                    Put::GiveUp => {
                        return 0;
                    },
                    Put::Skip => {
                        cur.s = next_s + 1;
                        if cur.s >= s_limit {
                            break;
                        }
                    },
                    Put::Wrote(base) => {
                        if cur.s >= s_limit {
                            break;
                        }
                        if dst.len() - start > dst_limit {
                            return 0;
                        }
                        index_match_64k(src, l_table, s_table, base, cur.s);
                    },
                }
            },
        }
    }
    finish(dst, start, src, &cur, dst_limit)
}

/// Encodes an input of at most 64 KiB; appends the block body to `dst` and
/// returns its length, or zero where the input does not get smaller.
fn encode_block_64k(dst: &mut Vec<u8>, src: &[u8]) -> (n: usize)
    requires
        MIN_NON_LITERAL_BLOCK_SIZE <= src.len() <= 65536,
    ensures
        encode::encoded_or_not(old(dst)@, final(dst)@, src@, n as int),
        encode::is_outcome(old(dst)@, final(dst)@, n as int, body_of(src@)),
{
    let dst_limit: usize = src.len() - src.len() / 32 - 6;
    let mut l_table: Vec<u16> = vec![0u16; L_TABLE_SIZE_64K];
    let mut s_table: Vec<u16> = vec![0u16; S_TABLE_SIZE_64K];
    encode_better_inner_64k(dst, src, dst_limit, &mut l_table, &mut s_table)
}

/// Encodes `src`; appends the block body to `dst` and returns its length, or
/// zero where the input does not get smaller.
pub fn encode_block(dst: &mut Vec<u8>, src: &[u8]) -> (n: usize)
    requires
        src.len() <= MAX_BLOCK_SIZE,
    ensures
        encode::encoded_or_not(old(dst)@, final(dst)@, src@, n as int),
        encode::is_outcome(old(dst)@, final(dst)@, n as int, body_of(src@)),
        src.len() < MIN_NON_LITERAL_BLOCK_SIZE ==> n == 0,
{
    if src.len() < MIN_NON_LITERAL_BLOCK_SIZE {
        assert(dst@.take(dst.len() as int) =~= dst@);
        return 0;
    }
    if src.len() <= 65536 {
        encode_block_64k(dst, src)
    } else {
        encode_block_big(dst, src)
    }
}

} // verus!
