//! The fastest encoder: one hash table, greedy matches.
use crate::block::emit;
use crate::block::encode;
use crate::block::encode::{
    finish, put_copy, put_copy_lits2, put_copy_lits3, put_literal, put_repeat, Cursor, Found, Work,
};
use crate::block::format::{
    INPUT_MARGIN, MAX_BLOCK_SIZE, MAX_COPY2_LITS, MAX_COPY2_OFFSET, MAX_COPY3_LITS,
    MAX_COPY3_OFFSET, MIN_COPY2_OFFSET, MIN_NON_LITERAL_BLOCK_SIZE,
};
use crate::block::hash;
use crate::block::hash::{hash5, hash6};
use crate::block::load_store;
use crate::block::load_store::{load64, same4};
use crate::block::match_len;
use crate::block::match_len::{extend_back, match_len_words};
use vstd::arithmetic::power2;
use vstd::prelude::*;

verus! {

pub const TABLE_BITS_BIG: u32 = 15;

pub const TABLE_SIZE_BIG: usize = 32_768;

pub const TABLE_BITS_64K: u32 = 13;

pub const TABLE_SIZE_64K: usize = 8_192;

/// Where a position is recorded by the bytes at it: by six of them in a large
/// input, by five in one of up to 64 KiB.
#[verifier::opaque]
pub open spec fn slot(big: bool, x: u64) -> int {
    if big {
        hash::spec_hash(x, 0x1_0000, hash::PRIME6, TABLE_BITS_BIG)
    } else {
        hash::spec_hash(x, 0x100_0000, hash::PRIME5, TABLE_BITS_64K)
    }
}

/// After this many bytes without a match the steps get longer by one.
pub open spec fn patience(big: bool) -> int {
    if big {
        64
    } else {
        32
    }
}

/// At most this many literals go into a copy.
pub open spec fn most_lits(big: bool) -> int {
    if big {
        MAX_COPY3_LITS as int
    } else {
        MAX_COPY2_LITS as int
    }
}

/// The match, with the offset of the last copy, that was found one byte behind
/// the cursor has been written; nothing where the output grows too large.
pub open spec fn repeat_match(src: Seq<u8>, limit: int, w: Work) -> Option<Work> {
    let at = w.s + 1;
    let base = at - match_len::common_back(src, at, at - w.repeat, w.next_emit);
    let end = at + 4 + match_len::common_words(src, at + 4, at + 4 - w.repeat);
    if w.body.len() + (base - w.next_emit) > limit {
        None
    } else {
        Some(
            Work {
                body: w.body + encode::literal(src, w.next_emit, base) + encode::repeated(
                    end - base,
                ),
                s: end,
                next_emit: end,
                repeat: w.repeat,
            },
        )
    }
}

/// The match of the cursor's position with `cand`, extended both ways, has been
/// written with the literals before it; nothing where the output grows too large.
pub open spec fn found_match(
    src: Seq<u8>,
    limit: int,
    w: Work,
    cand: int,
    max_lits: int,
) -> Option<Work> {
    let offset = w.s - cand;
    let base = w.s - match_len::common_back(src, w.s, cand, w.next_emit);
    let end = base + 4 + match_len::common_words(src, base + 4, base + 4 - offset);
    let lits = base - w.next_emit;
    let apart = lits > max_lits || offset < MIN_COPY2_OFFSET;
    let body = if lits == 0 {
        w.body + encode::copied(offset, end - base)
    } else if apart {
        w.body + encode::literal(src, w.next_emit, base) + encode::copied(offset, end - base)
    } else if offset <= MAX_COPY2_OFFSET {
        w.body + encode::fused2(src, w.next_emit, base, offset, end - base)
    } else {
        w.body + encode::fused3(src, w.next_emit, base, offset, end - base)
    };
    if lits != 0 && apart && w.body.len() + (end - w.next_emit) > limit {
        None
    } else {
        Some(Work { body, s: end, next_emit: end, repeat: offset })
    }
}

/// What a search for a match comes to.
pub enum Search {
    /// The position now looked at matches this earlier one.
    Match(int, Work, Seq<int>),
    /// The end of the input is near.
    Finished(Work),
    /// The output grew too large.
    GiveUp,
}

/// The search for a match from the cursor on. Three positions are tried at a
/// time, after the offset of the last copy one byte behind the first; matches with
/// that offset are written on the way.
pub open spec fn search(big: bool, src: Seq<u8>, limit: int, w: Work, table: Seq<int>) -> Search
    decreases src.len() - w.s,
    when w.next_emit <= w.s
{
    let s_limit = src.len() - INPUT_MARGIN;
    let next_s = w.s + (w.s - w.next_emit) / patience(big) + 4;
    if next_s > s_limit {
        Search::Finished(w)
    } else {
        let x = load_store::bytes_at(src, w.s);
        let c0 = table[slot(big, x)];
        let c1 = table[slot(big, x / 0x100)];
        let two = table.update(slot(big, x), w.s).update(slot(big, x / 0x100), w.s + 1);
        let c2 = two[slot(big, x / 0x1_0000)];
        let three = two.update(slot(big, x / 0x1_0000), w.s + 2);
        let near = w.s + 2 - MAX_COPY3_OFFSET;
        if w.repeat <= w.s + 1 && load_store::agree4(src, w.s + 1, w.s + 1 - w.repeat) {
            proof {
                match_len::lemma_common_words(src, w.s + 5, w.s + 5 - w.repeat);
            }
            match repeat_match(src, limit, w) {
                None => Search::GiveUp,
                Some(v) => if v.s >= s_limit {
                    Search::Finished(v)
                } else {
                    search(big, src, limit, v, two)
                },
            }
        } else if c0 >= near && load_store::agree4(src, w.s, c0) {
            Search::Match(c0, w, two)
        } else if c1 >= near && load_store::agree4(src, w.s + 1, c1) {
            Search::Match(c1, Work { s: w.s + 1, ..w }, three)
        } else if c2 >= near && load_store::agree4(src, w.s + 2, c2) {
            Search::Match(c2, Work { s: w.s + 2, ..w }, three)
        } else {
            search(big, src, limit, Work { s: next_s, ..w }, three)
        }
    }
}

/// Matches are written as long as one starts where the last one ended. With the
/// result comes whether the end of the input is near; nothing where the output
/// grows too large.
pub open spec fn chain(
    big: bool,
    src: Seq<u8>,
    limit: int,
    w: Work,
    table: Seq<int>,
) -> Option<(bool, Work, Seq<int>)>
    decreases src.len() - w.s,
{
    if w.s >= src.len() - INPUT_MARGIN {
        Some((true, w, table))
    } else if w.body.len() > limit {
        None
    } else {
        let x = load_store::bytes_at(src, w.s - 2);
        let cand = table[slot(big, x / 0x1_0000)];
        let next = table.update(slot(big, x), w.s - 2).update(slot(big, x / 0x1_0000), w.s);
        if w.s - cand > MAX_COPY3_OFFSET || !load_store::agree4(src, w.s, cand) {
            Some((false, Work { s: w.s + 1, ..w }, next))
        } else {
            let end = w.s + 4 + match_len::common_words(src, w.s + 4, cand + 4);
            proof {
                match_len::lemma_common_words(src, w.s + 4, cand + 4);
            }
            chain(
                big,
                src,
                limit,
                Work {
                    body: w.body + encode::copied(w.s - cand, end - w.s),
                    s: end,
                    next_emit: end,
                    repeat: w.s - cand,
                },
                next,
            )
        }
    }
}

/// One search, and the matches that are written after it. With the result comes
/// whether the end of the input is near; nothing where the output grows too large.
#[verifier::opaque]
pub open spec fn round(
    big: bool,
    src: Seq<u8>,
    limit: int,
    w: Work,
    table: Seq<int>,
) -> Option<(bool, Work, Seq<int>)> {
    match search(big, src, limit, w, table) {
        Search::GiveUp => None,
        Search::Finished(v) => Some((true, v, table)),
        Search::Match(cand, v, t) => match found_match(src, limit, v, cand, most_lits(big)) {
            None => None,
            Some(v) => chain(big, src, limit, v, t),
        },
    }
}

/// Matches are looked for and written up to the end of the input; nothing where
/// the output grows too large. Every round moves the cursor on.
pub open spec fn greedy(
    big: bool,
    src: Seq<u8>,
    limit: int,
    w: Work,
    table: Seq<int>,
) -> Option<Work>
    decreases src.len() - w.s,
{
    match round(big, src, limit, w, table) {
        None => None,
        Some((done, v, t)) => if done {
            Some(v)
        } else if w.s < v.s <= src.len() {
            greedy(big, src, limit, v, t)
        } else {
            None
        },
    }
}

/// The body of `src` by the fastest encoder; nothing where it does not get
/// smaller.
pub open spec fn body_of(src: Seq<u8>) -> Option<Seq<u8>> {
    if src.len() < MIN_NON_LITERAL_BLOCK_SIZE {
        None
    } else {
        let big = src.len() > 65536;
        let size: int = if big {
            TABLE_SIZE_BIG as int
        } else {
            TABLE_SIZE_64K as int
        };
        let limit = encode::limit_of(src.len() as int);
        match greedy(big, src, limit, encode::start_work(), encode::empty_table(size)) {
            None => None,
            Some(w) => encode::finished(src, limit, w),
        }
    }
}

/// Where a position of a large input is recorded.
fn slot_big(x: u64) -> (r: usize)
    ensures
        r == slot(true, x),
        r < TABLE_SIZE_BIG,
{
    proof {
        power2::lemma2_to64();
        reveal(slot);
    }
    hash6(x, TABLE_BITS_BIG) as usize
}

/// Where a position of an input of up to 64 KiB is recorded.
fn slot_64k(x: u64) -> (r: usize)
    ensures
        r == slot(false, x),
        r < TABLE_SIZE_64K,
{
    proof {
        power2::lemma2_to64();
        reveal(slot);
    }
    hash5(x, TABLE_BITS_64K) as usize
}

/// Writes the match, with the offset of the last copy, that was found one byte
/// behind the cursor. Gives up, with `false`, where the output grows too large.
fn put_repeat_match(
    dst: &mut Vec<u8>,
    start: usize,
    src: &[u8],
    cur: &mut Cursor,
    dst_limit: usize,
) -> (ok: bool)
    requires
        encode::cursor_ok(old(dst)@, start as int, src@, *old(cur)),
        old(cur).s + 5 <= src.len(),
        old(cur).repeat <= old(cur).s + 1,
        forall|k: int|
            0 <= k < 4 ==> src@[old(cur).s + 1 + k] == #[trigger] src@[old(cur).s + 1
                - old(cur).repeat + k],
        old(dst).len() - start <= dst_limit + 40,
        dst_limit <= src.len(),
    ensures
        start <= final(dst).len(),
        final(dst)@.take(start as int) == old(dst)@.take(start as int),
        ok ==> {
            &&& encode::cursor_ok(final(dst)@, start as int, src@, *final(cur))
            &&& final(cur).next_emit == final(cur).s
            &&& final(cur).repeat == old(cur).repeat
            &&& final(cur).s >= old(cur).s + 5
            &&& final(dst).len() - start <= dst_limit + 8
        },
        encode::constant_start(old(dst)@, start as int, src@, *old(cur)) && dst_limit >= 1 ==> ok
            && encode::constant_end(final(dst)@, start as int, src@, *final(cur)),
        (if ok {
            Some(encode::work(final(dst)@, start as int, *final(cur)))
        } else {
            None
        }) == repeat_match(
            src@,
            dst_limit as int,
            encode::work(old(dst)@, start as int, *old(cur)),
        ),
{
    let s: usize = cur.s;
    let repeat: usize = cur.repeat;
    let next_emit: usize = cur.next_emit;
    let k: usize = extend_back(src, s + 1, s + 1 - repeat, next_emit);
    let base: usize = s + 1 - k;
    if (dst.len() - start) + (base - next_emit) > dst_limit {
        return false;
    }
    put_literal(dst, start, src, next_emit, base, repeat);
    let n: usize = match_len_words(src, s + 5, s + 5 - repeat);
    let end: usize = s + 5 + n;
    proof {
        assert forall|i: int| base <= i < end implies #[trigger] src@[i] == src@[i - repeat] by {
            if s + 1 <= i < s + 5 {
                let k = i - (s + 1);
                assert(src@[s + 1 + k] == src@[s + 1 - repeat + k]);
            }
        }
        assert(emit::is_match(src@, base as int, repeat as int, end - base));
    }
    put_repeat(dst, start, src, base, repeat, end - base);
    cur.s = end;
    cur.next_emit = end;
    proof {
        if encode::is_constant(src@) {
            assert(src@[end - 1] == src@[0]);
        }
    }
    true
}

/// Writes the match of the cursor's position with `cand`, extended both ways,
/// and the literals before it. Up to `max_lits` literals go into the copy.
/// Gives up, with `false`, where the output grows too large.
fn put_found_match(
    dst: &mut Vec<u8>,
    start: usize,
    src: &[u8],
    cur: &mut Cursor,
    cand: usize,
    dst_limit: usize,
    max_lits: usize,
) -> (ok: bool)
    requires
        encode::cursor_ok(old(dst)@, start as int, src@, *old(cur)),
        old(cur).s + 4 <= src.len(),
        cand < old(cur).s,
        old(cur).s - cand <= MAX_COPY3_OFFSET,
        forall|k: int| 0 <= k < 4 ==> src@[old(cur).s + k] == #[trigger] src@[cand + k],
        old(dst).len() - start <= dst_limit + 40,
        dst_limit <= src.len(),
        max_lits <= MAX_COPY3_LITS || (max_lits == MAX_COPY2_LITS && old(cur).s - cand
            <= MAX_COPY2_OFFSET),
    ensures
        start <= final(dst).len(),
        final(dst)@.take(start as int) == old(dst)@.take(start as int),
        ok ==> {
            &&& encode::cursor_ok(final(dst)@, start as int, src@, *final(cur))
            &&& final(cur).next_emit == final(cur).s
            &&& final(cur).s >= old(cur).s + 4 || final(cur).s + 8 > src.len()
            &&& final(cur).s >= old(cur).next_emit + 4
            &&& final(dst).len() - start <= dst_limit + 51
        },
        (if ok {
            Some(encode::work(final(dst)@, start as int, *final(cur)))
        } else {
            None
        }) == found_match(
            src@,
            dst_limit as int,
            encode::work(old(dst)@, start as int, *old(cur)),
            cand as int,
            max_lits as int,
        ),
{
    let next_emit: usize = cur.next_emit;
    let offset: usize = cur.s - cand;
    let k: usize = extend_back(src, cur.s, cand, next_emit);
    let base: usize = cur.s - k;
    let n: usize = match_len_words(src, base + 4, base + 4 - offset);
    let end: usize = base + 4 + n;
    let length: usize = end - base;
    proof {
        let s0 = cur.s as int;
        assert forall|i: int| s0 <= i < s0 + 4 implies #[trigger] src@[i] == src@[i - offset] by {
            let k = i - s0;
            assert(src@[s0 + k] == src@[cand + k]);
        }
        assert forall|i: int| base <= i < end implies #[trigger] src@[i] == src@[i - offset] by {}
        assert(emit::is_match(src@, base as int, offset as int, length as int));
        if end < s0 + 4 && end + 8 <= src.len() {
            assert(src@[end as int] == src@[end - offset]);
        }
    }
    if next_emit != base {
        let lits: usize = base - next_emit;
        if lits > max_lits || offset < MIN_COPY2_OFFSET {
            if (dst.len() - start) + (end - next_emit) > dst_limit {
                return false;
            }
            put_literal(dst, start, src, next_emit, base, cur.repeat);
            put_copy(dst, start, src, base, cur.repeat, offset, length);
        } else if offset <= MAX_COPY2_OFFSET {
            put_copy_lits2(dst, start, src, next_emit, base, cur.repeat, offset, length);
        } else {
            put_copy_lits3(dst, start, src, next_emit, base, cur.repeat, offset, length);
        }
    } else {
        put_copy(dst, start, src, base, cur.repeat, offset, length);
    }
    cur.s = end;
    cur.next_emit = end;
    cur.repeat = offset;
    true
}

/// Looks for a match from the cursor on. Matches with the offset of the last
/// copy are written on the way.
fn search_big(
    dst: &mut Vec<u8>,
    start: usize,
    src: &[u8],
    cur: &mut Cursor,
    table: &mut Vec<u32>,
    dst_limit: usize,
) -> (found: Found)
    requires
        encode::cursor_ok(old(dst)@, start as int, src@, *old(cur)),
        1 <= old(cur).s,
        old(cur).s + INPUT_MARGIN <= src.len(),
        old(dst).len() - start <= dst_limit + 8,
        1 <= dst_limit <= src.len(),
        old(table).len() == TABLE_SIZE_BIG,
        encode::below32(old(table)@, old(cur).s as int),
    ensures
        start <= final(dst).len(),
        final(dst)@.take(start as int) == old(dst)@.take(start as int),
        final(table).len() == TABLE_SIZE_BIG,
        match found {
            Found::Match(cand) => {
                &&& encode::cursor_ok(final(dst)@, start as int, src@, *final(cur))
                &&& old(cur).s <= final(cur).s
                &&& final(cur).s + INPUT_MARGIN + 2 <= src.len()
                &&& cand < final(cur).s
                &&& final(cur).s - cand <= MAX_COPY3_OFFSET
                &&& forall|k: int|
                    0 <= k < 4 ==> src@[final(cur).s + k] == #[trigger] src@[cand + k]
                &&& final(dst).len() - start <= dst_limit + 8
                &&& encode::below32(final(table)@, final(cur).s + 3)
            },
            Found::Finished => {
                &&& encode::cursor_ok(final(dst)@, start as int, src@, *final(cur))
                &&& final(dst).len() - start <= dst_limit + 8
            },
            Found::GiveUp => true,
        },
        encode::constant_start(old(dst)@, start as int, src@, *old(cur)) ==> found is Finished
            && encode::constant_end(final(dst)@, start as int, src@, *final(cur)),
        search(
            true,
            src@,
            dst_limit as int,
            encode::work(old(dst)@, start as int, *old(cur)),
            encode::positions32(old(table)@),
        ) == (match found {
            Found::Match(cand) => Search::Match(
                cand as int,
                encode::work(final(dst)@, start as int, *final(cur)),
                encode::positions32(final(table)@),
            ),
            Found::Finished => Search::Finished(
                encode::work(final(dst)@, start as int, *final(cur)),
            ),
            Found::GiveUp => Search::GiveUp,
        }),
{
    let s_limit: usize = src.len() - INPUT_MARGIN;
    loop
        invariant
            encode::cursor_ok(dst@, start as int, src@, *cur),
            dst@.take(start as int) == old(dst)@.take(start as int),
            1 <= cur.s,
            old(cur).s <= cur.s,
            s_limit + INPUT_MARGIN == src.len(),
            cur.s <= s_limit,
            dst.len() - start <= dst_limit + 8,
            1 <= dst_limit <= src.len(),
            table.len() == TABLE_SIZE_BIG,
            encode::below32(table@, cur.s as int),
            encode::constant_start(old(dst)@, start as int, src@, *old(cur)) ==> dst@ == old(dst)@ && *cur
                == *old(cur),
            search(
                true,
                src@,
                dst_limit as int,
                encode::work(dst@, start as int, *cur),
                encode::positions32(table@),
            ) == search(
                true,
                src@,
                dst_limit as int,
                encode::work(old(dst)@, start as int, *old(cur)),
                encode::positions32(old(table)@),
            ),
        decreases src.len() - cur.s,
    {
        let s: usize = cur.s;
        let next_s: usize = s + (s - cur.next_emit) / 64 + 4;
        if next_s > s_limit {
            return Found::Finished;
        }
        let min_src_pos: usize = if s + 2 >= MAX_COPY3_OFFSET {
            s + 2 - MAX_COPY3_OFFSET
        } else {
            0
        };
        let cv: u64 = load64(src, s);
        let hash0: usize = slot_big(cv);
        let hash1: usize = slot_big(cv / 0x100);
        let hash2: usize = slot_big(cv / 0x1_0000);
        let ghost before = encode::positions32(table@);
        let c0: usize = table[hash0] as usize;
        let c1: usize = table[hash1] as usize;
        table[hash0] = s as u32;
        table[hash1] = (s + 1) as u32;
        assert(encode::below32(table@, s + 2));
        assert(encode::positions32(table@) =~= before.update(hash0 as int, s as int).update(
            hash1 as int,
            s + 1,
        ));

        if cur.repeat <= s + 1 && same4(src, s + 1, s + 1 - cur.repeat) {
            if !put_repeat_match(dst, start, src, cur, dst_limit) {
                return Found::GiveUp;
            }
            if cur.s >= s_limit {
                return Found::Finished;
            }
            continue;
        }
        proof {
            if encode::constant_start(dst@, start as int, src@, *cur) {
                assert(forall|k: int| 0 <= k < 4 ==> src@[2 + k] == #[trigger] src@[1 + k]);
            }
        }
        if c0 >= min_src_pos && same4(src, s, c0) {
            return Found::Match(c0);
        }
        let c2: usize = table[hash2] as usize;
        table[hash2] = (s + 2) as u32;
        assert(encode::below32(table@, s + 3));
        assert(encode::positions32(table@) =~= before.update(hash0 as int, s as int).update(
            hash1 as int,
            s + 1,
        ).update(hash2 as int, s + 2));
        if c1 >= min_src_pos && same4(src, s + 1, c1) {
            cur.s = s + 1;
            return Found::Match(c1);
        }
        if c2 >= min_src_pos && same4(src, s + 2, c2) {
            cur.s = s + 2;
            return Found::Match(c2);
        }
        cur.s = next_s;
    }
}

/// Writes matches as long as one starts where the last one ended. `None` stands
/// for giving up; otherwise says whether the end of the input is near.
fn chain_big(
    dst: &mut Vec<u8>,
    start: usize,
    src: &[u8],
    cur: &mut Cursor,
    table: &mut Vec<u32>,
    dst_limit: usize,
) -> (r: Option<bool>)
    requires
        encode::cursor_ok(old(dst)@, start as int, src@, *old(cur)),
        old(cur).next_emit == old(cur).s,
        2 <= old(cur).s,
        old(dst).len() - start <= dst_limit + 60,
        1 <= dst_limit <= src.len(),
        src.len() >= MIN_NON_LITERAL_BLOCK_SIZE,
        old(table).len() == TABLE_SIZE_BIG,
        old(cur).s + INPUT_MARGIN <= src.len() ==> encode::below32(old(table)@, old(cur).s as int),
    ensures
        start <= final(dst).len(),
        final(dst)@.take(start as int) == old(dst)@.take(start as int),
        final(table).len() == TABLE_SIZE_BIG,
        r matches Some(done) ==> {
            &&& encode::cursor_ok(final(dst)@, start as int, src@, *final(cur))
            &&& final(dst).len() - start <= dst_limit + 60
            &&& !done ==> {
                &&& final(dst).len() - start <= dst_limit
                &&& final(cur).s + INPUT_MARGIN <= src.len()
                &&& final(cur).s > old(cur).s
                &&& encode::below32(final(table)@, final(cur).s as int)
            }
        },
        chain(
            true,
            src@,
            dst_limit as int,
            encode::work(old(dst)@, start as int, *old(cur)),
            encode::positions32(old(table)@),
        ) == (match r {
            None => None,
            Some(done) => Some(
                (
                    done,
                    encode::work(final(dst)@, start as int, *final(cur)),
                    encode::positions32(final(table)@),
                ),
            ),
        }),
{
    let s_limit: usize = src.len() - INPUT_MARGIN;
    loop
        invariant
            encode::cursor_ok(dst@, start as int, src@, *cur),
            dst@.take(start as int) == old(dst)@.take(start as int),
            cur.next_emit == cur.s,
            2 <= cur.s,
            cur.s >= old(cur).s,
            s_limit + INPUT_MARGIN == src.len(),
            dst.len() - start <= dst_limit + 60,
            1 <= dst_limit <= src.len(),
            table.len() == TABLE_SIZE_BIG,
            cur.s + INPUT_MARGIN <= src.len() ==> encode::below32(table@, cur.s as int),
            chain(
                true,
                src@,
                dst_limit as int,
                encode::work(dst@, start as int, *cur),
                encode::positions32(table@),
            ) == chain(
                true,
                src@,
                dst_limit as int,
                encode::work(old(dst)@, start as int, *old(cur)),
                encode::positions32(old(table)@),
            ),
        decreases src.len() - cur.s,
    {
        let s: usize = cur.s;
        if s >= s_limit {
            return Some(true);
        }
        let x: u64 = load64(src, s - 2);
        if dst.len() - start > dst_limit {
            return None;
        }
        let m2_hash: usize = slot_big(x);
        let curr_hash: usize = slot_big(x / 0x1_0000);
        let ghost before = encode::positions32(table@);
        let cand: usize = table[curr_hash] as usize;
        table[m2_hash] = (s - 2) as u32;
        table[curr_hash] = s as u32;
        assert(encode::below32(table@, s + 1));
        assert(encode::positions32(table@) =~= before.update(m2_hash as int, s - 2).update(
            curr_hash as int,
            s as int,
        ));
        if s - cand > MAX_COPY3_OFFSET || !same4(src, s, cand) {
            cur.s = s + 1;
            return Some(false);
        }
        let offset: usize = s - cand;
        let n: usize = match_len_words(src, s + 4, cand + 4);
        let end: usize = s + 4 + n;
        proof {
            assert forall|i: int| s <= i < end implies #[trigger] src@[i] == src@[i - offset] by {
                if i < s + 4 {
                    let k = i - s;
                    assert(src@[s + k] == src@[cand + k]);
                }
            }
        }
        put_copy(dst, start, src, s, cur.repeat, offset, end - s);
        cur.s = end;
        cur.next_emit = end;
        cur.repeat = offset;
    }
}

/// Encodes an input of more than 64 KiB; appends the block body to `dst` and
/// returns its length, or zero where the input does not get smaller.
pub fn encode_block_big(dst: &mut Vec<u8>, src: &[u8]) -> (n: usize)
    requires
        65536 < src.len() <= MAX_BLOCK_SIZE,
    ensures
        encode::encoded_or_not(old(dst)@, final(dst)@, src@, n as int),
        encode::is_outcome(old(dst)@, final(dst)@, n as int, body_of(src@)),
{
    let start: usize = dst.len();
    let mut table: Vec<u32> = vec![0u32; TABLE_SIZE_BIG];
    let dst_limit: usize = src.len() - src.len() / 32 - 6;
    let mut cur: Cursor = Cursor { s: 1, next_emit: 0, repeat: 1 };
    proof {
        encode::lemma_faithful_start(dst@, src@);
        assert(dst@.skip(start as int) =~= Seq::<u8>::empty());
        assert(encode::positions32(table@) =~= encode::empty_table(TABLE_SIZE_BIG as int));
        assert(dst@.take(start as int) =~= dst@);
    }
    loop
        invariant_except_break
            encode::cursor_ok(dst@, start as int, src@, cur),
            dst@.take(start as int) == old(dst)@,
            1 <= cur.s,
            cur.s + INPUT_MARGIN <= src.len(),
            dst.len() - start <= dst_limit,
            table.len() == TABLE_SIZE_BIG,
            encode::below32(table@, cur.s as int),
            encode::is_constant(src@) ==> encode::constant_start(dst@, start as int, src@, cur),
            greedy(
                true,
                src@,
                dst_limit as int,
                encode::work(dst@, start as int, cur),
                encode::positions32(table@),
            ) == greedy(
                true,
                src@,
                dst_limit as int,
                encode::start_work(),
                encode::empty_table(TABLE_SIZE_BIG as int),
            ),
        invariant
            65536 < src.len() <= MAX_BLOCK_SIZE,
            dst_limit == encode::limit_of(src.len() as int),
            start == old(dst).len(),
        ensures
            greedy(
                true,
                src@,
                dst_limit as int,
                encode::start_work(),
                encode::empty_table(TABLE_SIZE_BIG as int),
            ) == Some(encode::work(dst@, start as int, cur)),
            encode::cursor_ok(dst@, start as int, src@, cur),
            dst@.take(start as int) == old(dst)@,
            dst.len() - start <= dst_limit + 60,
            encode::is_constant(src@) ==> encode::constant_end(dst@, start as int, src@, cur),
        decreases src.len() - cur.s,
    {
        proof {
            reveal(round);
        }
        match search_big(dst, start, src, &mut cur, &mut table, dst_limit) {
            Found::GiveUp => {
                return 0;
            },
            Found::Finished => {
                break;
            },
            Found::Match(cand) => {
                if !put_found_match(dst, start, src, &mut cur, cand, dst_limit, MAX_COPY3_LITS) {
                    return 0;
                }
                match chain_big(dst, start, src, &mut cur, &mut table, dst_limit) {
                    None => {
                        return 0;
                    },
                    Some(done) => {
                        if done {
                            break;
                        }
                    },
                }
            },
        }
    }
    finish(dst, start, src, &cur, dst_limit)
}

/// Looks for a match from the cursor on. Matches with the offset of the last
/// copy are written on the way.
fn search_64k(
    dst: &mut Vec<u8>,
    start: usize,
    src: &[u8],
    cur: &mut Cursor,
    table: &mut Vec<u16>,
    dst_limit: usize,
) -> (found: Found)
    requires
        encode::cursor_ok(old(dst)@, start as int, src@, *old(cur)),
        1 <= old(cur).s,
        old(cur).s + INPUT_MARGIN <= src.len(),
        old(dst).len() - start <= dst_limit + 8,
        1 <= dst_limit <= src.len() <= 65536,
        old(table).len() == TABLE_SIZE_64K,
        encode::below16(old(table)@, old(cur).s as int),
    ensures
        start <= final(dst).len(),
        final(dst)@.take(start as int) == old(dst)@.take(start as int),
        final(table).len() == TABLE_SIZE_64K,
        match found {
            Found::Match(cand) => {
                &&& encode::cursor_ok(final(dst)@, start as int, src@, *final(cur))
                &&& old(cur).s <= final(cur).s
                &&& final(cur).s + INPUT_MARGIN + 2 <= src.len()
                &&& cand < final(cur).s
                &&& final(cur).s - cand <= MAX_COPY2_OFFSET
                &&& forall|k: int|
                    0 <= k < 4 ==> src@[final(cur).s + k] == #[trigger] src@[cand + k]
                &&& final(dst).len() - start <= dst_limit + 8
                &&& encode::below16(final(table)@, final(cur).s + 3)
            },
            Found::Finished => {
                &&& encode::cursor_ok(final(dst)@, start as int, src@, *final(cur))
                &&& final(dst).len() - start <= dst_limit + 8
            },
            Found::GiveUp => true,
        },
        encode::constant_start(old(dst)@, start as int, src@, *old(cur)) ==> found is Finished
            && encode::constant_end(final(dst)@, start as int, src@, *final(cur)),
        search(
            false,
            src@,
            dst_limit as int,
            encode::work(old(dst)@, start as int, *old(cur)),
            encode::positions16(old(table)@),
        ) == (match found {
            Found::Match(cand) => Search::Match(
                cand as int,
                encode::work(final(dst)@, start as int, *final(cur)),
                encode::positions16(final(table)@),
            ),
            Found::Finished => Search::Finished(
                encode::work(final(dst)@, start as int, *final(cur)),
            ),
            Found::GiveUp => Search::GiveUp,
        }),
{
    let s_limit: usize = src.len() - INPUT_MARGIN;
    loop
        invariant
            encode::cursor_ok(dst@, start as int, src@, *cur),
            dst@.take(start as int) == old(dst)@.take(start as int),
            1 <= cur.s,
            old(cur).s <= cur.s,
            s_limit + INPUT_MARGIN == src.len(),
            cur.s <= s_limit,
            dst.len() - start <= dst_limit + 8,
            1 <= dst_limit <= src.len() <= 65536,
            table.len() == TABLE_SIZE_64K,
            encode::below16(table@, cur.s as int),
            encode::constant_start(old(dst)@, start as int, src@, *old(cur)) ==> dst@ == old(dst)@ && *cur
                == *old(cur),
            search(
                false,
                src@,
                dst_limit as int,
                encode::work(dst@, start as int, *cur),
                encode::positions16(table@),
            ) == search(
                false,
                src@,
                dst_limit as int,
                encode::work(old(dst)@, start as int, *old(cur)),
                encode::positions16(old(table)@),
            ),
        decreases src.len() - cur.s,
    {
        let s: usize = cur.s;
        let next_s: usize = s + (s - cur.next_emit) / 32 + 4;
        if next_s > s_limit {
            return Found::Finished;
        }
        let cv: u64 = load64(src, s);
        let hash0: usize = slot_64k(cv);
        let hash1: usize = slot_64k(cv / 0x100);
        let hash2: usize = slot_64k(cv / 0x1_0000);
        let ghost before = encode::positions16(table@);
        let c0: usize = table[hash0] as usize;
        let c1: usize = table[hash1] as usize;
        table[hash0] = s as u16;
        table[hash1] = (s + 1) as u16;
        assert(encode::below16(table@, s + 2));
        assert(encode::positions16(table@) =~= before.update(hash0 as int, s as int).update(
            hash1 as int,
            s + 1,
        ));

        if cur.repeat <= s + 1 && same4(src, s + 1, s + 1 - cur.repeat) {
            if !put_repeat_match(dst, start, src, cur, dst_limit) {
                return Found::GiveUp;
            }
            if cur.s >= s_limit {
                return Found::Finished;
            }
            continue;
        }
        proof {
            if encode::constant_start(dst@, start as int, src@, *cur) {
                assert(forall|k: int| 0 <= k < 4 ==> src@[2 + k] == #[trigger] src@[1 + k]);
            }
        }
        if same4(src, s, c0) {
            return Found::Match(c0);
        }
        let c2: usize = table[hash2] as usize;
        table[hash2] = (s + 2) as u16;
        assert(encode::below16(table@, s + 3));
        assert(encode::positions16(table@) =~= before.update(hash0 as int, s as int).update(
            hash1 as int,
            s + 1,
        ).update(hash2 as int, s + 2));
        if same4(src, s + 1, c1) {
            cur.s = s + 1;
            return Found::Match(c1);
        }
        if same4(src, s + 2, c2) {
            cur.s = s + 2;
            return Found::Match(c2);
        }
        cur.s = next_s;
    }
}

/// Writes matches as long as one starts where the last one ended. `None` stands
/// for giving up; otherwise says whether the end of the input is near.
fn chain_64k(
    dst: &mut Vec<u8>,
    start: usize,
    src: &[u8],
    cur: &mut Cursor,
    table: &mut Vec<u16>,
    dst_limit: usize,
) -> (r: Option<bool>)
    requires
        encode::cursor_ok(old(dst)@, start as int, src@, *old(cur)),
        old(cur).next_emit == old(cur).s,
        2 <= old(cur).s,
        old(dst).len() - start <= dst_limit + 60,
        1 <= dst_limit <= src.len() <= 65536,
        src.len() >= MIN_NON_LITERAL_BLOCK_SIZE,
        old(table).len() == TABLE_SIZE_64K,
        old(cur).s + INPUT_MARGIN <= src.len() ==> encode::below16(old(table)@, old(cur).s as int),
    ensures
        start <= final(dst).len(),
        final(dst)@.take(start as int) == old(dst)@.take(start as int),
        final(table).len() == TABLE_SIZE_64K,
        r matches Some(done) ==> {
            &&& encode::cursor_ok(final(dst)@, start as int, src@, *final(cur))
            &&& final(dst).len() - start <= dst_limit + 60
            &&& !done ==> {
                &&& final(dst).len() - start <= dst_limit
                &&& final(cur).s + INPUT_MARGIN <= src.len()
                &&& final(cur).s > old(cur).s
                &&& encode::below16(final(table)@, final(cur).s as int)
            }
        },
        chain(
            false,
            src@,
            dst_limit as int,
            encode::work(old(dst)@, start as int, *old(cur)),
            encode::positions16(old(table)@),
        ) == (match r {
            None => None,
            Some(done) => Some(
                (
                    done,
                    encode::work(final(dst)@, start as int, *final(cur)),
                    encode::positions16(final(table)@),
                ),
            ),
        }),
{
    let s_limit: usize = src.len() - INPUT_MARGIN;
    loop
        invariant
            encode::cursor_ok(dst@, start as int, src@, *cur),
            dst@.take(start as int) == old(dst)@.take(start as int),
            cur.next_emit == cur.s,
            2 <= cur.s,
            cur.s >= old(cur).s,
            s_limit + INPUT_MARGIN == src.len(),
            dst.len() - start <= dst_limit + 60,
            1 <= dst_limit <= src.len() <= 65536,
            table.len() == TABLE_SIZE_64K,
            cur.s + INPUT_MARGIN <= src.len() ==> encode::below16(table@, cur.s as int),
            chain(
                false,
                src@,
                dst_limit as int,
                encode::work(dst@, start as int, *cur),
                encode::positions16(table@),
            ) == chain(
                false,
                src@,
                dst_limit as int,
                encode::work(old(dst)@, start as int, *old(cur)),
                encode::positions16(old(table)@),
            ),
        decreases src.len() - cur.s,
    {
        let s: usize = cur.s;
        if s >= s_limit {
            return Some(true);
        }
        let x: u64 = load64(src, s - 2);
        if dst.len() - start > dst_limit {
            return None;
        }
        let m2_hash: usize = slot_64k(x);
        let curr_hash: usize = slot_64k(x / 0x1_0000);
        let ghost before = encode::positions16(table@);
        let cand: usize = table[curr_hash] as usize;
        table[m2_hash] = (s - 2) as u16;
        table[curr_hash] = s as u16;
        assert(encode::below16(table@, s + 1));
        assert(encode::positions16(table@) =~= before.update(m2_hash as int, s - 2).update(
            curr_hash as int,
            s as int,
        ));
        if !same4(src, s, cand) {
            cur.s = s + 1;
            return Some(false);
        }
        let offset: usize = s - cand;
        let n: usize = match_len_words(src, s + 4, cand + 4);
        let end: usize = s + 4 + n;
        proof {
            assert forall|i: int| s <= i < end implies #[trigger] src@[i] == src@[i - offset] by {
                if i < s + 4 {
                    let k = i - s;
                    assert(src@[s + k] == src@[cand + k]);
                }
            }
        }
        put_copy(dst, start, src, s, cur.repeat, offset, end - s);
        cur.s = end;
        cur.next_emit = end;
        cur.repeat = offset;
    }
}

/// Encodes an input of at most 64 KiB; appends the block body to `dst` and
/// returns its length, or zero where the input does not get smaller.
fn encode_block_64k(dst: &mut Vec<u8>, src: &[u8]) -> (n: usize)
    requires
        MIN_NON_LITERAL_BLOCK_SIZE <= src.len() <= 65536,
    ensures
        encode::encoded_or_not(old(dst)@, final(dst)@, src@, n as int),
        encode::is_outcome(old(dst)@, final(dst)@, n as int, body_of(src@)),
{
    let start: usize = dst.len();
    let mut table: Vec<u16> = vec![0u16; TABLE_SIZE_64K];
    let dst_limit: usize = src.len() - src.len() / 32 - 6;
    let mut cur: Cursor = Cursor { s: 1, next_emit: 0, repeat: 1 };
    proof {
        encode::lemma_faithful_start(dst@, src@);
        assert(dst@.skip(start as int) =~= Seq::<u8>::empty());
        assert(encode::positions16(table@) =~= encode::empty_table(TABLE_SIZE_64K as int));
        assert(dst@.take(start as int) =~= dst@);
    }
    loop
        invariant_except_break
            encode::cursor_ok(dst@, start as int, src@, cur),
            dst@.take(start as int) == old(dst)@,
            1 <= cur.s,
            cur.s + INPUT_MARGIN <= src.len(),
            dst.len() - start <= dst_limit,
            table.len() == TABLE_SIZE_64K,
            encode::below16(table@, cur.s as int),
            encode::is_constant(src@) && src.len() >= 32 ==> encode::constant_start(dst@, start as int, src@, cur),
            greedy(
                false,
                src@,
                dst_limit as int,
                encode::work(dst@, start as int, cur),
                encode::positions16(table@),
            ) == greedy(
                false,
                src@,
                dst_limit as int,
                encode::start_work(),
                encode::empty_table(TABLE_SIZE_64K as int),
            ),
        invariant
            MIN_NON_LITERAL_BLOCK_SIZE <= src.len() <= 65536,
            dst_limit == encode::limit_of(src.len() as int),
            start == old(dst).len(),
        ensures
            greedy(
                false,
                src@,
                dst_limit as int,
                encode::start_work(),
                encode::empty_table(TABLE_SIZE_64K as int),
            ) == Some(encode::work(dst@, start as int, cur)),
            encode::cursor_ok(dst@, start as int, src@, cur),
            dst@.take(start as int) == old(dst)@,
            dst.len() - start <= dst_limit + 60,
            encode::is_constant(src@) && src.len() >= 32 ==> encode::constant_end(dst@, start as int, src@, cur),
        decreases src.len() - cur.s,
    {
        proof {
            reveal(round);
        }
        match search_64k(dst, start, src, &mut cur, &mut table, dst_limit) {
            Found::GiveUp => {
                return 0;
            },
            Found::Finished => {
                break;
            },
            Found::Match(cand) => {
                if !put_found_match(dst, start, src, &mut cur, cand, dst_limit, MAX_COPY2_LITS) {
                    return 0;
                }
                match chain_64k(dst, start, src, &mut cur, &mut table, dst_limit) {
                    None => {
                        return 0;
                    },
                    Some(done) => {
                        if done {
                            break;
                        }
                    },
                }
            },
        }
    }
    finish(dst, start, src, &cur, dst_limit)
}

/// Encodes `src`; appends the block body to `dst` and returns its length, or
/// zero where the input does not get smaller.
pub fn encode_block(dst: &mut Vec<u8>, src: &[u8]) -> (n: usize)
    requires
        src.len() <= MAX_BLOCK_SIZE,
    ensures
        encode::encoded_or_not(old(dst)@, final(dst)@, src@, n as int),
        encode::is_outcome(old(dst)@, final(dst)@, n as int, body_of(src@)),
        src.len() < MIN_NON_LITERAL_BLOCK_SIZE ==> n == 0,
{
    if src.len() < MIN_NON_LITERAL_BLOCK_SIZE {
        assert(dst@.take(dst.len() as int) =~= dst@);
        return 0;
    }
    if src.len() <= 65536 {
        encode_block_64k(dst, src)
    } else {
        encode_block_big(dst, src)
    }
}

} // verus!
