//! The smallest encoder: many candidates for each match, scored by what their
//! encoding saves.
use crate::block::emit;
use crate::block::emit::{emit_copy_size, emit_literal_size_n, emit_repeat_size};
use crate::block::encode;
use crate::block::encode::{
    put_copy, put_copy2, put_copy_lits2, put_copy_lits3, put_literal, put_repeat, Cursor, Work,
};
use crate::block::format::{
    COPY2_LIT_MAX_LEN, MAX_BLOCK_SIZE, MAX_COPY1_OFFSET, MAX_COPY2_LITS, MAX_COPY2_OFFSET,
    MAX_COPY3_LITS, MAX_COPY3_OFFSET, MIN_COPY2_OFFSET, MIN_NON_LITERAL_BLOCK_SIZE,
};
use crate::block::hash;
use crate::block::hash::{hash4, hash8};
use crate::block::load_store;
use crate::block::load_store::{load64, same4};
use crate::block::match_len;
use crate::block::match_len::{extend_back, match_len};
use vstd::arithmetic::power2;
use vstd::prelude::*;

verus! {

/// The search stops this many bytes before the end of the input.
pub const INPUT_MARGIN_L3: usize = 10;

pub const L_TABLE_BITS: u32 = 20;

pub const L_TABLE_SIZE: usize = 1_048_576;

pub const S_TABLE_BITS: u32 = 18;

pub const S_TABLE_SIZE: usize = 262_144;

pub const MAX_SKIP: usize = 64;

/// The newer of the two positions in a table entry.
pub fn get_cur(x: u64) -> (r: usize)
    ensures
        r == x % 0x1_0000_0000,
{
    (x % 0x1_0000_0000) as usize
}

/// The older of the two positions in a table entry.
pub fn get_prev(x: u64) -> (r: usize)
    ensures
        r == x / 0x1_0000_0000,
{
    (x / 0x1_0000_0000) as usize
}

/// A table entry with `new_cur` as the newer position and the newer position of
/// `prev_entry` as the older one.
pub open spec fn packed(new_cur: int, prev_entry: u64) -> u64 {
    (new_cur + prev_entry as int % 0x1_0000_0000 * 0x1_0000_0000) as u64
}

/// A table entry with `new_cur` as the newer position and the newer position of
/// `prev_entry` as the older one.
pub fn pack_entry(new_cur: usize, prev_entry: u64) -> (r: u64)
    requires
        new_cur < 0x1_0000_0000,
    ensures
        r % 0x1_0000_0000 == new_cur,
        r / 0x1_0000_0000 == prev_entry % 0x1_0000_0000,
        r == packed(new_cur as int, prev_entry),
{
    new_cur as u64 + (prev_entry % 0x1_0000_0000) * 0x1_0000_0000
}

/// A candidate match: `length` bytes at `s` that also stand at `offset`.
#[derive(Clone, Copy)]
pub struct Match {
    /// The earlier position.
    pub offset: usize,
    /// The position.
    pub s: usize,
    /// The length; zero where there is no match.
    pub length: usize,
    /// What it is worth; only compared with that of other candidates.
    pub score: i64,
    /// Whether the offset is that of the last copy.
    pub rep: bool,
    /// Whether the input matches again one byte behind the match.
    pub nextrep: bool,
}

/// No match between `s` and `offset`.
pub open spec fn spec_no_match(offset: usize, s: usize) -> Match {
    Match { offset, s, length: 0, score: 0, rep: false, nextrep: false }
}

/// No match between `s` and `offset`.
fn no_match(offset: usize, s: usize) -> (m: Match)
    ensures
        m == spec_no_match(offset, s),
{
    Match { offset, s, length: 0, score: 0, rep: false, nextrep: false }
}

/// What a match is worth: its length less what writing it and the literals
/// before it takes, less its position.
pub open spec fn spec_score(m: Match, next_emit: int) -> int {
    let lits = m.s - next_emit;
    let offset = m.s - m.offset;
    let plain = m.length - emit::literal_size_n(lits) - m.s;
    if m.rep {
        plain - emit::repeat_size(m.length as int)
    } else {
        let fused2 = lits <= MAX_COPY2_LITS && offset < 65599 && m.length <= COPY2_LIT_MAX_LEN;
        let fused3 = lits <= MAX_COPY3_LITS;
        let bonus: int = if lits > 0 && offset > 1024 && (fused2 || fused3) {
            1
        } else {
            0
        };
        plain + bonus - emit::copy_size(offset, m.length as int)
    }
}

/// What a match is worth.
pub fn score(m: &Match, next_emit: usize) -> (r: i64)
    requires
        next_emit <= m.s <= MAX_BLOCK_SIZE,
        m.offset < m.s,
        m.length <= MAX_BLOCK_SIZE,
        !m.rep ==> m.length >= 4,
    ensures
        r == spec_score(*m, next_emit as int),
        -0x4000_0000 < r < 0x4000_0000,
{
    let lits: usize = m.s - next_emit;
    let plain: i64 = m.length as i64 - emit_literal_size_n(lits) as i64 - m.s as i64;
    let offset: usize = m.s - m.offset;
    if m.rep {
        return plain - emit_repeat_size(m.length) as i64;
    }
    let mut score: i64 = plain;
    if lits > 0 && offset > 1024 {
        let fused_copy2 = lits <= MAX_COPY2_LITS && offset < 65536 + 63 && m.length
            <= COPY2_LIT_MAX_LEN;
        let fused_copy3 = lits <= MAX_COPY3_LITS;
        if fused_copy2 || fused_copy3 {
            score = score + 1;
        }
    }
    proof {
        emit::lemma_sizes(offset as int, m.length as int);
    }
    score - emit_copy_size(offset, m.length) as i64
}

/// The four bytes at `a` and at `b`, if they are all in the input and the match
/// that ends before them does so before `s_limit`, are the same.
pub open spec fn repeats_again(src: Seq<u8>, end: int, back: int, s_limit: int) -> bool {
    &&& end < s_limit
    &&& end + 5 <= src.len()
    &&& back + 5 <= src.len()
    &&& forall|k: int| 0 <= k < 4 ==> src[end + 1 + k] == #[trigger] src[back + 1 + k]
}

/// Whether the input matches again one byte behind a match that ends at `end`
/// and, on the earlier side, at `back`.
fn check_repeats_again(src: &[u8], end: usize, back: usize, s_limit: usize) -> (r: bool)
    requires
        end <= src.len(),
        back <= src.len(),
    ensures
        r == repeats_again(src@, end as int, back as int, s_limit as int),
{
    if end < s_limit && src.len() - end >= 5 && src.len() - back >= 5 {
        same4(src, end + 1, back + 1)
    } else {
        false
    }
}

/// `s` and `offset` are not tried as a match: one beside them is as good, they
/// are too far apart or in the wrong order, or their first four bytes differ.
pub open spec fn match_rejected(src: Seq<u8>, offset: int, s: int, best: Match) -> bool {
    ||| best.length != 0 && best.s - best.offset == s - offset
    ||| s - offset >= MAX_COPY3_OFFSET
    ||| s <= offset
    ||| offset == 0
    ||| !(forall|k: int| 0 <= k < 4 ==> src[s + k] == #[trigger] src[offset + k])
}

/// The match of `s` with `offset`, extended both ways as far as it goes.
pub open spec fn full_match(src: Seq<u8>, offset: int, s: int, next_emit: int, rep: bool) -> Match {
    let back = match_len::common_back(src, s, offset, next_emit);
    Match {
        offset: (offset - back) as usize,
        s: (s - back) as usize,
        length: (back + match_len::common_len(src, s, offset)) as usize,
        score: 0,
        rep,
        nextrep: false,
    }
}

/// The match of `s` with `offset`, if there is one that is worth writing.
pub open spec fn spec_match_at(
    src: Seq<u8>,
    offset: usize,
    s: usize,
    best: Match,
    next_emit: int,
    s_limit: int,
) -> Match {
    if match_rejected(src, offset as int, s as int, best) {
        spec_no_match(offset, s)
    } else {
        let m = full_match(src, offset as int, s as int, next_emit, false);
        let score = spec_score(m, next_emit);
        let length: int = if score <= -m.s {
            0
        } else {
            m.length as int
        };
        Match {
            length: length as usize,
            score: score as i64,
            nextrep: repeats_again(src, m.s + length, m.offset + length, s_limit),
            ..m
        }
    }
}

/// Any match that comes up is one that can be written: it lies behind what has
/// been written, its bytes agree, and its offset is within reach.
pub open spec fn match_ok(m: Match, src: Seq<u8>, next_emit: int, repeat: int) -> bool {
    m.length > 0 ==> {
        &&& next_emit <= m.s
        &&& emit::is_match(src, m.s as int, m.s - m.offset, m.length as int)
        &&& m.rep ==> m.s - m.offset == repeat && m.length >= 3
        &&& !m.rep ==> m.s - m.offset <= MAX_COPY3_OFFSET && m.length >= 4
    }
}

/// The match of `s` with `offset`, if there is one that is worth writing.
pub fn match_at(
    src: &[u8],
    offset: usize,
    s: usize,
    best: &Match,
    next_emit: usize,
    s_limit: usize,
) -> (r: Match)
    requires
        src.len() <= MAX_BLOCK_SIZE,
        s + 4 <= src.len(),
        next_emit <= s,
        best.length != 0 ==> best.offset <= best.s,
    ensures
        r == spec_match_at(src@, offset, s, *best, next_emit as int, s_limit as int),
        forall|repeat: int| #[trigger] match_ok(r, src@, next_emit as int, repeat),
{
    if s <= offset || offset == 0 || s - offset >= MAX_COPY3_OFFSET || (best.length != 0 && best.s
        - best.offset == s - offset) || !same4(src, s, offset) {
        return no_match(offset, s);
    }
    let back: usize = extend_back(src, s, offset, next_emit);
    let n: usize = match_len(src, s, offset);
    let mut m: Match = Match {
        offset: offset - back,
        s: s - back,
        length: back + n,
        score: 0,
        rep: false,
        nextrep: false,
    };
    proof {
        assert(n >= 4) by {
            if n < 4 {
                assert(src@[s + n] == src@[offset + n]);
            }
        }
        assert(m == full_match(src@, offset as int, s as int, next_emit as int, false));
        assert forall|i: int| m.s <= i < m.s + m.length implies #[trigger] src@[i] == src@[i - (m.s
            - m.offset)] by {}
        assert(emit::is_match(src@, m.s as int, m.s - m.offset, m.length as int));
    }
    m.score = score(&m, next_emit);
    if m.score <= -(m.s as i64) {
        m.length = 0;
    }
    m.nextrep = check_repeats_again(src, m.s + m.length, m.offset + m.length, s_limit);
    m
}

/// `s` and `offset` are not tried as a repeat: one was found already, they are
/// in the wrong order, or their first three bytes differ.
pub open spec fn repeat_rejected(src: Seq<u8>, offset: int, s: int, best: Match) -> bool {
    ||| best.rep
    ||| s <= offset
    ||| offset == 0
    ||| !(forall|k: int| 0 <= k < 3 ==> src[s + k] == #[trigger] src[offset + k])
}

/// The match of `s` with `offset`, which lies the offset of the last copy back.
pub open spec fn spec_match_at_repeat(
    src: Seq<u8>,
    offset: usize,
    s: usize,
    best: Match,
    next_emit: int,
    s_limit: int,
) -> Match {
    if repeat_rejected(src, offset as int, s as int, best) {
        spec_no_match(offset, s)
    } else {
        let m = full_match(src, offset as int, s as int, next_emit, true);
        Match {
            score: spec_score(m, next_emit) as i64,
            nextrep: repeats_again(src, m.s + m.length, m.offset + m.length, s_limit),
            ..m
        }
    }
}

/// The match of `s` with `offset`, which lies the offset of the last copy back,
/// if there is one.
pub fn match_at_repeat(
    src: &[u8],
    offset: usize,
    s: usize,
    best: &Match,
    next_emit: usize,
    s_limit: usize,
) -> (r: Match)
    requires
        src.len() <= MAX_BLOCK_SIZE,
        s + 4 <= src.len(),
        next_emit <= s,
    ensures
        r == spec_match_at_repeat(src@, offset, s, *best, next_emit as int, s_limit as int),
        match_ok(r, src@, next_emit as int, s - offset),
{
    if best.rep || s <= offset || offset == 0 {
        return no_match(offset, s);
    }
    let same = src[s] == src[offset] && src[s + 1] == src[offset + 1] && src[s + 2] == src[offset
        + 2];
    proof {
        assert(src@[offset + 0] == src@[offset as int]);
        if same {
            assert forall|k: int| 0 <= k < 3 implies src@[s + k] == #[trigger] src@[offset + k] by {
                assert(k == 0 || k == 1 || k == 2);
            }
        }
    }
    if !same {
        return no_match(offset, s);
    }
    let back: usize = extend_back(src, s, offset, next_emit);
    let n: usize = match_len(src, s, offset);
    let mut m: Match = Match {
        offset: offset - back,
        s: s - back,
        length: back + n,
        score: 0,
        rep: true,
        nextrep: false,
    };
    proof {
        assert(n >= 3) by {
            if n < 3 {
                assert(src@[s + n] == src@[offset + n]);
            }
        }
        assert(m == full_match(src@, offset as int, s as int, next_emit as int, true));
        assert forall|i: int| m.s <= i < m.s + m.length implies #[trigger] src@[i] == src@[i - (m.s
            - m.offset)] by {}
        assert(emit::is_match(src@, m.s as int, m.s - m.offset, m.length as int));
    }
    m.nextrep = check_repeats_again(src, m.s + m.length, m.offset + m.length, s_limit);
    m.score = score(&m, next_emit);
    m
}

/// The better of two candidates: the one with the higher score; of equals the
/// one that starts earlier, then the one that is followed by a repeat, then the
/// one with the smaller distance.
pub open spec fn spec_best_of(a: Match, b: Match) -> Match {
    if b.length == 0 {
        a
    } else if a.length == 0 {
        b
    } else if a.score != b.score {
        if a.score > b.score {
            a
        } else {
            b
        }
    } else if a.s != b.s {
        if a.s < b.s {
            a
        } else {
            b
        }
    } else if a.nextrep != b.nextrep {
        if a.nextrep {
            a
        } else {
            b
        }
    } else if a.offset > b.offset {
        a
    } else {
        b
    }
}

/// The better of two candidates.
pub fn best_of(a: Match, b: Match) -> (r: Match)
    ensures
        r == spec_best_of(a, b),
{
    if b.length == 0 {
        return a;
    }
    if a.length == 0 {
        return b;
    }
    if a.score > b.score {
        return a;
    }
    if b.score > a.score {
        return b;
    }
    if a.s != b.s {
        return if a.s < b.s {
            a
        } else {
            b
        };
    }
    if a.nextrep != b.nextrep {
        return if a.nextrep {
            a
        } else {
            b
        };
    }
    if a.offset > b.offset {
        a
    } else {
        b
    }
}

/// Where the search for a match stands: the input, the first byte not yet
/// written, and the offset of the last copy.
pub struct Outlook {
    pub src: Seq<u8>,
    pub next_emit: int,
    pub repeat: int,
}

impl Outlook {
    /// The search stops here.
    pub open spec fn s_limit(self) -> int {
        self.src.len() - INPUT_MARGIN_L3
    }

    /// `best` or the match of `s` with `offset`.
    pub open spec fn tried(self, best: Match, offset: int, s: int) -> Match {
        spec_best_of(
            best,
            spec_match_at(
                self.src,
                offset as usize,
                s as usize,
                best,
                self.next_emit,
                self.s_limit(),
            ),
        )
    }

    /// `best` or a match of `s` with one of the two positions of a table entry, moved
    /// back by `back`; with `back`, a position has to lie behind it.
    #[verifier::opaque]
    pub open spec fn with_entry(self, best: Match, entry: u64, back: Option<int>, s: int) -> Match {
        let cur = entry as int % 0x1_0000_0000;
        let prev = entry as int / 0x1_0000_0000;
        match back {
            None => self.tried(self.tried(best, cur, s), prev, s),
            Some(n) => {
                let one = if cur > n {
                    self.tried(best, cur - n, s)
                } else {
                    best
                };
                if prev > n {
                    self.tried(one, prev - n, s)
                } else {
                    one
                }
            },
        }
    }

    /// `best` or the match of `s` by the offset of the last copy.
    #[verifier::opaque]
    pub open spec fn with_repeat(self, best: Match, s: int) -> Match {
        if s < self.repeat {
            best
        } else {
            spec_best_of(
                best,
                spec_match_at_repeat(
                    self.src,
                    (s - self.repeat) as usize,
                    s as usize,
                    best,
                    self.next_emit,
                    self.s_limit(),
                ),
            )
        }
    }

    /// `best` or a better match one or two bytes behind `s`.
    #[verifier::opaque]
    pub open spec fn ahead(self, best: Match, s: int, t: Tables) -> Match {
        let x1 = load_store::bytes_at(self.src, s + 1);
        let x2 = load_store::bytes_at(self.src, s + 2);
        let a = self.with_entry(best, t.short[short_slot(x1)], None, s + 1);
        let b = self.with_entry(a, t.long[long_slot(x1)], None, s + 1);
        let c = self.with_repeat(b, s + 2);
        let d = self.with_entry(c, t.short[short_slot(x2)], None, s + 2);
        self.with_entry(d, t.long[long_slot(x2)], None, s + 2)
    }

    /// `best` or a better match among the positions that match near the end of `best`.
    #[verifier::opaque]
    pub open spec fn at_end(self, best: Match, t: Tables) -> Match {
        let at = best.s + best.length - 1;
        if at >= self.s_limit() || best.length <= 3 {
            best
        } else {
            let x = load_store::bytes_at(self.src, at);
            let back = Some(best.length - 2);
            let a = self.with_entry(best, t.long[long_slot(x)], back, best.s + 1);
            self.with_entry(a, t.short[short_slot(x)], back, best.s + 1)
        }
    }

    /// The best match that comes up at `s`; one of no length where there is none.
    #[verifier::opaque]
    pub open spec fn best_at(self, s: int, t: Tables) -> Match {
        let x = load_store::bytes_at(self.src, s);
        let a = self.with_entry(spec_no_match(0, 0), t.long[long_slot(x)], None, s);
        let b = self.with_entry(a, t.short[short_slot(x)], None, s);
        let c = if s < self.repeat {
            b
        } else if s < self.s_limit() {
            self.with_repeat(self.with_repeat(b, s), s + 1)
        } else {
            self.with_repeat(b, s)
        };
        if c.length > 0 {
            self.at_end(self.ahead(c, s, t), t)
        } else {
            c
        }
    }

    /// The best match from `s` on, with the position at which it comes up; nothing
    /// where the end of the input is near. The positions looked at are recorded.
    pub open spec fn best_from(self, s: int, t: Tables) -> (Option<(Match, int)>, Tables)
        decreases self.src.len() - s,
        when self.next_emit <= s
    {
        let step = (s - self.next_emit) / 256 + 1;
        let next_s = if step > MAX_SKIP {
            s + MAX_SKIP
        } else {
            s + step
        };
        if next_s > self.s_limit() {
            (None, t)
        } else {
            let m = self.best_at(s, t);
            let now = recorded(self.src, t, s);
            if m.length > 0 {
                (Some((m, s)), now)
            } else {
                self.best_from(next_s, now)
            }
        }
    }
}

/// Where a position is recorded by the eight bytes at it.
#[verifier::opaque]
pub open spec fn long_slot(x: u64) -> int {
    hash::spec_hash(x, 1, hash::PRIME8, L_TABLE_BITS)
}

/// Where a position is recorded by four of the bytes at it.
#[verifier::opaque]
pub open spec fn short_slot(x: u64) -> int {
    hash::spec_hash4(x, S_TABLE_BITS)
}

/// The positions recorded, two for each hash.
pub struct Tables {
    /// By eight bytes.
    pub long: Seq<u64>,
    /// By four bytes.
    pub short: Seq<u64>,
}

/// Tables in which nothing has been recorded.
pub open spec fn empty_tables() -> Tables {
    Tables {
        long: Seq::new(L_TABLE_SIZE as nat, |i: int| 0u64),
        short: Seq::new(S_TABLE_SIZE as nat, |i: int| 0u64),
    }
}

/// `i` has been recorded in both tables.
pub open spec fn recorded(src: Seq<u8>, t: Tables, i: int) -> Tables {
    let x = load_store::bytes_at(src, i);
    Tables {
        long: t.long.update(long_slot(x), packed(i, t.long[long_slot(x)])),
        short: t.short.update(short_slot(x), packed(i, t.short[short_slot(x)])),
    }
}

/// The positions `from..to` have been recorded.
pub open spec fn recorded_range(src: Seq<u8>, t: Tables, from: int, to: int) -> Tables
    decreases to - from,
{
    if from < to {
        recorded_range(src, recorded(src, t, from), from + 1, to)
    } else {
        t
    }
}

/// What becomes of a match.
pub enum Written {
    /// It is written.
    Wrote(Work),
    /// Writing it would not pay.
    Skip,
    /// The output grew too large.
    GiveUp,
}

/// The bytes for `m` and the literals before it, from `next_emit` on, and how many
/// bytes of the match they stand for.
pub open spec fn match_bytes(src: Seq<u8>, next_emit: int, m: Match) -> (Seq<u8>, int) {
    let base = m.s as int;
    let offset = m.s - m.offset;
    let length = m.length as int;
    let lits = base - next_emit;
    let literal = encode::literal(src, next_emit, base);
    let copied = if 18 < length <= 64 && MIN_COPY2_OFFSET <= offset <= MAX_COPY2_OFFSET {
        encode::copied2(offset, length)
    } else {
        encode::copied(offset, length)
    };
    if m.rep {
        (literal + encode::repeated(length), length)
    } else if lits == 0 {
        (copied, length)
    } else if offset > MAX_COPY2_OFFSET {
        if lits > MAX_COPY3_LITS {
            (literal + copied, length)
        } else {
            (encode::fused3(src, next_emit, base, offset, length), length)
        }
    } else if lits > MAX_COPY2_LITS || offset < MIN_COPY2_OFFSET || (offset <= MAX_COPY1_OFFSET
        && length > COPY2_LIT_MAX_LEN) {
        (literal + copied, length)
    } else if length > COPY2_LIT_MAX_LEN {
        (
            encode::fused2(src, next_emit, base, offset, COPY2_LIT_MAX_LEN as int),
            COPY2_LIT_MAX_LEN as int,
        )
    } else {
        (encode::fused2(src, next_emit, base, offset, length), length)
    }
}

/// What becomes of `m` and the literals before it.
pub open spec fn best_match(src: Seq<u8>, limit: int, w: Work, m: Match) -> Written {
    let offset = m.s - m.offset;
    let lits = m.s - w.next_emit;
    if w.body.len() + lits > limit {
        Written::GiveUp
    } else if !m.rep && m.length <= 4 && (offset > 65535 || (MAX_COPY1_OFFSET < offset
        <= MAX_COPY2_OFFSET && lits > MAX_COPY2_LITS)) {
        Written::Skip
    } else {
        let (bytes, length) = match_bytes(src, w.next_emit, m);
        Written::Wrote(
            Work {
                body: w.body + bytes,
                s: m.s + length,
                next_emit: m.s + length,
                repeat: offset,
            },
        )
    }
}

/// One search, and what becomes of the match it finds. With the result comes
/// whether the end of the input is near; nothing where the output grows too large.
#[verifier::opaque]
pub open spec fn round(
    src: Seq<u8>,
    limit: int,
    w: Work,
    t: Tables,
) -> Option<(bool, Work, Tables)> {
    let o = Outlook { src, next_emit: w.next_emit, repeat: w.repeat };
    match o.best_from(w.s, t) {
        (None, t) => Some((true, w, t)),
        (Some((m, s)), t) => match best_match(src, limit, w, m) {
            Written::GiveUp => None,
            Written::Skip => Some((s + 2 >= o.s_limit(), Work { s: s + 2, ..w }, t)),
            Written::Wrote(v) => if v.s >= o.s_limit() {
                Some((true, v, t))
            } else if v.body.len() > limit {
                None
            } else {
                Some((false, v, recorded_range(src, t, s + 1, v.s)))
            },
        },
    }
}

/// Matches are looked for and written up to the end of the input; nothing where
/// the output grows too large. Every round moves on what is written, or else the
/// cursor.
pub open spec fn smallest(src: Seq<u8>, limit: int, w: Work, t: Tables) -> Option<Work>
    decreases src.len() - w.next_emit, src.len() - w.s,
{
    match round(src, limit, w, t) {
        None => None,
        Some((done, v, t)) => if done {
            Some(v)
        } else if w.next_emit < v.next_emit <= src.len() || (w.next_emit == v.next_emit && w.s < v.s
            <= src.len()) {
            smallest(src, limit, v, t)
        } else {
            None
        },
    }
}

/// The body of `src` by the smallest encoder; nothing where it does not get
/// smaller.
pub open spec fn body_of(src: Seq<u8>) -> Option<Seq<u8>> {
    if src.len() < MIN_NON_LITERAL_BLOCK_SIZE {
        None
    } else {
        let limit = src.len() - 5;
        match smallest(src, limit, encode::start_work(), empty_tables()) {
            None => None,
            Some(w) => {
                let lits = src.len() - w.next_emit;
                if lits <= 0 {
                    Some(w.body)
                } else if w.body.len() + lits + emit::literal_size_n(lits) > limit {
                    None
                } else {
                    Some(w.body + encode::literal(src, w.next_emit, src.len() as int))
                }
            },
        }
    }
}

/// Where a position is recorded by eight bytes.
fn long_slot_of(x: u64) -> (r: usize)
    ensures
        r == long_slot(x),
        r < L_TABLE_SIZE,
{
    proof {
        power2::lemma2_to64();
        reveal(long_slot);
    }
    hash8(x, L_TABLE_BITS) as usize
}

/// Where a position is recorded by four bytes.
fn short_slot_of(x: u64) -> (r: usize)
    ensures
        r == short_slot(x),
        r < S_TABLE_SIZE,
{
    proof {
        power2::lemma2_to64();
        reveal(short_slot);
    }
    hash4(x, S_TABLE_BITS) as usize
}

/// `best` and the two positions of a table entry, tried as matches of `s`.
fn try_entry(
    best: Match,
    src: &[u8],
    entry: u64,
    s: usize,
    next_emit: usize,
    repeat: usize,
    s_limit: usize,
) -> (r: Match)
    requires
        s_limit + INPUT_MARGIN_L3 == src.len(),
        src.len() <= MAX_BLOCK_SIZE,
        s + 4 <= src.len(),
        next_emit <= s,
        match_ok(best, src@, next_emit as int, repeat as int),
    ensures
        match_ok(r, src@, next_emit as int, repeat as int),
        best.length > 0 ==> r.length > 0,
        entry == 0 ==> r == best,
        r == (Outlook { src: src@, next_emit: next_emit as int, repeat: repeat as int }).with_entry(best, entry, None, s as int),
{
    proof {
        reveal(Outlook::with_entry);
    }
    let a: Match = best_of(best, match_at(src, get_cur(entry), s, &best, next_emit, s_limit));
    assert(match_ok(a, src@, next_emit as int, repeat as int));
    best_of(a, match_at(src, get_prev(entry), s, &a, next_emit, s_limit))
}

/// `best` and the two positions of a table entry, moved back by `back`, tried as
/// matches of `s`.
fn try_entry_back(
    best: Match,
    src: &[u8],
    entry: u64,
    back: usize,
    s: usize,
    next_emit: usize,
    repeat: usize,
    s_limit: usize,
) -> (r: Match)
    requires
        s_limit + INPUT_MARGIN_L3 == src.len(),
        src.len() <= MAX_BLOCK_SIZE,
        s + 4 <= src.len(),
        next_emit <= s,
        match_ok(best, src@, next_emit as int, repeat as int),
    ensures
        match_ok(r, src@, next_emit as int, repeat as int),
        best.length > 0 ==> r.length > 0,
        r == (Outlook { src: src@, next_emit: next_emit as int, repeat: repeat as int }).with_entry(best, entry, Some(back as int), s as int),
{
    proof {
        reveal(Outlook::with_entry);
    }
    let mut best: Match = best;
    let cur: usize = get_cur(entry);
    if cur > back {
        best = best_of(best, match_at(src, cur - back, s, &best, next_emit, s_limit));
    }
    assert(match_ok(best, src@, next_emit as int, repeat as int));
    let prev: usize = get_prev(entry);
    if prev > back {
        best = best_of(best, match_at(src, prev - back, s, &best, next_emit, s_limit));
    }
    best
}

/// `best` and the position `repeat` before `s`, tried as a repeat.
fn try_repeat(
    best: Match,
    src: &[u8],
    s: usize,
    next_emit: usize,
    repeat: usize,
    s_limit: usize,
) -> (r: Match)
    requires
        s_limit + INPUT_MARGIN_L3 == src.len(),
        src.len() <= MAX_BLOCK_SIZE,
        s + 4 <= src.len(),
        next_emit <= s,
        match_ok(best, src@, next_emit as int, repeat as int),
    ensures
        match_ok(r, src@, next_emit as int, repeat as int),
        best.length > 0 ==> r.length > 0,
        repeat <= s ==> r == spec_best_of(
            best,
            spec_match_at_repeat(
                src@,
                (s - repeat) as usize,
                s,
                best,
                next_emit as int,
                s_limit as int,
            ),
        ),
        best.rep ==> r == best,
        r == (Outlook { src: src@, next_emit: next_emit as int, repeat: repeat as int }).with_repeat(best, s as int),
{
    proof {
        reveal(Outlook::with_repeat);
    }
    if s < repeat {
        return best;
    }
    best_of(best, match_at_repeat(src, s - repeat, s, &best, next_emit, s_limit))
}

/// Looks for a better match than `best` one and two bytes behind `s`.
fn look_ahead(
    best: Match,
    src: &[u8],
    s: usize,
    next_emit: usize,
    repeat: usize,
    s_limit: usize,
    l_table: &Vec<u64>,
    s_table: &Vec<u64>,
) -> (r: Match)
    requires
        s_limit + INPUT_MARGIN_L3 == src.len(),
        src.len() <= MAX_BLOCK_SIZE,
        s + INPUT_MARGIN_L3 <= src.len(),
        next_emit <= s,
        best.length > 0,
        match_ok(best, src@, next_emit as int, repeat as int),
        l_table.len() == L_TABLE_SIZE,
        s_table.len() == S_TABLE_SIZE,
    ensures
        r.length > 0,
        match_ok(r, src@, next_emit as int, repeat as int),
        best.rep && all_zero(l_table@) && all_zero(s_table@) ==> r == best,
        r == (Outlook { src: src@, next_emit: next_emit as int, repeat: repeat as int }).ahead(best, s as int, (Tables { long: l_table@, short: s_table@ })),
{
    proof {
        reveal(Outlook::ahead);
    }
    let mut best: Match = best;
    let cv1: u64 = load64(src, s + 1);
    let next_short: u64 = s_table[short_slot_of(cv1)];
    let next_long: u64 = l_table[long_slot_of(cv1)];
    best = try_entry(best, src, next_short, s + 1, next_emit, repeat, s_limit);
    best = try_entry(best, src, next_long, s + 1, next_emit, repeat, s_limit);
    let cv2: u64 = load64(src, s + 2);
    let next_long2: u64 = l_table[long_slot_of(cv2)];
    best = try_repeat(best, src, s + 2, next_emit, repeat, s_limit);
    let next_short2: u64 = s_table[short_slot_of(cv2)];
    best = try_entry(best, src, next_short2, s + 2, next_emit, repeat, s_limit);
    try_entry(best, src, next_long2, s + 2, next_emit, repeat, s_limit)
}

/// Looks for a better match than `best` among the positions that match near the
/// end of `best`.
fn look_at_end(
    best: Match,
    src: &[u8],
    next_emit: usize,
    repeat: usize,
    s_limit: usize,
    l_table: &Vec<u64>,
    s_table: &Vec<u64>,
) -> (r: Match)
    requires
        src.len() <= MAX_BLOCK_SIZE,
        s_limit + INPUT_MARGIN_L3 == src.len(),
        best.length > 0,
        match_ok(best, src@, next_emit as int, repeat as int),
        l_table.len() == L_TABLE_SIZE,
        s_table.len() == S_TABLE_SIZE,
    ensures
        r.length > 0,
        match_ok(r, src@, next_emit as int, repeat as int),
        best.s + best.length > s_limit ==> r == best,
        r == (Outlook { src: src@, next_emit: next_emit as int, repeat: repeat as int }).at_end(best, (Tables { long: l_table@, short: s_table@ })),
{
    proof {
        reveal(Outlook::at_end);
    }
    let mut best: Match = best;
    let s_at: usize = best.s + best.length - 1;
    if s_at >= s_limit || best.length <= 3 {
        return best;
    }
    let s_back: usize = best.s + 1;
    let back: usize = best.length - 2;
    let cv_at: u64 = load64(src, s_at);
    let next_long: u64 = l_table[long_slot_of(cv_at)];
    best = try_entry_back(best, src, next_long, back, s_back, next_emit, repeat, s_limit);
    let next_short: u64 = s_table[short_slot_of(cv_at)];
    try_entry_back(best, src, next_short, back, s_back, next_emit, repeat, s_limit)
}

/// All entries are zero.
spec fn all_zero(table: Seq<u64>) -> bool {
    forall|i: int| 0 <= i < table.len() ==> #[trigger] table[i] == 0
}

/// In an input that is one byte over and over, the repeat at the start covers
/// all but the first byte.
proof fn lemma_constant_repeat(src: Seq<u8>, best: Match, s_limit: int)
    requires
        encode::is_constant(src),
        32 <= src.len() <= MAX_BLOCK_SIZE,
        !best.rep,
    ensures
        ({
            let m = spec_match_at_repeat(src, 1, 2, best, 0, s_limit);
            &&& m.s == 1
            &&& m.offset == 0
            &&& m.length == src.len() - 1
            &&& m.rep
        }),
{
    assert(forall|k: int| 0 <= k < 3 ==> src[2 + k] == #[trigger] src[1 + k]);
    match_len::lemma_common_len(src, 2, 1);
    let n = match_len::common_len(src, 2, 1);
    if 2 + n < src.len() {
        assert(src[2 + n] == src[0]);
        assert(src[1 + n] == src[0]);
    }
    reveal_with_fuel(match_len::common_back, 3);
}

/// Looks for the best match from `s` on. Gives it with the position at which it
/// came up, or nothing where the end of the input is near.
fn find_best(
    src: &[u8],
    cur: &Cursor,
    l_table: &mut Vec<u64>,
    s_table: &mut Vec<u64>,
) -> (r: Option<(Match, usize)>)
    requires
        MIN_NON_LITERAL_BLOCK_SIZE <= src.len() <= MAX_BLOCK_SIZE,
        cur.next_emit <= cur.s,
        1 <= cur.s,
        1 <= cur.repeat,
        cur.s + INPUT_MARGIN_L3 <= src.len(),
        old(l_table).len() == L_TABLE_SIZE,
        old(s_table).len() == S_TABLE_SIZE,
    ensures
        final(l_table).len() == L_TABLE_SIZE,
        final(s_table).len() == S_TABLE_SIZE,
        r matches Some((m, s)) ==> {
            &&& m.length > 0
            &&& match_ok(m, src@, cur.next_emit as int, cur.repeat as int)
            &&& cur.s <= s
            &&& s + INPUT_MARGIN_L3 <= src.len()
        },
        encode::is_constant(src@) && src.len() >= 32 && cur.s == 1 && cur.next_emit == 0
            && cur.repeat == 1 && all_zero(old(l_table)@) && all_zero(old(s_table)@) ==> (
        r matches Some((m, s)) && m.s == 1 && m.offset == 0 && m.length == src.len() - 1 && m.rep),
        (Outlook {
            src: src@,
            next_emit: cur.next_emit as int,
            repeat: cur.repeat as int,
        }).best_from(cur.s as int, Tables { long: old(l_table)@, short: old(s_table)@ }) == (
            match r {
                None => None,
                Some((m, s)) => Some((m, s as int)),
            },
            Tables { long: final(l_table)@, short: final(s_table)@ },
        ),
{
    let s_limit: usize = src.len() - INPUT_MARGIN_L3;
    let next_emit: usize = cur.next_emit;
    let repeat: usize = cur.repeat;
    let mut s: usize = cur.s;
    let ghost o = Outlook {
        src: src@,
        next_emit: cur.next_emit as int,
        repeat: cur.repeat as int,
    };
    let ghost constant = encode::is_constant(src@) && src.len() >= 32 && cur.s == 1
        && cur.next_emit == 0 && cur.repeat == 1 && all_zero(old(l_table)@) && all_zero(
        old(s_table)@,
    );
    loop
        invariant
            MIN_NON_LITERAL_BLOCK_SIZE <= src.len() <= MAX_BLOCK_SIZE,
            s_limit + INPUT_MARGIN_L3 == src.len(),
            next_emit == cur.next_emit,
            repeat == cur.repeat,
            next_emit <= s,
            1 <= cur.s <= s <= s_limit,
            1 <= repeat,
            l_table.len() == L_TABLE_SIZE,
            s_table.len() == S_TABLE_SIZE,
            constant == (encode::is_constant(src@) && src.len() >= 32 && cur.s == 1
                && cur.next_emit == 0 && cur.repeat == 1 && all_zero(old(l_table)@) && all_zero(
                old(s_table)@,
            )),
            constant ==> s == 1 && all_zero(l_table@) && all_zero(s_table@),
            o == (Outlook {
                src: src@,
                next_emit: cur.next_emit as int,
                repeat: cur.repeat as int,
            }),
            o.best_from(s as int, Tables { long: l_table@, short: s_table@ }) == o.best_from(
                cur.s as int,
                Tables { long: old(l_table)@, short: old(s_table)@ },
            ),
        decreases src.len() - s,
    {
        let step: usize = (s - next_emit) / 256;
        let next_s: usize = if step + 1 > MAX_SKIP {
            s + MAX_SKIP
        } else {
            s + step + 1
        };
        if next_s > s_limit {
            return None;
        }
        let ghost before = Tables { long: l_table@, short: s_table@ };
        proof {
            reveal(Outlook::best_at);
        }
        let cv: u64 = load64(src, s);
        let hash_l: usize = long_slot_of(cv);
        let hash_s: usize = short_slot_of(cv);
        let cand_l: u64 = l_table[hash_l];
        let cand_s: u64 = s_table[hash_s];
        let mut best: Match = no_match(0, 0);
        best = try_entry(best, src, cand_l, s, next_emit, repeat, s_limit);
        best = try_entry(best, src, cand_s, s, next_emit, repeat, s_limit);
        if s >= repeat {
            best = try_repeat(best, src, s, next_emit, repeat, s_limit);
            if s < s_limit {
                proof {
                    if constant {
                        assert(best.length == 0);
                        lemma_constant_repeat(src@, best, s_limit as int);
                    }
                }
                best = try_repeat(best, src, s + 1, next_emit, repeat, s_limit);
            }
        }
        if best.length > 0 {
            best = look_ahead(best, src, s, next_emit, repeat, s_limit, l_table, s_table);
            best = look_at_end(best, src, next_emit, repeat, s_limit, l_table, s_table);
        }
        l_table[hash_l] = pack_entry(s, cand_l);
        s_table[hash_s] = pack_entry(s, cand_s);
        assert(best == o.best_at(s as int, before));
        assert(Tables { long: l_table@, short: s_table@ } == recorded(src@, before, s as int));
        if best.length > 0 {
            return Some((best, s));
        }
        s = next_s;
    }
}

/// What became of a match.
enum Put {
    /// It was written.
    Wrote,
    /// Writing it would not pay.
    Skip,
    /// The output grew too large.
    GiveUp,
}

/// Writes `m` and the literals before it, in the form that takes fewest bytes.
fn put_best(
    dst: &mut Vec<u8>,
    start: usize,
    src: &[u8],
    cur: &mut Cursor,
    m: &Match,
    dst_limit: usize,
) -> (r: Put)
    requires
        encode::cursor_ok(old(dst)@, start as int, src@, *old(cur)),
        m.length > 0,
        match_ok(*m, src@, old(cur).next_emit as int, old(cur).repeat as int),
        old(dst).len() - start <= dst_limit,
        dst_limit <= src.len(),
    ensures
        start <= final(dst).len(),
        final(dst)@.take(start as int) == old(dst)@.take(start as int),
        match r {
            Put::Wrote => {
                &&& encode::cursor_ok(final(dst)@, start as int, src@, *final(cur))
                &&& final(cur).next_emit == final(cur).s
                &&& final(cur).s > old(cur).next_emit
                &&& final(dst).len() - start <= dst_limit + 20
            },
            Put::Skip => final(dst)@ == old(dst)@ && *final(cur) == *old(cur),
            Put::GiveUp => true,
        },
        m.rep && old(dst).len() == start && old(cur).next_emit == 0 && m.s == 1 && dst_limit >= 1
            ==> r is Wrote && final(cur).s == m.s + m.length && final(dst).len() <= start + 9,
        best_match(
            src@,
            dst_limit as int,
            encode::work(old(dst)@, start as int, *old(cur)),
            *m,
        ) == (match r {
            Put::Wrote => Written::Wrote(encode::work(final(dst)@, start as int, *final(cur))),
            Put::Skip => Written::Skip,
            Put::GiveUp => Written::GiveUp,
        }),
{
    let next_emit: usize = cur.next_emit;
    let base: usize = m.s;
    let offset: usize = base - m.offset;
    if (dst.len() - start) + (base - next_emit) > dst_limit {
        return Put::GiveUp;
    }
    if !m.rep && m.length <= 4 && (offset > 65535 || (offset > MAX_COPY1_OFFSET && offset
        <= MAX_COPY2_OFFSET && base - next_emit > MAX_COPY2_LITS)) {
        return Put::Skip;
    }
    let mut end: usize = base + m.length;
    let repeat: usize = cur.repeat;
    let lits: usize = base - next_emit;
    if m.rep {
        put_literal(dst, start, src, next_emit, base, repeat);
        put_repeat(dst, start, src, base, repeat, m.length);
    } else if lits > 0 {
        if offset <= MAX_COPY2_OFFSET {
            let must_split = lits > MAX_COPY2_LITS || offset < MIN_COPY2_OFFSET || (offset
                <= MAX_COPY1_OFFSET && m.length > COPY2_LIT_MAX_LEN);
            if must_split {
                put_literal(dst, start, src, next_emit, base, repeat);
                if m.length > 18 && m.length <= 64 && offset >= MIN_COPY2_OFFSET {
                    put_copy2(dst, start, src, base, repeat, offset, m.length);
                } else {
                    put_copy(dst, start, src, base, repeat, offset, m.length);
                }
            } else if m.length > COPY2_LIT_MAX_LEN {
                proof {
                    assert(emit::is_match(src@, base as int, offset as int, 11));
                }
                put_copy_lits2(
                    dst,
                    start,
                    src,
                    next_emit,
                    base,
                    repeat,
                    offset,
                    COPY2_LIT_MAX_LEN,
                );
                end = base + COPY2_LIT_MAX_LEN;
            } else {
                put_copy_lits2(dst, start, src, next_emit, base, repeat, offset, m.length);
            }
        } else if lits > MAX_COPY3_LITS {
            put_literal(dst, start, src, next_emit, base, repeat);
            put_copy(dst, start, src, base, repeat, offset, m.length);
        } else {
            put_copy_lits3(dst, start, src, next_emit, base, repeat, offset, m.length);
        }
    } else if m.length > 18 && m.length <= 64 && MIN_COPY2_OFFSET <= offset && offset
        <= MAX_COPY2_OFFSET {
        put_copy2(dst, start, src, base, repeat, offset, m.length);
    } else {
        put_copy(dst, start, src, base, repeat, offset, m.length);
    }
    cur.repeat = offset;
    cur.s = end;
    cur.next_emit = end;
    proof {
        let (bytes, length) = match_bytes(src@, next_emit as int, *m);
        assert(length == end - base);
        assert(dst@.skip(start as int) =~= old(dst)@.skip(start as int) + bytes);
    }
    Put::Wrote
}

/// Records the positions `from..to` in both tables.
fn index_range(
    src: &[u8],
    l_table: &mut Vec<u64>,
    s_table: &mut Vec<u64>,
    from: usize,
    to: usize,
)
    requires
        to + 8 <= src.len() <= MAX_BLOCK_SIZE,
        old(l_table).len() == L_TABLE_SIZE,
        old(s_table).len() == S_TABLE_SIZE,
    ensures
        final(l_table).len() == L_TABLE_SIZE,
        final(s_table).len() == S_TABLE_SIZE,
        (Tables { long: final(l_table)@, short: final(s_table)@ }) == recorded_range(
            src@,
            (Tables { long: old(l_table)@, short: old(s_table)@ }),
            from as int,
            to as int,
        ),
{
    let mut i: usize = from;
    while i < to
        invariant
            to + 8 <= src.len() <= MAX_BLOCK_SIZE,
            l_table.len() == L_TABLE_SIZE,
            s_table.len() == S_TABLE_SIZE,
            recorded_range(src@, Tables { long: l_table@, short: s_table@ }, i as int, to as int)
                == recorded_range(
                src@,
                Tables { long: old(l_table)@, short: old(s_table)@ },
                from as int,
                to as int,
            ),
        decreases to - i,
    {
        let ghost before = Tables { long: l_table@, short: s_table@ };
        let cv: u64 = load64(src, i);
        let long: usize = long_slot_of(cv);
        let short: usize = short_slot_of(cv);
        let old_long: u64 = l_table[long];
        let old_short: u64 = s_table[short];
        l_table[long] = pack_entry(i, old_long);
        s_table[short] = pack_entry(i, old_short);
        assert(Tables { long: l_table@, short: s_table@ } == recorded(src@, before, i as int));
        i = i + 1;
    }
}

/// Encodes `src` with empty tables; appends the block body to `dst` and returns
/// its length, or zero where the input does not get smaller.
fn inner(
    dst: &mut Vec<u8>,
    src: &[u8],
    l_table: &mut Vec<u64>,
    s_table: &mut Vec<u64>,
) -> (n: usize)
    requires
        MIN_NON_LITERAL_BLOCK_SIZE <= src.len() <= MAX_BLOCK_SIZE,
        old(l_table).len() == L_TABLE_SIZE,
        old(s_table).len() == S_TABLE_SIZE,
        all_zero(old(l_table)@),
        all_zero(old(s_table)@),
    ensures
        encode::encoded_or_not(old(dst)@, final(dst)@, src@, n as int),
        encode::is_outcome(old(dst)@, final(dst)@, n as int, body_of(src@)),
{
    let start: usize = dst.len();
    let s_limit: usize = src.len() - INPUT_MARGIN_L3;
    let dst_limit: usize = src.len() - 5;
    let mut cur: Cursor = Cursor { s: 1, next_emit: 0, repeat: 1 };
    proof {
        encode::lemma_faithful_start(dst@, src@);
        assert(dst@.take(start as int) =~= dst@);
    }
    proof {
        assert(dst@.skip(start as int) =~= Seq::<u8>::empty());
        assert(l_table@ =~= empty_tables().long);
        assert(s_table@ =~= empty_tables().short);
    }
    loop
        invariant_except_break
            encode::cursor_ok(dst@, start as int, src@, cur),
            dst@.take(start as int) == old(dst)@,
            1 <= cur.s <= s_limit,
            dst.len() - start <= dst_limit,
            l_table.len() == L_TABLE_SIZE,
            s_table.len() == S_TABLE_SIZE,
            encode::is_constant(src@) && src.len() >= 32 ==> encode::constant_start(
                dst@,
                start as int,
                src@,
                cur,
            ) && all_zero(l_table@) && all_zero(s_table@),
            smallest(
                src@,
                dst_limit as int,
                encode::work(dst@, start as int, cur),
                Tables { long: l_table@, short: s_table@ },
            ) == smallest(src@, dst_limit as int, encode::start_work(), empty_tables()),
        invariant
            MIN_NON_LITERAL_BLOCK_SIZE <= src.len() <= MAX_BLOCK_SIZE,
            dst_limit == src.len() - 5,
            s_limit + INPUT_MARGIN_L3 == src.len(),
            start == old(dst).len(),
        ensures
            smallest(src@, dst_limit as int, encode::start_work(), empty_tables()) == Some(
                encode::work(dst@, start as int, cur),
            ),
            encode::cursor_ok(dst@, start as int, src@, cur),
            dst@.take(start as int) == old(dst)@,
            dst.len() - start <= dst_limit + 20,
            encode::is_constant(src@) && src.len() >= 32 ==> cur.next_emit == src.len()
                && dst.len() <= start + 9,
        decreases src.len() - cur.next_emit, src.len() - cur.s,
    {
        proof {
            reveal(round);
        }
        match find_best(src, &cur, l_table, s_table) {
            None => {
                break;
            },
            Some((best, s)) => {
                match put_best(dst, start, src, &mut cur, &best, dst_limit) {
                    Put::GiveUp => {
                        return 0;
                    },
                    Put::Skip => {
                        cur.s = s + 2;
                        if cur.s >= s_limit {
                            break;
                        }
                    },
                    Put::Wrote => {
                        if cur.s >= s_limit {
                            break;
                        }
                        if dst.len() - start > dst_limit {
                            return 0;
                        }
                        index_range(src, l_table, s_table, s + 1, cur.s);
                    },
                }
            },
        }
    }
    if cur.next_emit < src.len() {
        let lits: usize = src.len() - cur.next_emit;
        if (dst.len() - start) + lits + emit_literal_size_n(lits) > dst_limit {
            return 0;
        }
        put_literal(dst, start, src, cur.next_emit, src.len(), cur.repeat);
    }
    proof {
        encode::lemma_faithful_end(dst@, start as int, src@, cur.repeat as int);
        if dst.len() == start {
            assert(dst@.skip(start as int) =~= Seq::<u8>::empty());
        }
        assert(dst@ =~= dst@.take(start as int) + dst@.skip(start as int));
    }
    dst.len() - start
}

/// Encodes `src`; appends the block body to `dst` and returns its length, or
/// zero where the input does not get smaller.
pub fn encode_block(dst: &mut Vec<u8>, src: &[u8]) -> (n: usize)
    requires
        src.len() <= MAX_BLOCK_SIZE,
    ensures
        encode::encoded_or_not(old(dst)@, final(dst)@, src@, n as int),
        encode::is_outcome(old(dst)@, final(dst)@, n as int, body_of(src@)),
        src.len() < MIN_NON_LITERAL_BLOCK_SIZE ==> n == 0,
{
    if src.len() < MIN_NON_LITERAL_BLOCK_SIZE {
        assert(dst@.take(dst.len() as int) =~= dst@);
        return 0;
    }
    let mut l_table: Vec<u64> = vec![0u64; L_TABLE_SIZE];
    let mut s_table: Vec<u64> = vec![0u64; S_TABLE_SIZE];
    inner(dst, src, &mut l_table, &mut s_table)
}

} // verus!
