//! What the smallest encoder writes decodes to its input.
use crate::block::emit;
use crate::block::encode;
use crate::block::encode::Work;
use crate::block::encode_l3;
use crate::block::encode_l3::{Match, Outlook, Tables, Written};
use crate::block::faithful;
use crate::block::format::{
    COPY2_LIT_MAX_LEN, MAX_BLOCK_SIZE, MAX_COPY1_OFFSET, MAX_COPY2_LITS, MAX_COPY2_OFFSET,
    MAX_COPY3_LITS, MIN_COPY2_OFFSET, MIN_NON_LITERAL_BLOCK_SIZE,
};
use crate::block::match_len;
use crate::block::ops;
use vstd::prelude::*;

verus! {

/// The outlook is within the input.
spec fn outlook_ok(o: Outlook) -> bool {
    &&& o.src.len() <= MAX_BLOCK_SIZE
    &&& 0 <= o.next_emit
    &&& 1 <= o.repeat
}

/// `m` can be written.
spec fn fits(o: Outlook, m: Match) -> bool {
    encode_l3::match_ok(m, o.src, o.next_emit, o.repeat)
}

proof fn lemma_full_match(o: Outlook, offset: int, s: int, rep: bool, n: int)
    requires
        outlook_ok(o),
        o.next_emit <= s,
        0 < offset < s,
        3 <= n <= 4,
        s + n <= o.src.len(),
        forall|k: int| 0 <= k < n ==> o.src[s + k] == #[trigger] o.src[offset + k],
    ensures
        ({
            let m = encode_l3::full_match(o.src, offset, s, o.next_emit, rep);
            &&& emit::is_match(o.src, m.s as int, m.s - m.offset, m.length as int)
            &&& m.s - m.offset == s - offset
            &&& m.length >= n
            &&& o.next_emit <= m.s
            &&& m.rep == rep
        }),
{
    let src = o.src;
    let k = match_len::common_len(src, s, offset);
    match_len::lemma_common_len(src, s, offset);
    if k < n {
        assert(src[s + k] == src[offset + k]);
    }
    match_len::lemma_common_back(src, s, offset, o.next_emit);
    faithful::lemma_extended(src, s, offset, o.next_emit, 0, k);
}

proof fn lemma_tried(o: Outlook, best: Match, offset: int, s: int)
    requires
        outlook_ok(o),
        fits(o, best),
        0 <= offset < 0x1_0000_0000,
        o.next_emit <= s,
        s + 4 <= o.src.len(),
    ensures
        fits(o, o.tried(best, offset, s)),
        best.length > 0 ==> o.tried(best, offset, s).length > 0,
{
    if !encode_l3::match_rejected(o.src, offset, s, best) {
        lemma_full_match(o, offset, s, false, 4);
    }
}

proof fn lemma_with_entry(o: Outlook, best: Match, entry: u64, back: Option<int>, s: int)
    requires
        outlook_ok(o),
        fits(o, best),
        o.next_emit <= s,
        s + 4 <= o.src.len(),
        back matches Some(n) ==> n >= 0,
    ensures
        fits(o, o.with_entry(best, entry, back, s)),
        best.length > 0 ==> o.with_entry(best, entry, back, s).length > 0,
{
    reveal(Outlook::with_entry);
    let cur = entry as int % 0x1_0000_0000;
    let prev = entry as int / 0x1_0000_0000;
    match back {
        None => {
            lemma_tried(o, best, cur, s);
            lemma_tried(o, o.tried(best, cur, s), prev, s);
        },
        Some(n) => {
            let one = if cur > n {
                o.tried(best, cur - n, s)
            } else {
                best
            };
            if cur > n {
                lemma_tried(o, best, cur - n, s);
            }
            if prev > n {
                lemma_tried(o, one, prev - n, s);
            }
        },
    }
}

proof fn lemma_with_repeat(o: Outlook, best: Match, s: int)
    requires
        outlook_ok(o),
        fits(o, best),
        o.next_emit <= s,
        s + 4 <= o.src.len(),
    ensures
        fits(o, o.with_repeat(best, s)),
        best.length > 0 ==> o.with_repeat(best, s).length > 0,
{
    reveal(Outlook::with_repeat);
    if s >= o.repeat {
        let offset = s - o.repeat;
        if !encode_l3::repeat_rejected(o.src, offset, s, best) {
            lemma_full_match(o, offset, s, true, 3);
        }
    }
}

proof fn lemma_best_at(o: Outlook, s: int, t: Tables)
    requires
        outlook_ok(o),
        o.next_emit <= s,
        s <= o.s_limit(),
    ensures
        fits(o, o.best_at(s, t)),
{
    reveal(Outlook::best_at);
    reveal(Outlook::ahead);
    reveal(Outlook::at_end);
    let x = crate::block::load_store::bytes_at(o.src, s);
    let none = encode_l3::spec_no_match(0, 0);
    let la = t.long[encode_l3::long_slot(x)];
    let sa = t.short[encode_l3::short_slot(x)];
    let a = o.with_entry(none, la, None, s);
    lemma_with_entry(o, none, la, None, s);
    let b = o.with_entry(a, sa, None, s);
    lemma_with_entry(o, a, sa, None, s);
    lemma_with_repeat(o, b, s);
    lemma_with_repeat(o, o.with_repeat(b, s), s + 1);
    let c = if s < o.repeat {
        b
    } else if s < o.s_limit() {
        o.with_repeat(o.with_repeat(b, s), s + 1)
    } else {
        o.with_repeat(b, s)
    };
    if c.length > 0 {
        lemma_ahead(o, c, s, t);
        lemma_at_end(o, o.ahead(c, s, t), t);
    }
}

proof fn lemma_ahead(o: Outlook, best: Match, s: int, t: Tables)
    requires
        outlook_ok(o),
        fits(o, best),
        best.length > 0,
        o.next_emit <= s,
        s <= o.s_limit(),
    ensures
        fits(o, o.ahead(best, s, t)),
        o.ahead(best, s, t).length > 0,
{
    reveal(Outlook::ahead);
    let x1 = crate::block::load_store::bytes_at(o.src, s + 1);
    let x2 = crate::block::load_store::bytes_at(o.src, s + 2);
    let e1 = t.short[encode_l3::short_slot(x1)];
    let e2 = t.long[encode_l3::long_slot(x1)];
    let e3 = t.short[encode_l3::short_slot(x2)];
    let e4 = t.long[encode_l3::long_slot(x2)];
    let a = o.with_entry(best, e1, None, s + 1);
    let b = o.with_entry(a, e2, None, s + 1);
    let c = o.with_repeat(b, s + 2);
    let d = o.with_entry(c, e3, None, s + 2);
    lemma_with_entry(o, best, e1, None, s + 1);
    lemma_with_entry(o, a, e2, None, s + 1);
    lemma_with_repeat(o, b, s + 2);
    lemma_with_entry(o, c, e3, None, s + 2);
    lemma_with_entry(o, d, e4, None, s + 2);
}

proof fn lemma_at_end(o: Outlook, best: Match, t: Tables)
    requires
        outlook_ok(o),
        fits(o, best),
        best.length > 0,
    ensures
        fits(o, o.at_end(best, t)),
{
    reveal(Outlook::at_end);
    let at = best.s + best.length - 1;
    if at < o.s_limit() && best.length > 3 {
        let x = crate::block::load_store::bytes_at(o.src, at);
        let back = Some(best.length - 2);
        let e1 = t.long[encode_l3::long_slot(x)];
        let e2 = t.short[encode_l3::short_slot(x)];
        let a = o.with_entry(best, e1, back, best.s + 1);
        lemma_with_entry(o, best, e1, back, best.s + 1);
        lemma_with_entry(o, a, e2, back, best.s + 1);
    }
}

proof fn lemma_best_from(o: Outlook, s: int, t: Tables)
    requires
        outlook_ok(o),
        o.next_emit <= s,
        s <= o.s_limit(),
    ensures
        o.best_from(s, t).0 matches Some((m, at)) ==> {
            &&& fits(o, m)
            &&& m.length > 0
            &&& s <= at <= o.s_limit()
        },
    decreases o.src.len() - s,
{
    lemma_best_at(o, s, t);
    let step = (s - o.next_emit) / 256 + 1;
    let next_s = if step > encode_l3::MAX_SKIP {
        s + encode_l3::MAX_SKIP
    } else {
        s + step
    };
    if next_s <= o.s_limit() && o.best_at(s, t).length == 0 {
        lemma_best_from(o, next_s, encode_l3::recorded(o.src, t, s));
    }
}

proof fn lemma_best_match(src: Seq<u8>, limit: int, w: Work, m: Match)
    requires
        faithful::work_ok(src, w),
        m.length > 0,
        encode_l3::match_ok(m, src, w.next_emit, w.repeat),
    ensures
        encode_l3::best_match(src, limit, w, m) matches Written::Wrote(v) ==> {
            &&& faithful::work_ok(src, v)
            &&& v.next_emit == v.s
            &&& v.next_emit > w.next_emit
        },
{
    let base = m.s as int;
    let offset = m.s - m.offset;
    let length = m.length as int;
    let a = w.next_emit;
    let lits = base - a;
    let (bytes, n) = encode_l3::match_bytes(src, a, m);
    let literal = encode::literal(src, a, base);
    faithful::lemma_literal(w.body, src, a, base, w.repeat);
    if m.rep {
        faithful::lemma_repeated(w.body + literal, src, base, w.repeat, length);
        assert(w.body + literal + encode::repeated(length) =~= w.body + bytes);
    } else {
        faithful::lemma_copied(w.body + literal, src, base, w.repeat, offset, length);
        let two = 18 < length <= 64 && MIN_COPY2_OFFSET <= offset <= MAX_COPY2_OFFSET;
        if two {
            faithful::lemma_copied2(w.body + literal, src, base, w.repeat, offset, length);
        }
        let copied = if two {
            encode::copied2(offset, length)
        } else {
            encode::copied(offset, length)
        };
        assert(w.body + literal + copied =~= w.body + (literal + copied));
        if lits == 0 {
            faithful::lemma_copied(w.body, src, base, w.repeat, offset, length);
            if two {
                faithful::lemma_copied2(w.body, src, base, w.repeat, offset, length);
            }
        } else if offset > MAX_COPY2_OFFSET {
            if lits <= MAX_COPY3_LITS {
                faithful::lemma_fused3(w.body, src, a, base, w.repeat, offset, length);
            }
        } else if lits > MAX_COPY2_LITS || offset < MIN_COPY2_OFFSET || (offset
            <= MAX_COPY1_OFFSET && length > COPY2_LIT_MAX_LEN) {
        } else if length > COPY2_LIT_MAX_LEN {
            assert(emit::is_match(src, base, offset, COPY2_LIT_MAX_LEN as int));
            faithful::lemma_fused2(
                w.body,
                src,
                a,
                base,
                w.repeat,
                offset,
                COPY2_LIT_MAX_LEN as int,
            );
        } else {
            faithful::lemma_fused2(w.body, src, a, base, w.repeat, offset, length);
        }
    }
}

proof fn lemma_smallest(src: Seq<u8>, limit: int, w: Work, t: Tables)
    requires
        faithful::work_ok(src, w),
        w.s <= src.len() - encode_l3::INPUT_MARGIN_L3,
    ensures
        encode_l3::smallest(src, limit, w, t) matches Some(v) ==> faithful::work_ok(src, v),
    decreases src.len() - w.next_emit, src.len() - w.s,
{
    reveal(encode_l3::round);
    let o = Outlook { src, next_emit: w.next_emit, repeat: w.repeat };
    lemma_best_from(o, w.s, t);
    if let (Some((m, s)), t) = o.best_from(w.s, t) {
        lemma_best_match(src, limit, w, m);
        match encode_l3::best_match(src, limit, w, m) {
            Written::GiveUp => {},
            Written::Skip => {
                let v = Work { s: s + 2, ..w };
                if v.s < o.s_limit() {
                    lemma_smallest(src, limit, v, t);
                }
            },
            Written::Wrote(v) => {
                if v.s < o.s_limit() && v.body.len() <= limit {
                    lemma_smallest(
                        src,
                        limit,
                        v,
                        encode_l3::recorded_range(src, t, s + 1, v.s),
                    );
                }
            },
        }
    }
}

/// What the smallest encoder writes decodes to the input.
pub proof fn law_body_l3(src: Seq<u8>)
    requires
        src.len() <= MAX_BLOCK_SIZE,
    ensures
        encode_l3::body_of(src) matches Some(body) ==> ops::decoded(body) == Some(src)
            && body.len() > 0,
{
    if src.len() >= MIN_NON_LITERAL_BLOCK_SIZE {
        let limit = src.len() - 5;
        let t = encode_l3::empty_tables();
        faithful::lemma_start(src);
        lemma_smallest(src, limit, encode::start_work(), t);
        if let Some(w) = encode_l3::smallest(src, limit, encode::start_work(), t) {
            if w.next_emit < src.len() {
                let rest = encode::literal(src, w.next_emit, src.len() as int);
                faithful::lemma_literal(w.body, src, w.next_emit, src.len() as int, w.repeat);
                faithful::lemma_all(w.body + rest, src, w.repeat);
            } else {
                faithful::lemma_all(w.body, src, w.repeat);
            }
        }
    }
}

} // verus!
