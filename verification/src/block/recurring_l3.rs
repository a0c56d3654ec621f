//! Input that repeats bytes over and over in which shorter stretches come up again, too: the
//! smallest encoder takes those up on the way, and comes to the repetition all the same.
use crate::block;
use crate::block::emit;
use crate::block::encode;
use crate::block::encode::Work;
use crate::block::encode_l3;
use crate::block::encode_l3::{Match, Outlook, Tables};
use crate::block::format::MAX_BLOCK_SIZE;
use crate::block::hash;
use crate::block::load_store;
use crate::block::match_len;
use crate::block::periodic;
use crate::block::periodic::{agree, repeats};
use crate::block::recurring;
use crate::block::Level;
use vstd::arithmetic::div_mod;
use vstd::arithmetic::power2;
use vstd::prelude::*;
use vstd::set_lib;

verus! {

/// The slot in which a position is recorded by eight bytes.
pub open spec fn place_slot(src: Seq<u8>, i: int) -> int {
    encode_l3::long_slot(load_store::bytes_at(src, i))
}

/// The places of the `p` bytes that are repeated are recorded in different slots.
pub open spec fn apart(src: Seq<u8>, p: int) -> bool {
    forall|i: int, j: int|
        0 <= i < p && 0 <= j < p && #[trigger] place_slot(src, i) == #[trigger] place_slot(src, j)
            ==> i == j
}

/// The input.
spec fn recurs(src: Seq<u8>, p: int) -> bool {
    &&& repeats(src, p, src.len() as int)
    &&& apart(src, p)
    &&& 2 <= p <= 100
    &&& 64 * p + 64 <= src.len() <= MAX_BLOCK_SIZE
}

proof fn lemma_slot_of_place(src: Seq<u8>, p: int, i: int)
    requires
        recurs(src, p),
        0 <= i,
        i + 8 <= src.len(),
    ensures
        place_slot(src, i) == place_slot(src, i % p),
        0 <= i % p < p,
{
    periodic::lemma_place(src, p, src.len() as int, i);
    div_mod::lemma_mod_twice(i, p);
    periodic::lemma_same_number(src, p, src.len() as int, i, i % p);
}

/// Eight bytes agree only at the same place.
proof fn lemma_eight(src: Seq<u8>, p: int, i: int, j: int)
    requires
        recurs(src, p),
        0 <= i,
        0 <= j,
        i + 8 <= src.len(),
        j + 8 <= src.len(),
        agree(src, i, j, 8),
    ensures
        i % p == j % p,
{
    assert(load_store::bytes_at(src, i) == load_store::bytes_at(src, j)) by {
        reveal(load_store::bytes_at);
        assert(src[i + 0] == src[j + 0] && src[i + 1] == src[j + 1]);
        assert(src[i + 2] == src[j + 2] && src[i + 3] == src[j + 3]);
        assert(src[i + 4] == src[j + 4] && src[i + 5] == src[j + 5]);
        assert(src[i + 6] == src[j + 6] && src[i + 7] == src[j + 7]);
    }
    lemma_slot_of_place(src, p, i);
    lemma_slot_of_place(src, p, j);
    let a = i % p;
    let b = j % p;
    assert(place_slot(src, a) == place_slot(src, b));
}

/// A match at different places holds no more than seven bytes.
proof fn lemma_run(src: Seq<u8>, p: int, q: int, c: int, floor: int)
    requires
        recurs(src, p),
        0 <= c < q,
        0 <= floor <= q,
        q + 16 <= src.len(),
        (q - c) % p != 0,
    ensures
        ({
            let back = match_len::common_back(src, q, c, floor);
            let on = match_len::common_len(src, q, c);
            &&& 0 <= back <= c
            &&& floor <= q - back
            &&& 0 <= on
            &&& back + on <= 7
        }),
{
    let o = q - c;
    match_len::lemma_common_back(src, q, c, floor);
    match_len::lemma_common_len(src, q, c);
    let back = match_len::common_back(src, q, c, floor);
    let on = match_len::common_len(src, q, c);
    let base = q - back;
    if back + on >= 8 {
        assert forall|t: int| 0 <= t < 8 implies src[base + t] == #[trigger] src[base - o + t] by {
            let i = base + t;
            assert(src[i] == src[i - o]);
        }
        if base + 8 <= src.len() {
            lemma_eight(src, p, base, base - o);
            periodic::lemma_distance(p, base, base - o);
        }
    }
}

/// Where the search stands.
spec fn fits(o: Outlook, p: int, s: int) -> bool {
    &&& recurs(o.src, p)
    &&& 0 <= o.next_emit <= s
    &&& 1 <= s <= 10 * p + 1
    &&& 1 <= o.repeat <= s
    &&& o.repeat % p != 0
}

/// A match at the same place: it goes on to the end, and is worth a lot.
spec fn is_long(o: Outlook, p: int, m: Match, s: int) -> bool {
    &&& m.length > 0
    &&& !m.rep
    &&& m.offset < m.s
    &&& (m.s - m.offset) % p == 0
    &&& o.next_emit <= m.s <= s + 3
    &&& m.s + m.length == o.src.len()
    &&& m.score > 8
}

/// A match at different places: it has a few bytes, is worth little, and ends behind `s`.
spec fn is_short(o: Outlook, p: int, m: Match, s: int, before: int) -> bool {
    &&& 3 <= m.length <= 7
    &&& !m.rep ==> m.length >= 4
    &&& m.offset < m.s
    &&& (m.s - m.offset) % p != 0
    &&& o.next_emit <= m.s
    &&& s - before <= m.s <= s + 3
    &&& before <= 4 ==> m.s <= s + 2
    &&& s + 1 <= m.s + m.length <= s + 10
    &&& m.score <= 8
}

/// What a match can be.
spec fn is_known(o: Outlook, p: int, m: Match, s: int, before: int) -> bool {
    m.length == 0 || is_long(o, p, m, s) || is_short(o, p, m, s, before)
}

/// A candidate either gives nothing, or a match that is known; a long one stays.
proof fn lemma_tried(o: Outlook, p: int, best: Match, offset: int, q: int, s: int, before: int)
    requires
        fits(o, p, s),
        is_known(o, p, best, s, before),
        0 <= offset <= 0xffff_ffff,
        o.next_emit <= q,
        s - 3 <= q <= s + 3,
        before <= 4 ==> q <= s + 2,
        q >= 1,
        s - before <= q - 3,
    ensures
        ({
            let r = o.tried(best, offset, q);
            &&& is_known(o, p, r, s, before)
            &&& is_long(o, p, best, s) ==> is_long(o, p, r, s)
            &&& best.length > 0 ==> r.length > 0
            &&& best.length == 0 && 0 < offset < q && (q - offset) % p == 0 ==> is_long(o, p, r, s)
            &&& !best.rep ==> !r.rep
        }),
{
    let src = o.src;
    let n = src.len() as int;
    if encode_l3::match_rejected(src, offset, q, best) {
        if 0 < offset < q && (q - offset) % p == 0 && best.length == 0 {
            periodic::lemma_distance(p, q, offset);
            periodic::lemma_same_place(src, p, n, q, offset, 4);
            assert(forall|k: int| 0 <= k < 4 ==> src[q + k] == #[trigger] src[offset + k]);
        }
    } else {
        let m = encode_l3::full_match(src, offset, q, o.next_emit, false);
        match_len::lemma_common_back(src, q, offset, o.next_emit);
        match_len::lemma_common_len(src, q, offset);
        let on = match_len::common_len(src, q, offset);
        assert(src[q + 0] == src[offset + 0] && src[q + 1] == src[offset + 1] && src[q + 2]
            == src[offset + 2] && src[q + 3] == src[offset + 3]);
        assert(on >= 4) by {
            if on < 4 {
                assert(src[q + on] == src[offset + on]);
            }
        }
        if (q - offset) % p == 0 {
            periodic::lemma_distance(p, q, offset);
            periodic::lemma_goes_on(src, p, n, q, offset);
            lemma_long_score(o, p, m);
        } else {
            lemma_run(src, p, q, offset, o.next_emit);
            lemma_short_score(o, m);
        }
    }
}

/// What a match to the end is worth.
proof fn lemma_long_score(o: Outlook, p: int, m: Match)
    requires
        recurs(o.src, p),
        o.next_emit <= m.s <= 10 * p + 4,
        0 <= o.next_emit,
        m.offset < m.s,
        m.s + m.length == o.src.len(),
        !m.rep,
    ensures
        8 < encode_l3::spec_score(m, o.next_emit) <= 0x100_0000,
{
    let offset = m.s - m.offset;
    let length = m.length as int;
    assert(emit::copy_size(offset, length) <= 6);
    assert(emit::copy_size(offset, length) >= 0);
}

/// What a match of a few bytes is worth.
proof fn lemma_short_score(o: Outlook, m: Match)
    requires
        0 <= o.next_emit <= m.s <= 0x100_0000,
        m.offset < m.s,
        m.length <= 7,
    ensures
        -0x200_0000 <= encode_l3::spec_score(m, o.next_emit) <= 8,
{
    let offset = m.s - m.offset;
    let length = m.length as int;
    reveal_with_fuel(emit::byte_len, 5);
    assert(0 <= emit::copy_size(offset, length) <= 10);
    assert(0 <= emit::repeat_size(length) <= 4);
}

/// The offset of the last copy gives nothing, or a short match; a long one stays.
proof fn lemma_repeat(o: Outlook, p: int, best: Match, q: int, s: int)
    requires
        fits(o, p, s),
        is_known(o, p, best, s, 4),
        s <= q <= s + 2,
    ensures
        ({
            let r = o.with_repeat(best, q);
            &&& is_known(o, p, r, s, 4)
            &&& is_long(o, p, best, s) ==> is_long(o, p, r, s)
            &&& best.length > 0 ==> r.length > 0
        }),
{
    reveal(Outlook::with_repeat);
    let src = o.src;
    let c = q - o.repeat;
    if q >= o.repeat && !encode_l3::repeat_rejected(src, c, q, best) {
        let m = encode_l3::full_match(src, c, q, o.next_emit, true);
        lemma_run(src, p, q, c, o.next_emit);
        match_len::lemma_common_len(src, q, c);
        let on = match_len::common_len(src, q, c);
        assert(src[q + 0] == src[c + 0] && src[q + 1] == src[c + 1] && src[q + 2] == src[c + 2]);
        assert(on >= 3) by {
            if on < 3 {
                assert(src[q + on] == src[c + on]);
            }
        }
        lemma_short_score(o, m);
    }
}

/// A table entry gives nothing, or matches that are known; a long one stays.
proof fn lemma_entry(o: Outlook, p: int, best: Match, entry: u64, q: int, s: int)
    requires
        fits(o, p, s),
        is_known(o, p, best, s, 4),
        s <= q <= s + 2,
    ensures
        ({
            let r = o.with_entry(best, entry, None, q);
            let cur = entry as int % 0x1_0000_0000;
            &&& is_known(o, p, r, s, 4)
            &&& is_long(o, p, best, s) ==> is_long(o, p, r, s)
            &&& best.length > 0 ==> r.length > 0
            &&& best.length == 0 && 0 < cur < q && (q - cur) % p == 0 ==> is_long(o, p, r, s)
            &&& !best.rep ==> !r.rep
        }),
{
    reveal(Outlook::with_entry);
    let cur = entry as int % 0x1_0000_0000;
    let prev = entry as int / 0x1_0000_0000;
    lemma_tried(o, p, best, cur, q, s, 4);
    lemma_tried(o, p, o.tried(best, cur, q), prev, q, s, 4);
}

proof fn lemma_ahead(o: Outlook, p: int, best: Match, s: int, t: Tables)
    requires
        fits(o, p, s),
        is_known(o, p, best, s, 4),
        best.length > 0,
    ensures
        ({
            let r = o.ahead(best, s, t);
            &&& is_known(o, p, r, s, 4)
            &&& is_long(o, p, best, s) ==> is_long(o, p, r, s)
            &&& r.length > 0
        }),
{
    reveal(Outlook::ahead);
    let x1 = load_store::bytes_at(o.src, s + 1);
    let x2 = load_store::bytes_at(o.src, s + 2);
    let a = o.with_entry(best, t.short[encode_l3::short_slot(x1)], None, s + 1);
    lemma_entry(o, p, best, t.short[encode_l3::short_slot(x1)], s + 1, s);
    let b = o.with_entry(a, t.long[encode_l3::long_slot(x1)], None, s + 1);
    lemma_entry(o, p, a, t.long[encode_l3::long_slot(x1)], s + 1, s);
    let c = o.with_repeat(b, s + 2);
    lemma_repeat(o, p, b, s + 2, s);
    let d = o.with_entry(c, t.short[encode_l3::short_slot(x2)], None, s + 2);
    lemma_entry(o, p, c, t.short[encode_l3::short_slot(x2)], s + 2, s);
    lemma_entry(o, p, d, t.long[encode_l3::long_slot(x2)], s + 2, s);
}

/// An entry that is moved back gives nothing, or matches that are known.
proof fn lemma_entry_back(o: Outlook, p: int, best: Match, entry: u64, back: int, q: int, s: int)
    requires
        fits(o, p, s),
        is_known(o, p, best, s, 8),
        best.length > 0,
        0 <= back,
        o.next_emit <= q,
        s - 3 <= q <= s + 3,
        q >= 1,
    ensures
        ({
            let r = o.with_entry(best, entry, Some(back), q);
            &&& is_known(o, p, r, s, 8)
            &&& r.length > 0
        }),
{
    reveal(Outlook::with_entry);
    let cur = entry as int % 0x1_0000_0000;
    let prev = entry as int / 0x1_0000_0000;
    let one = if cur > back {
        o.tried(best, cur - back, q)
    } else {
        best
    };
    if cur > back {
        lemma_tried(o, p, best, cur - back, q, s, 8);
    }
    if prev > back {
        lemma_tried(o, p, one, prev - back, q, s, 8);
    }
}

proof fn lemma_at_end(o: Outlook, p: int, best: Match, s: int, t: Tables)
    requires
        fits(o, p, s),
        is_known(o, p, best, s, 4),
        best.length > 0,
    ensures
        ({
            let r = o.at_end(best, t);
            &&& is_known(o, p, r, s, 8)
            &&& is_long(o, p, best, s) ==> is_long(o, p, r, s)
            &&& r.length > 0
        }),
{
    reveal(Outlook::at_end);
    let at = best.s + best.length - 1;
    if !is_long(o, p, best, s) && !(at >= o.s_limit() || best.length <= 3) {
        let x = load_store::bytes_at(o.src, at);
        let back = best.length - 2;
        let q = best.s + 1;
        let a = o.with_entry(best, t.long[encode_l3::long_slot(x)], Some(back), q);
        lemma_entry_back(o, p, best, t.long[encode_l3::long_slot(x)], back, q, s);
        lemma_entry_back(o, p, a, t.short[encode_l3::short_slot(x)], back, q, s);
    }
}

/// What comes up at a position: nothing, or a match that is known, and a long one where the
/// position that eight bytes were last recorded for is at the same place.
proof fn lemma_best_at(o: Outlook, p: int, s: int, t: Tables)
    requires
        fits(o, p, s),
    ensures
        ({
            let r = o.best_at(s, t);
            let cur = t.long[place_slot(o.src, s)] as int % 0x1_0000_0000;
            &&& is_known(o, p, r, s, 8)
            &&& 0 < cur < s && (s - cur) % p == 0 ==> is_long(o, p, r, s)
        }),
{
    let none = encode_l3::spec_no_match(0, 0);
    let x = load_store::bytes_at(o.src, s);
    let a = o.with_entry(none, t.long[encode_l3::long_slot(x)], None, s);
    let b = o.with_entry(a, t.short[encode_l3::short_slot(x)], None, s);
    lemma_entry(o, p, none, t.long[encode_l3::long_slot(x)], s, s);
    lemma_entry(o, p, a, t.short[encode_l3::short_slot(x)], s, s);
    let c = o.with_repeat(b, s);
    lemma_repeat(o, p, b, s, s);
    let d = o.with_repeat(c, s + 1);
    lemma_repeat(o, p, c, s + 1, s);
    reveal(Outlook::best_at);
    if d.length > 0 {
        lemma_ahead(o, p, d, s, t);
        lemma_at_end(o, p, o.ahead(d, s, t), s, t);
    }
}

/// The newer position of an entry.
spec fn newer(entry: u64) -> int {
    entry as int % 0x1_0000_0000
}

/// All newer positions in the table of long hashes lie before `bound`, and each place in
/// `seen` has a position at it recorded.
spec fn knows(src: Seq<u8>, p: int, t: Tables, seen: Set<int>, bound: int) -> bool {
    &&& t.long.len() == encode_l3::L_TABLE_SIZE
    &&& forall|x: u64| newer(#[trigger] t.long[encode_l3::long_slot(x)]) < bound
    &&& seen.subset_of(set_lib::set_int_range(0, p))
    &&& forall|f: int| #[trigger]
        seen.contains(f) ==> 0 < newer(t.long[place_slot(src, f)]) && newer(
            t.long[place_slot(src, f)],
        ) % p == f
}

proof fn lemma_slots(x: u64)
    ensures
        0 <= encode_l3::long_slot(x) < encode_l3::L_TABLE_SIZE,
{
    reveal(encode_l3::long_slot);
    power2::lemma2_to64();
    hash::lemma_hash_bounds(x, 1, hash::PRIME8, encode_l3::L_TABLE_BITS);
}

/// A position that is recorded takes no place away, and adds its own.
proof fn lemma_note(src: Seq<u8>, p: int, t: Tables, seen: Set<int>, bound: int, i: int)
    requires
        recurs(src, p),
        knows(src, p, t, seen, bound),
        0 < i < bound,
        i + 8 <= src.len(),
    ensures
        knows(src, p, encode_l3::recorded(src, t, i), seen.insert(i % p), bound),
        knows(src, p, encode_l3::recorded(src, t, i), seen, bound),
{
    let u = encode_l3::recorded(src, t, i);
    let e = t.long[place_slot(src, i)];
    let r = e as int % 0x1_0000_0000;
    assert(encode_l3::packed(i, e) == i + r * 0x1_0000_0000);
    assert((i + r * 0x1_0000_0000) % 0x1_0000_0000 == i);
    lemma_slot_of_place(src, p, i);
    lemma_slots(load_store::bytes_at(src, i));
    assert forall|x: u64| newer(#[trigger] u.long[encode_l3::long_slot(x)]) < bound by {
        lemma_slots(x);
        assert(newer(t.long[encode_l3::long_slot(x)]) < bound);
    }
    assert forall|f: int| #[trigger] seen.insert(i % p).contains(f) implies 0 < newer(
        u.long[place_slot(src, f)],
    ) && newer(u.long[place_slot(src, f)]) % p == f by {
        assert(0 <= f < p);
        lemma_slots(load_store::bytes_at(src, f));
        if f != i % p {
            assert(seen.contains(f));
            assert(place_slot(src, f) != place_slot(src, i % p));
        }
    }
    assert forall|f: int| #[trigger] seen.contains(f) implies 0 < newer(
        u.long[place_slot(src, f)],
    ) && newer(u.long[place_slot(src, f)]) % p == f by {
        assert(seen.insert(i % p).contains(f));
    }
}

proof fn lemma_range_noted(
    src: Seq<u8>,
    p: int,
    t: Tables,
    seen: Set<int>,
    bound: int,
    from: int,
    to: int,
)
    requires
        recurs(src, p),
        knows(src, p, t, seen, bound),
        0 < from,
        to <= bound,
        to + 8 <= src.len(),
    ensures
        knows(src, p, encode_l3::recorded_range(src, t, from, to), seen, bound),
    decreases to - from,
{
    if from < to {
        lemma_note(src, p, t, seen, bound, from);
        lemma_range_noted(
            src,
            p,
            encode_l3::recorded(src, t, from),
            seen,
            bound,
            from + 1,
            to,
        );
    }
}

/// More may lie before it.
proof fn lemma_wider(src: Seq<u8>, p: int, t: Tables, seen: Set<int>, bound: int, more: int)
    requires
        knows(src, p, t, seen, bound),
        bound <= more,
    ensures
        knows(src, p, t, seen, more),
{
    assert forall|x: u64| newer(#[trigger] t.long[encode_l3::long_slot(x)]) < more by {
        assert(newer(t.long[encode_l3::long_slot(x)]) < bound);
    }
}

/// Where the encoder stands before it has come to the repetition.
spec fn state(src: Seq<u8>, p: int, w: Work, t: Tables, seen: Set<int>) -> bool {
    &&& knows(src, p, t, seen, w.s)
    &&& 0 <= w.next_emit <= w.s
    &&& 1 <= w.s <= 1 + 10 * seen.len()
    &&& 1 <= w.repeat <= w.s
    &&& w.repeat % p != 0
    &&& w.body.len() <= w.next_emit + 16 * seen.len()
}

/// What a search comes to.
#[verifier::opaque]
spec fn search(o: Outlook, s: int, t: Tables) -> (Option<(Match, int)>, Tables) {
    o.best_from(s, t)
}

/// The match that a search comes to, from `from` on with the places `seen`.
spec fn hit(
    o: Outlook,
    p: int,
    r: (Option<(Match, int)>, Tables),
    from: int,
    seen: Set<int>,
    more: Set<int>,
) -> bool {
    match r.0 {
        None => false,
        Some((m, s)) => {
            &&& from <= s
            &&& fits(o, p, s)
            &&& is_long(o, p, m, s) || {
                &&& is_short(o, p, m, s, 8)
                &&& knows(o.src, p, r.1, more, s + 1)
                &&& seen.len() < more.len() <= p
                &&& s <= 1 + 10 * (more.len() - 1)
            }
        },
    }
}

/// A search comes to a match.
proof fn lemma_search(o: Outlook, p: int, s: int, t: Tables, seen: Set<int>) -> (more: Set<int>)
    requires
        recurs(o.src, p),
        knows(o.src, p, t, seen, s),
        0 <= o.next_emit <= s,
        1 <= s <= 1 + 10 * seen.len(),
        1 <= o.repeat <= s,
        o.repeat % p != 0,
    ensures
        hit(o, p, search(o, s, t), s, seen, more),
    decreases p - seen.len(),
{
    let src = o.src;
    let added = seen.insert(s % p);
    recurring::lemma_seen(p, seen);
    lemma_slot_of_place(src, p, s);
    lemma_best_at(o, p, s, t);
    let m = o.best_at(s, t);
    let now = encode_l3::recorded(src, t, s);
    let cur = newer(t.long[place_slot(src, s)]);
    assert(cur < s);
    if seen.contains(s % p) {
        assert(0 < cur && cur % p == s % p);
        periodic::lemma_distance(p, s, cur);
        assert(is_long(o, p, m, s));
    }
    lemma_wider(src, p, t, seen, s, s + 1);
    lemma_note(src, p, t, seen, s + 1, s);
    recurring::lemma_seen(p, added);
    let next_s = s + (s - o.next_emit) / 256 + 1;
    assert(search(o, s, t) == if m.length > 0 {
        (Some((m, s)), now)
    } else {
        search(o, next_s, now)
    }) by {
        reveal(search);
    }
    if m.length > 0 {
        added
    } else {
        assert(!seen.contains(s % p));
        assert(added.len() == seen.len() + 1);
        lemma_wider(src, p, now, added, s + 1, next_s);
        lemma_search(o, p, next_s, now, added)
    }
}

/// What becomes of a match that is known.
proof fn lemma_written(o: Outlook, p: int, w: Work, m: Match, s: int)
    requires
        fits(o, p, s),
        w.next_emit == o.next_emit,
        w.repeat == o.repeat,
        w.body.len() <= w.next_emit + 16 * p,
        is_long(o, p, m, s) || is_short(o, p, m, s, 8),
    ensures
        encode_l3::best_match(o.src, o.src.len() - 5, w, m) matches encode_l3::Written::Wrote(v)
            && {
            &&& v.s == m.s + m.length
            &&& v.next_emit == v.s
            &&& v.repeat == m.s - m.offset
            &&& w.body.len() < v.body.len() <= w.body.len() + (m.s - w.next_emit) + 14
        },
{
    let src = o.src;
    let base = m.s as int;
    let offset = m.s - m.offset;
    let length = m.length as int;
    if length >= 4 {
        recurring::lemma_cost(src, w.next_emit, base, offset, length);
    } else {
        recurring::lemma_cost(src, w.next_emit, base, offset, 4);
    }
    reveal(encode::repeated);
    reveal(encode::copied2);
    assert(m.rep ==> 1 <= encode::repeated(length).len() <= 4);
    assert(!m.rep ==> 1 <= encode::copied2(offset, length).len() <= 6);
}

/// A round either comes to the repetition and so to the end, or leaves a state with more
/// places seen.
proof fn lemma_round(src: Seq<u8>, p: int, w: Work, t: Tables, seen: Set<int>) -> (more: Set<int>)
    requires
        recurs(src, p),
        state(src, p, w, t, seen),
    ensures
        encode_l3::round(src, src.len() - 5, w, t) matches Some((done, v, u)) && {
            &&& done ==> v.next_emit == src.len() && 0 < v.body.len() <= 27 * p + 20
            &&& !done ==> {
                &&& state(src, p, v, u, more)
                &&& seen.len() < more.len() <= p
                &&& w.next_emit < v.next_emit <= src.len()
            }
        },
{
    let o = Outlook { src, next_emit: w.next_emit, repeat: w.repeat };
    let more = lemma_search(o, p, w.s, t, seen);
    recurring::lemma_seen(p, seen);
    let r = search(o, w.s, t);
    assert(r == o.best_from(w.s, t)) by {
        reveal(search);
    }
    reveal(encode_l3::round);
    if let Some((m, s)) = r.0 {
        lemma_written(o, p, w, m, s);
        if !is_long(o, p, m, s) {
            let to = m.s + m.length;
            lemma_wider(src, p, r.1, more, s + 1, to);
            lemma_range_noted(src, p, r.1, more, to, s + 1, to);
        }
    }
    more
}

/// The encoder comes to the end.
proof fn lemma_all_rounds(src: Seq<u8>, p: int, w: Work, t: Tables, seen: Set<int>)
    requires
        recurs(src, p),
        state(src, p, w, t, seen),
    ensures
        encode_l3::smallest(src, src.len() - 5, w, t) matches Some(v) && v.next_emit == src.len()
            && 0 < v.body.len() <= 27 * p + 20,
    decreases p - seen.len(),
{
    let more = lemma_round(src, p, w, t, seen);
    recurring::lemma_seen(p, seen);
    if let Some((done, v, u)) = encode_l3::round(src, src.len() - 5, w, t) {
        if !done {
            lemma_all_rounds(src, p, v, u, more);
        }
    }
}

/// Nothing has been seen at the start.
proof fn lemma_start(src: Seq<u8>, p: int)
    requires
        recurs(src, p),
    ensures
        state(src, p, encode::start_work(), encode_l3::empty_tables(), Set::empty()),
{
    let t = encode_l3::empty_tables();
    assert forall|x: u64| newer(#[trigger] t.long[encode_l3::long_slot(x)]) < 1 by {
        lemma_slots(x);
    }
    div_mod::lemma_small_mod(1, p as nat);
}

/// What is repeated gets smaller at the smallest level, whatever else comes up twice in it.
/// Input of any size that repeats up to 100 bytes becomes a few times those bytes, and at most
/// half of what it was, as long as no two of the places in them fall into one slot of the
/// table of long hashes, in which one would push the other out.
pub proof fn law_smallest_finds_repetition(src: Seq<u8>, p: int)
    requires
        src.len() <= MAX_BLOCK_SIZE,
        2 <= p <= 100,
        src.len() >= 64 * p + 64,
        forall|i: int| p <= i < src.len() ==> #[trigger] src[i] == src[i - p],
        apart(src, p),
    ensures
        block::encoded(src, Level::Smallest).len() <= 27 * p + 25,
        block::encoded(src, Level::Smallest).len() <= src.len() / 2,
        block::smaller_block(src, Level::Smallest) == Some(block::encoded(src, Level::Smallest)),
        block::smaller_chunk(src, Level::Smallest) matches Some(chunk) && chunk.len() <= 27 * p
            + 24,
{
    assert(repeats(src, p, src.len() as int));
    lemma_start(src, p);
    lemma_all_rounds(src, p, encode::start_work(), encode_l3::empty_tables(), Set::empty());
    assert(encode_l3::body_of(src) matches Some(body) && 0 < body.len() <= 27 * p + 20);
    assert(block::body_of(src, Level::Smallest) == encode_l3::body_of(src)) by {
        reveal(block::body_of);
    }
    periodic::lemma_short_body(src, Level::Smallest, 27 * p + 20);
}

} // verus!
