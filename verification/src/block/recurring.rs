//! Input that repeats bytes over and over in which shorter stretches come up again, too: the
//! balanced encoder takes those up on the way, and comes to the repetition all the same.
use crate::block;
use crate::block::emit;
use crate::block::encode;
use crate::block::encode::Work;
use crate::block::encode_l2;
use crate::block::encode_l2::Tables;
use crate::block::format::MAX_BLOCK_SIZE;
use crate::block::load_store;
use crate::block::match_len;
use crate::block::periodic;
use crate::block::periodic::{agree, repeats};
use crate::block::Level;
use vstd::arithmetic::div_mod;
use vstd::prelude::*;
use vstd::set_lib;

verus! {

/// The places of the `p` bytes that are repeated are recorded in different slots.
pub open spec fn apart(src: Seq<u8>, p: int) -> bool {
    forall|i: int, j: int|
        0 <= i < p && 0 <= j < p && #[trigger] place_slot(src, i) == #[trigger] place_slot(src, j)
            ==> i == j
}

/// The slot in which a position is recorded by many of its bytes.
pub open spec fn place_slot(src: Seq<u8>, i: int) -> int {
    encode_l2::long_slot(src.len() > 65536, load_store::bytes_at(src, i))
}

/// The input.
spec fn recurs(src: Seq<u8>, p: int) -> bool {
    &&& repeats(src, p, src.len() as int)
    &&& apart(src, p)
    &&& 2 <= p <= 100
    &&& 64 * p + 64 <= src.len() <= MAX_BLOCK_SIZE
}

/// A position is recorded where its place is.
proof fn lemma_slot_of_place(src: Seq<u8>, p: int, i: int)
    requires
        recurs(src, p),
        0 <= i,
        i + 8 <= src.len(),
    ensures
        place_slot(src, i) == place_slot(src, i % p),
        0 <= i % p < p,
{
    periodic::lemma_place(src, p, src.len() as int, i);
    div_mod::lemma_mod_twice(i, p);
    periodic::lemma_same_number(src, p, src.len() as int, i, i % p);
}

/// Eight bytes agree only at the same place.
proof fn lemma_eight(src: Seq<u8>, p: int, i: int, j: int)
    requires
        recurs(src, p),
        0 <= i,
        0 <= j,
        i + 8 <= src.len(),
        j + 8 <= src.len(),
    ensures
        agree(src, i, j, 8) <==> i % p == j % p,
        load_store::agree8(src, i, j) <==> i % p == j % p,
        i % p == j % p ==> load_store::agree4(src, i, j),
{
    let n = src.len() as int;
    let big = src.len() > 65536;
    if load_store::agree8(src, i, j) {
        assert(agree(src, i, j, 8));
    }
    if agree(src, i, j, 8) {
        assert(load_store::bytes_at(src, i) == load_store::bytes_at(src, j)) by {
            reveal(load_store::bytes_at);
            assert(src[i + 0] == src[j + 0] && src[i + 1] == src[j + 1]);
            assert(src[i + 2] == src[j + 2] && src[i + 3] == src[j + 3]);
            assert(src[i + 4] == src[j + 4] && src[i + 5] == src[j + 5]);
            assert(src[i + 6] == src[j + 6] && src[i + 7] == src[j + 7]);
        }
        lemma_slot_of_place(src, p, i);
        lemma_slot_of_place(src, p, j);
        let a = i % p;
        let b = j % p;
        assert(place_slot(src, a) == place_slot(src, b));
        assert(a == b);
    }
    if i % p == j % p {
        periodic::lemma_same_place(src, p, n, i, j, 8);
        assert forall|k: int| 0 <= k < 4 implies src[i + k] == #[trigger] src[j + k] by {}
        assert forall|k: int| 0 <= k < 8 implies src[i + k] == #[trigger] src[j + k] by {}
        assert(load_store::agree8(src, i, j));
    }
}

/// A match at different places ends within seven bytes.
proof fn lemma_ends(src: Seq<u8>, p: int, i: int, j: int)
    requires
        recurs(src, p),
        0 <= j < i,
        i + 8 <= src.len(),
        i % p != j % p,
    ensures
        0 <= match_len::common_len(src, i, j) <= 7,
{
    match_len::lemma_common_len(src, i, j);
    lemma_eight(src, p, i, j);
    let c = match_len::common_len(src, i, j);
    if c >= 8 {
        assert forall|t: int| 0 <= t < 8 implies src[i + t] == #[trigger] src[j + t] by {
            assert(src[i + t] == src[(i + t) - (i - j)]);
        }
        assert(agree(src, i, j, 8));
    }
}

/// How far a match at different places goes both ways: it holds the four bytes that it was
/// found by, and not more than seven.
proof fn lemma_extent(src: Seq<u8>, p: int, s: int, c: int, floor: int)
    requires
        recurs(src, p),
        0 <= c < s,
        0 <= floor <= s,
        s + 16 <= src.len(),
        load_store::agree4(src, s, c),
        (s - c) % p != 0,
    ensures
        ({
            let o = s - c;
            let base = s - match_len::common_back(src, s, c, floor);
            let end = base + 4 + match_len::common_len(src, base + 4, base + 4 - o);
            let on = s + 4 + match_len::common_len(src, s + 4, s + 4 - o);
            &&& floor <= base <= s
            &&& o <= base
            &&& s + 4 <= end <= base + 7
            &&& s + 4 <= on <= base + 7
        }),
{
    let o = s - c;
    let base = s - match_len::common_back(src, s, c, floor);
    let n = src.len() as int;
    match_len::lemma_common_back(src, s, c, floor);
    periodic::lemma_distance(p, base, base - o);
    periodic::lemma_distance(p, base + 4, base + 4 - o);
    periodic::lemma_distance(p, s + 4, s + 4 - o);
    match_len::lemma_common_len(src, base, base - o);
    match_len::lemma_common_len(src, base + 4, base + 4 - o);
    match_len::lemma_common_len(src, s + 4, s + 4 - o);
    lemma_ends(src, p, base, base - o);
    let end = base + 4 + match_len::common_len(src, base + 4, base + 4 - o);
    let on = s + 4 + match_len::common_len(src, s + 4, s + 4 - o);
    let run = base + match_len::common_len(src, base, base - o);
    assert(src[s + 0] == src[c + 0] && src[s + 1] == src[c + 1] && src[s + 2] == src[c + 2] && src[s
        + 3] == src[c + 3]);
    assert forall|i: int| base <= i < s + 4 implies src[i] == #[trigger] src[i - o] by {
        if i >= s {
            let k = i - s;
            assert(src[s + k] == src[c + k]);
        }
    }
    if run < s + 4 {
        assert(src[run] == src[run - o]);
    }
    if run < end {
        assert(src[run] == src[run - o]) by {
            if run < base + 4 {
            } else {
                assert(src[run] == src[run - o]);
            }
        }
    }
    if end < run {
        assert(src[end] == src[end - o]);
    }
    if run < on {
        assert(src[run] == src[run - o]);
    }
}

/// All positions in the tables lie before `bound`, and each place in `seen` has a position at
/// it recorded.
spec fn knows(src: Seq<u8>, p: int, t: Tables, seen: Set<int>, bound: int) -> bool {
    let big = src.len() > 65536;
    &&& t.long.len() == encode_l2::empty_tables(big).long.len()
    &&& t.short.len() == encode_l2::empty_tables(big).short.len()
    &&& forall|x: u64| 0 <= #[trigger] t.long[encode_l2::long_slot(big, x)] < bound
    &&& forall|x: u64| 0 <= #[trigger] t.short[encode_l2::short_slot(big, x)] < bound
    &&& seen.subset_of(set_lib::set_int_range(0, p))
    &&& forall|f: int| #[trigger]
        seen.contains(f) ==> t.long[place_slot(src, f)] % p == f
}

/// There are no more places than bytes that are repeated.
pub proof fn lemma_seen(p: int, seen: Set<int>)
    requires
        p >= 0,
        seen.subset_of(set_lib::set_int_range(0, p)),
    ensures
        seen.finite(),
        seen.len() <= p,
{
    set_lib::lemma_int_range(0, p);
    set_lib::lemma_len_subset(seen, set_lib::set_int_range(0, p));
}

/// A position that is recorded by its long hash takes no place away, and adds its own.
proof fn lemma_note(src: Seq<u8>, p: int, t: Tables, seen: Set<int>, bound: int, i: int)
    requires
        recurs(src, p),
        knows(src, p, t, seen, bound),
        0 <= i < bound,
        i + 8 <= src.len(),
    ensures
        knows(
            src,
            p,
            encode_l2::with_long(src.len() > 65536, src, t, i),
            seen.insert(i % p),
            bound,
        ),
{
    let big = src.len() > 65536;
    let u = encode_l2::with_long(big, src, t, i);
    lemma_slot_of_place(src, p, i);
    periodic::lemma_slots_l2(big, load_store::bytes_at(src, i));
    assert forall|x: u64| 0 <= #[trigger] u.long[encode_l2::long_slot(big, x)] < bound by {
        periodic::lemma_slots_l2(big, x);
        assert(0 <= t.long[encode_l2::long_slot(big, x)] < bound);
    }
    assert forall|f: int| #[trigger] seen.insert(i % p).contains(f) implies u.long[place_slot(src, f)] % p == f by {
        assert(0 <= f < p);
        periodic::lemma_slots_l2(big, load_store::bytes_at(src, f));
        if f != i % p {
            assert(seen.contains(f));
            assert(place_slot(src, f) != place_slot(src, i % p));
        }
    }
}

/// So is one that is recorded by its short hash.
proof fn lemma_note_short(
    src: Seq<u8>,
    p: int,
    t: Tables,
    seen: Set<int>,
    bound: int,
    x: u64,
    i: int,
)
    requires
        knows(src, p, t, seen, bound),
        0 <= i < bound,
    ensures
        knows(
            src,
            p,
            Tables { short: t.short.update(encode_l2::short_slot(src.len() > 65536, x), i), ..t },
            seen,
            bound,
        ),
{
    let big = src.len() > 65536;
    let u = Tables { short: t.short.update(encode_l2::short_slot(big, x), i), ..t };
    periodic::lemma_slots_l2(big, x);
    assert forall|y: u64| 0 <= #[trigger] u.short[encode_l2::short_slot(big, y)] < bound by {
        periodic::lemma_slots_l2(big, y);
        assert(0 <= t.short[encode_l2::short_slot(big, y)] < bound);
    }
}

/// Less is known, too.
proof fn lemma_fewer(src: Seq<u8>, p: int, t: Tables, seen: Set<int>, fewer: Set<int>, bound: int, more: int)
    requires
        knows(src, p, t, seen, bound),
        fewer.subset_of(seen),
        bound <= more,
    ensures
        knows(src, p, t, fewer, more),
{
    assert forall|f: int| #[trigger] fewer.contains(f) implies t.long[place_slot(src, f)] % p == f by {
        assert(seen.contains(f));
    }
}

proof fn lemma_both(src: Seq<u8>, p: int, t: Tables, seen: Set<int>, bound: int, i: int)
    requires
        recurs(src, p),
        knows(src, p, t, seen, bound),
        0 <= i,
        i + 1 < bound,
        i + 8 <= src.len(),
    ensures
        knows(src, p, encode_l2::with_both(src.len() > 65536, src, t, i), seen, bound),
        knows(src, p, encode_l2::with_long(src.len() > 65536, src, t, i), seen, bound),
{
    let big = src.len() > 65536;
    let u = encode_l2::with_long(big, src, t, i);
    lemma_note(src, p, t, seen, bound, i);
    lemma_fewer(src, p, u, seen.insert(i % p), seen, bound, bound);
    let x = load_store::bytes_at(src, i);
    lemma_note_short(src, p, u, seen, bound, x / 0x100, i + 1);
}

proof fn lemma_ends_noted(src: Seq<u8>, p: int, t: Tables, seen: Set<int>, bound: int, a: int, b: int)
    requires
        recurs(src, p),
        knows(src, p, t, seen, bound),
        0 <= a,
        b + 1 < bound,
        b + 8 <= src.len(),
    ensures
        knows(src, p, encode_l2::with_ends(src.len() > 65536, src, t, a, b), seen, bound),
    decreases
            (if a < b {
                b - a
            } else {
                0
            }),
{
    let big = src.len() > 65536;
    if a < b {
        let u = encode_l2::with_both(big, src, t, a);
        lemma_both(src, p, t, seen, bound, a);
        lemma_both(src, p, u, seen, bound, b);
        lemma_ends_noted(
            src,
            p,
            encode_l2::with_both(big, src, u, b),
            seen,
            bound,
            a + 2,
            b - 2,
        );
    }
}

proof fn lemma_halves_noted(
    src: Seq<u8>,
    p: int,
    t: Tables,
    seen: Set<int>,
    bound: int,
    a: int,
    b: int,
    end: int,
)
    requires
        recurs(src, p),
        knows(src, p, t, seen, bound),
        0 <= a <= b + 2,
        0 <= b,
        end + 3 <= bound,
        bound + 8 <= src.len(),
    ensures
        knows(src, p, encode_l2::with_halves(src.len() > 65536, src, t, a, b, end), seen, bound),
    decreases
            (if b < end {
                end - b
            } else {
                0
            }),
{
    let big = src.len() > 65536;
    if b < end {
        let u = encode_l2::with_long(big, src, t, a);
        lemma_both(src, p, t, seen, bound, a);
        lemma_both(src, p, u, seen, bound, b);
        lemma_halves_noted(
            src,
            p,
            encode_l2::with_long(big, src, u, b),
            seen,
            bound,
            a + 2,
            b + 2,
            end,
        );
    }
}

/// What is recorded of a match takes no place away.
proof fn lemma_match_noted(
    src: Seq<u8>,
    p: int,
    t: Tables,
    seen: Set<int>,
    before: int,
    base: int,
    s: int,
)
    requires
        recurs(src, p),
        knows(src, p, t, seen, before),
        before <= s,
        0 <= base,
        base + 4 <= s,
        s + 8 <= src.len(),
    ensures
        knows(src, p, encode_l2::with_match(src.len() > 65536, src, t, base, s), seen, s),
        knows(src, p, encode_l2::with_repeat(src.len() > 65536, src, t, base, s), seen, s),
{
    let big = src.len() > 65536;
    lemma_fewer(src, p, t, seen, seen, before, s);
    lemma_ends_noted(src, p, t, seen, s, base + 1, s - 2);
    let u = encode_l2::with_both(big, src, t, base + 1);
    lemma_both(src, p, t, seen, s, base + 1);
    lemma_both(src, p, u, seen, s, s - 2);
    lemma_halves_noted(
        src,
        p,
        encode_l2::with_both(big, src, u, s - 2),
        seen,
        s,
        base + 2,
        (base + s) / 2,
        s - 3,
    );
}

/// A product of which the upper part is lost depends on the low bytes alone.
proof fn lemma_low_product(x: u64)
    ensures
        ({
            let low = x as int % 0x100_0000_0000_0000;
            &&& x.wrapping_mul(0x100) as int == (low * 0x100) % 0x1_0000_0000_0000_0000
            &&& x.wrapping_mul(0x1_0000) as int == (low * 0x1_0000) % 0x1_0000_0000_0000_0000
        }),
{
    let low = x as int % 0x100_0000_0000_0000;
    let high = x as int / 0x100_0000_0000_0000;
    assert(x == high * 0x100_0000_0000_0000 + low);
    assert(x * 0x100 == 0x1_0000_0000_0000_0000 * high + low * 0x100);
    div_mod::lemma_mod_multiples_vanish(high, low * 0x100, 0x1_0000_0000_0000_0000);
    assert(x * 0x1_0000 == 0x1_0000_0000_0000_0000 * (high * 0x100) + low * 0x1_0000);
    div_mod::lemma_mod_multiples_vanish(high * 0x100, low * 0x1_0000, 0x1_0000_0000_0000_0000);
}

/// Seven bytes as a number.
spec fn seven(src: Seq<u8>, i: int) -> int {
    src[i] + 0x100 * src[i + 1] + 0x1_0000 * src[i + 2] + 0x100_0000 * src[i + 3] + 0x1_0000_0000
        * src[i + 4] + 0x100_0000_0000 * src[i + 5] + 0x1_0000_0000_0000 * src[i + 6]
}

proof fn lemma_seven(src: Seq<u8>, i: int)
    requires
        0 <= i,
        i + 9 <= src.len(),
    ensures
        0 <= seven(src, i + 1) < 0x100_0000_0000_0000,
        load_store::bytes_at(src, i) == src[i] + 0x100 * seven(src, i + 1),
        load_store::bytes_at(src, i + 1) == seven(src, i + 1) + 0x100_0000_0000_0000 * src[i + 8],
{
    reveal(load_store::bytes_at);
}

/// The next position is recorded by the bytes behind the first one.
proof fn lemma_next_slot(src: Seq<u8>, i: int)
    requires
        0 <= i,
        i + 9 <= src.len(),
    ensures
        encode_l2::long_slot(src.len() > 65536, load_store::bytes_at(src, i) / 0x100)
            == place_slot(src, i + 1),
{
    let x = load_store::bytes_at(src, i) / 0x100;
    let y = load_store::bytes_at(src, i + 1);
    let low = seven(src, i + 1);
    lemma_seven(src, i);
    assert(x == low) by {
        let a = src[i] as int;
        assert((a + 0x100 * low) / 0x100 == low);
    }
    div_mod::lemma_small_mod(low as nat, 0x100_0000_0000_0000);
    div_mod::lemma_mod_multiples_vanish(src[i + 8] as int, low, 0x100_0000_0000_0000);
    assert(y as int % 0x100_0000_0000_0000 == low);
    lemma_low_product(x);
    lemma_low_product(y);
    reveal(encode_l2::long_slot);
}

/// Where the encoder stands before it has come to the repetition: it has written little more
/// than it has passed, and has passed little for each place it has seen.
spec fn state(src: Seq<u8>, p: int, w: Work, t: Tables, seen: Set<int>) -> bool {
    &&& knows(src, p, t, seen, w.s)
    &&& 0 <= w.next_emit <= w.s
    &&& 1 <= w.s <= 1 + 10 * seen.len()
    &&& 1 <= w.repeat <= w.s
    &&& w.repeat % p != 0
    &&& w.body.len() <= w.next_emit + 16 * seen.len()
}

/// The tables once a position has been looked at.
spec fn looked(src: Seq<u8>, t: Tables, s: int) -> Tables {
    let big = src.len() > 65536;
    let x = load_store::bytes_at(src, s);
    Tables {
        long: t.long.update(encode_l2::long_slot(big, x), s),
        short: t.short.update(encode_l2::short_slot(big, x), s),
    }
}

proof fn lemma_looked(src: Seq<u8>, p: int, t: Tables, seen: Set<int>, s: int)
    requires
        recurs(src, p),
        knows(src, p, t, seen, s),
        0 <= s,
        s + 9 <= src.len(),
    ensures
        ({
            let now = looked(src, t, s);
            let big = src.len() > 65536;
            let x = load_store::bytes_at(src, s);
            let later = Tables {
                long: now.long.update(encode_l2::long_slot(big, x / 0x100), s + 1),
                ..now
            };
            &&& knows(src, p, now, seen.insert(s % p), s + 1)
            &&& knows(src, p, later, seen.insert(s % p), s + 2)
        }),
{
    let big = src.len() > 65536;
    let x = load_store::bytes_at(src, s);
    let more = seen.insert(s % p);
    lemma_fewer(src, p, t, seen, seen, s, s + 1);
    lemma_note(src, p, t, seen, s + 1, s);
    let u = encode_l2::with_long(big, src, t, s);
    lemma_note_short(src, p, u, more, s + 1, x, s);
    let now = looked(src, t, s);
    assert(now == Tables { short: u.short.update(encode_l2::short_slot(big, x), s), ..u });
    lemma_next_slot(src, s);
    lemma_fewer(src, p, now, more, more, s + 1, s + 2);
    lemma_note(src, p, now, more, s + 2, s + 1);
    let later = encode_l2::with_long(big, src, now, s + 1);
    lemma_fewer(src, p, later, more.insert((s + 1) % p), more, s + 2, s + 2);
}

/// What a search comes to.
#[verifier::opaque]
spec fn search(src: Seq<u8>, limit: int, w: Work, t: Tables) -> encode_l2::Search {
    encode_l2::search(src.len() > 65536, src, limit, w, t)
}

/// The match that a search comes to, from a state with the places `seen` before it.
spec fn hit(src: Seq<u8>, p: int, r: encode_l2::Search, seen: Set<int>, more: Set<int>) -> bool {
    match r {
        encode_l2::Search::Match(c, _, v, t) => {
            &&& 0 <= c < v.s
            &&& 0 <= v.next_emit <= v.s <= 2 + 10 * p
            &&& load_store::agree4(src, v.s, c)
            &&& v.body.len() <= v.next_emit + 16 * p
            &&& (v.s - c) % p != 0 ==> {
                &&& knows(src, p, t, more, v.s + 2)
                &&& seen.len() < more.len() <= p
                &&& v.s + 8 <= 10 * more.len()
                &&& v.body.len() <= v.next_emit + 16 * (more.len() - 1)
            }
        },
        _ => false,
    }
}

/// A position either leads to a match, or to a match by the offset of the last copy that is
/// written on the way, or is passed.
proof fn lemma_look(src: Seq<u8>, p: int, limit: int, w: Work, t: Tables, seen: Set<int>)
    requires
        recurs(src, p),
        state(src, p, w, t, seen),
        limit == encode::limit_of(src.len() as int),
    ensures
        ({
            let r = search(src, limit, w, t);
            let s = w.s;
            let now = looked(src, t, s);
            let at = s + 1 - w.repeat;
            let next = Work { s: s + (s - w.next_emit) / 128 + 1, ..w };
            let more = seen.insert(s % p);
            let direct = (match r {
                encode_l2::Search::Match(c, _, v, u) => {
                    &&& v == (Work { s: v.s, ..w })
                    &&& s <= v.s <= s + 1
                    &&& 0 <= c < v.s
                    &&& load_store::agree4(src, v.s, c)
                    &&& knows(src, p, u, more, s + 2)
                    &&& seen.contains(s % p) ==> (v.s - c) % p == 0
                },
                _ => false,
            });
            let repeated = (match encode_l2::repeat_match(src, limit, w) {
                Some((base, v)) => {
                    &&& load_store::agree4(src, s + 1, at)
                    &&& r == search(
                        src,
                        limit,
                        v,
                        encode_l2::with_repeat(src.len() > 65536, src, now, base, v.s),
                    )
                },
                None => false,
            });
            direct || (!seen.contains(s % p) && (repeated || r == search(src, limit, next, now)))
        }),
{
    let big = src.len() > 65536;
    let s = w.s;
    let x = load_store::bytes_at(src, s);
    let long = t.long[encode_l2::long_slot(big, x)];
    let short = t.short[encode_l2::short_slot(big, x)];
    let at = s + 1 - w.repeat;
    lemma_seen(p, seen);
    lemma_looked(src, p, t, seen, s);
    let now = looked(src, t, s);
    let more = seen.insert(s % p);
    lemma_fewer(src, p, now, more, more, s + 1, s + 2);
    assert(0 <= long < s && 0 <= short < s);
    lemma_eight(src, p, s, long);
    periodic::lemma_distance(p, s, long);
    lemma_slot_of_place(src, p, s);
    if seen.contains(s % p) {
        assert(long % p == s % p);
    }
    let behind = now.long[encode_l2::long_slot(big, x / 0x100)];
    assert(0 <= behind <= s);
    if load_store::agree4(src, s + 1, at) {
        periodic::lemma_distance(p, s + 1, at);
        lemma_extent(src, p, s + 1, at, w.next_emit);
    }
    reveal(search);
}

/// A search comes to a match.
proof fn lemma_search(src: Seq<u8>, p: int, limit: int, w: Work, t: Tables, seen: Set<int>) -> (more:
    Set<int>)
    requires
        recurs(src, p),
        state(src, p, w, t, seen),
        limit == encode::limit_of(src.len() as int),
    ensures
        hit(src, p, search(src, limit, w, t), seen, more),
    decreases p - seen.len(),
{
    let s = w.s;
    let r = search(src, limit, w, t);
    let now = looked(src, t, s);
    let added = seen.insert(s % p);
    lemma_seen(p, seen);
    lemma_look(src, p, limit, w, t, seen);
    lemma_slot_of_place(src, p, s);
    lemma_looked(src, p, t, seen, s);
    lemma_seen(p, added);
    if hit(src, p, r, seen, added) {
        added
    } else {
        assert(!seen.contains(s % p));
        assert(added.len() == seen.len() + 1);
        let at = s + 1 - w.repeat;
        let next = Work { s: s + (s - w.next_emit) / 128 + 1, ..w };
        if r == search(src, limit, next, now) {
            lemma_fewer(src, p, now, added, added, s + 1, next.s);
            lemma_search(src, p, limit, next, now, added)
        } else {
            let (base, v) = encode_l2::repeat_match(src, limit, w)->0;
            lemma_repeated(src, p, limit, w, t, seen, base, v);
            lemma_search(
                src,
                p,
                limit,
                v,
                encode_l2::with_repeat(src.len() > 65536, src, now, base, v.s),
                added,
            )
        }
    }
}

/// A match by the offset of the last copy keeps the state.
proof fn lemma_repeated(
    src: Seq<u8>,
    p: int,
    limit: int,
    w: Work,
    t: Tables,
    seen: Set<int>,
    base: int,
    v: Work,
)
    requires
        recurs(src, p),
        state(src, p, w, t, seen),
        !seen.contains(w.s % p),
        encode_l2::repeat_match(src, limit, w) == Some((base, v)),
        load_store::agree4(src, w.s + 1, w.s + 1 - w.repeat),
    ensures
        state(
            src,
            p,
            v,
            encode_l2::with_repeat(src.len() > 65536, src, looked(src, t, w.s), base, v.s),
            seen.insert(w.s % p),
        ),
{
    let s = w.s;
    let at = s + 1 - w.repeat;
    let added = seen.insert(s % p);
    lemma_seen(p, seen);
    lemma_slot_of_place(src, p, s);
    lemma_looked(src, p, t, seen, s);
    periodic::lemma_distance(p, s + 1, at);
    lemma_extent(src, p, s + 1, at, w.next_emit);
    lemma_match_noted(src, p, looked(src, t, s), added, s + 1, base, v.s);
    reveal(encode::literal);
    reveal(encode::repeated);
    emit::law_literal_size(src.subrange(w.next_emit, base));
    assert(encode::repeated(v.s - base).len() <= 4);
}

/// What a match takes, with the bytes before it: a few bytes more than those.
pub proof fn lemma_cost(src: Seq<u8>, a: int, b: int, offset: int, length: int)
    requires
        0 <= a <= b <= src.len() <= MAX_BLOCK_SIZE,
        1 <= offset <= src.len(),
        4 <= length <= src.len(),
    ensures
        encode::literal(src, a, b).len() <= b - a + 4,
        1 <= encode::copied(offset, length).len() <= 10,
        1 <= encode::fused2(src, a, b, offset, length).len() <= b - a + 8,
        1 <= encode::fused3(src, a, b, offset, length).len() <= b - a + 8,
{
    periodic::lemma_written(src, a, b, offset, length);
    reveal(encode::fused2);
    reveal(encode::fused3);
}

/// What becomes of a match at different places.
proof fn lemma_found_short(src: Seq<u8>, p: int, limit: int, w: Work, c: int)
    requires
        recurs(src, p),
        limit == encode::limit_of(src.len() as int),
        0 <= c < w.s,
        0 <= w.next_emit <= w.s <= 2 + 10 * p,
        load_store::agree4(src, w.s, c),
        w.body.len() <= w.next_emit + 16 * p,
        (w.s - c) % p != 0,
    ensures
        encode_l2::found_match(src, limit, w, c) matches encode_l2::Written::Wrote(base, v) && {
            &&& w.next_emit <= base <= w.s
            &&& w.s + 4 <= v.s <= w.s + 7
            &&& v.next_emit == v.s
            &&& v.repeat == w.s - c
            &&& v.body.len() <= w.body.len() + (base - w.next_emit) + 14
        },
{
    lemma_extent(src, p, w.s, c, w.next_emit);
    let o = w.s - c;
    let base = w.s - match_len::common_back(src, w.s, c, w.next_emit);
    let length = 4 + match_len::common_len(src, base + 4, base + 4 - o);
    lemma_cost(src, w.next_emit, base, o, length);
}

/// What becomes of a match at the same place: it goes on to the end.
proof fn lemma_found_long(src: Seq<u8>, p: int, limit: int, w: Work, c: int)
    requires
        recurs(src, p),
        limit == encode::limit_of(src.len() as int),
        0 <= c < w.s,
        0 <= w.next_emit <= w.s <= 2 + 10 * p,
        w.body.len() <= w.next_emit + 16 * p,
        (w.s - c) % p == 0,
    ensures
        encode_l2::found_match(src, limit, w, c) matches encode_l2::Written::Wrote(base, v) && {
            &&& v.s == src.len()
            &&& v.next_emit == src.len()
            &&& 0 < v.body.len() <= 27 * p + 16
        },
{
    let n = src.len() as int;
    let o = w.s - c;
    let base = w.s - match_len::common_back(src, w.s, c, w.next_emit);
    match_len::lemma_common_back(src, w.s, c, w.next_emit);
    periodic::lemma_distance(p, base + 4, base + 4 - o);
    periodic::lemma_goes_on(src, p, n, base + 4, base + 4 - o);
    lemma_cost(src, w.next_emit, base, o, n - base);
}

/// A round either comes to the repetition and so to the end, or leaves a state with more
/// places seen.
proof fn lemma_round(src: Seq<u8>, p: int, limit: int, w: Work, t: Tables, seen: Set<int>) -> (more:
    Set<int>)
    requires
        recurs(src, p),
        state(src, p, w, t, seen),
        limit == encode::limit_of(src.len() as int),
    ensures
        encode_l2::round(src.len() > 65536, src, limit, w, t) matches Some((done, v, u)) && {
            &&& done ==> v.next_emit == src.len() && 0 < v.body.len() <= 27 * p + 16
            &&& !done ==> state(src, p, v, u, more) && seen.len() < more.len() <= p
        },
{
    let big = src.len() > 65536;
    let more = lemma_search(src, p, limit, w, t, seen);
    let r = search(src, limit, w, t);
    assert(r == encode_l2::search(big, src, limit, w, t)) by {
        reveal(search);
    }
    reveal(encode_l2::round);
    if let encode_l2::Search::Match(c, ns, v, u) = r {
        if (v.s - c) % p == 0 {
            lemma_found_long(src, p, limit, v, c);
        } else {
            lemma_found_short(src, p, limit, v, c);
            if let encode_l2::Written::Wrote(base, x) = encode_l2::found_match(src, limit, v, c) {
                lemma_match_noted(src, p, u, more, v.s + 2, base, x.s);
            }
        }
    }
    more
}

/// Every round moves the cursor on.
proof fn lemma_round_moves(src: Seq<u8>, p: int, limit: int, w: Work, t: Tables, seen: Set<int>)
    requires
        recurs(src, p),
        state(src, p, w, t, seen),
        limit == encode::limit_of(src.len() as int),
    ensures
        encode_l2::round(src.len() > 65536, src, limit, w, t) matches Some((done, v, u)) && (!done
            ==> w.s < v.s <= src.len()),
{
    let more = lemma_round(src, p, limit, w, t, seen);
    lemma_search_moves(src, p, limit, w, t, seen);
    let big = src.len() > 65536;
    let more = lemma_search(src, p, limit, w, t, seen);
    let r = search(src, limit, w, t);
    assert(r == encode_l2::search(big, src, limit, w, t)) by {
        reveal(search);
    }
    reveal(encode_l2::round);
    if let encode_l2::Search::Match(c, ns, v, u) = r {
        if (v.s - c) % p != 0 {
            lemma_found_short(src, p, limit, v, c);
        } else {
            lemma_found_long(src, p, limit, v, c);
        }
    }
}

/// A search does not go back.
proof fn lemma_search_moves(src: Seq<u8>, p: int, limit: int, w: Work, t: Tables, seen: Set<int>)
    requires
        recurs(src, p),
        state(src, p, w, t, seen),
        limit == encode::limit_of(src.len() as int),
    ensures
        search(src, limit, w, t) matches encode_l2::Search::Match(_, _, v, _) ==> w.s <= v.s,
    decreases p - seen.len(),
{
    let s = w.s;
    let r = search(src, limit, w, t);
    let now = looked(src, t, s);
    let added = seen.insert(s % p);
    lemma_seen(p, seen);
    lemma_look(src, p, limit, w, t, seen);
    lemma_slot_of_place(src, p, s);
    lemma_looked(src, p, t, seen, s);
    lemma_seen(p, added);
    let next = Work { s: s + (s - w.next_emit) / 128 + 1, ..w };
    let direct = (match r {
        encode_l2::Search::Match(_, _, v, _) => s <= v.s,
        _ => true,
    });
    if !direct {
        assert(added.len() == seen.len() + 1);
        if r == search(src, limit, next, now) {
            lemma_fewer(src, p, now, added, added, s + 1, next.s);
            lemma_search_moves(src, p, limit, next, now, added);
        } else {
            let (base, v) = encode_l2::repeat_match(src, limit, w)->0;
            lemma_repeated(src, p, limit, w, t, seen, base, v);
            periodic::lemma_distance(p, s + 1, s + 1 - w.repeat);
            lemma_extent(src, p, s + 1, s + 1 - w.repeat, w.next_emit);
            lemma_search_moves(
                src,
                p,
                limit,
                v,
                encode_l2::with_repeat(src.len() > 65536, src, now, base, v.s),
                added,
            );
        }
    }
}

/// The encoder comes to the end.
proof fn lemma_all_rounds(src: Seq<u8>, p: int, limit: int, w: Work, t: Tables, seen: Set<int>)
    requires
        recurs(src, p),
        state(src, p, w, t, seen),
        limit == encode::limit_of(src.len() as int),
    ensures
        encode_l2::better(src.len() > 65536, src, limit, w, t) matches Some(v) && v.next_emit
            == src.len() && 0 < v.body.len() <= 27 * p + 16,
    decreases p - seen.len(),
{
    let more = lemma_round(src, p, limit, w, t, seen);
    lemma_round_moves(src, p, limit, w, t, seen);
    lemma_seen(p, seen);
    if let Some((done, v, u)) = encode_l2::round(src.len() > 65536, src, limit, w, t) {
        if !done {
            lemma_all_rounds(src, p, limit, v, u, more);
        }
    }
}

/// Nothing has been seen at the start.
proof fn lemma_start(src: Seq<u8>, p: int)
    requires
        recurs(src, p),
    ensures
        state(
            src,
            p,
            encode::start_work(),
            encode_l2::empty_tables(src.len() > 65536),
            Set::empty(),
        ),
{
    let big = src.len() > 65536;
    let t = encode_l2::empty_tables(big);
    assert forall|y: u64| 0 <= #[trigger] t.long[encode_l2::long_slot(big, y)] < 1 by {
        periodic::lemma_slots_l2(big, y);
    }
    assert forall|y: u64| 0 <= #[trigger] t.short[encode_l2::short_slot(big, y)] < 1 by {
        periodic::lemma_slots_l2(big, y);
    }
    div_mod::lemma_small_mod(1, p as nat);
}

/// What is repeated gets smaller at the balanced level, whatever else comes up twice in it.
/// Input of any size that repeats up to 100 bytes becomes a few times those bytes, and at most
/// half of what it was, as long as no two of the places in them fall into one slot of the
/// table of long hashes, in which one would push the other out.
pub proof fn law_balanced_finds_repetition(src: Seq<u8>, p: int)
    requires
        src.len() <= MAX_BLOCK_SIZE,
        2 <= p <= 100,
        src.len() >= 64 * p + 64,
        forall|i: int| p <= i < src.len() ==> #[trigger] src[i] == src[i - p],
        apart(src, p),
    ensures
        block::encoded(src, Level::Balanced).len() <= 27 * p + 21,
        block::encoded(src, Level::Balanced).len() <= src.len() / 2,
        block::smaller_block(src, Level::Balanced) == Some(block::encoded(src, Level::Balanced)),
        block::smaller_chunk(src, Level::Balanced) matches Some(chunk) && chunk.len() <= 27 * p
            + 20,
{
    assert(repeats(src, p, src.len() as int));
    let limit = encode::limit_of(src.len() as int);
    let big = src.len() > 65536;
    lemma_start(src, p);
    lemma_all_rounds(
        src,
        p,
        limit,
        encode::start_work(),
        encode_l2::empty_tables(big),
        Set::empty(),
    );
    assert(encode_l2::body_of(src) matches Some(body) && 0 < body.len() <= 27 * p + 16);
    assert(block::body_of(src, Level::Balanced) == encode_l2::body_of(src)) by {
        reveal(block::body_of);
    }
    periodic::lemma_short_body(src, Level::Balanced, 27 * p + 16);
}

} // verus!
