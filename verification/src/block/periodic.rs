//! Input that repeats a few bytes over and over: how small it gets.
use crate::block;
use crate::block::emit;
use crate::block::encode;
use crate::block::encode::Work;
use crate::block::encode_l1;
use crate::block::encode_l2;
use crate::block::encode_l3;
use crate::block::encode_l3::{Match, Outlook};
use crate::block::format::{INPUT_MARGIN, MAX_BLOCK_SIZE};
use crate::block::hash;
use crate::block::load_store;
use crate::block::match_len;
use crate::block::Level;
use vstd::arithmetic::div_mod;
use vstd::arithmetic::power2;
use vstd::prelude::*;

verus! {

/// The first `n` bytes of `src` repeat `p` bytes.
pub open spec fn repeats(src: Seq<u8>, p: int, n: int) -> bool {
    &&& 1 <= p <= n <= src.len()
    &&& forall|i: int| p <= i < n ==> #[trigger] src[i] == src[i - p]
}

/// The same `k` bytes stand at `i` and at `j`.
pub open spec fn agree(src: Seq<u8>, i: int, j: int, k: int) -> bool {
    forall|t: int| 0 <= t < k ==> src[i + t] == #[trigger] src[j + t]
}

/// In the `p` bytes that are repeated, no `k` bytes come up twice.
pub open spec fn distinct(src: Seq<u8>, p: int, k: int) -> bool {
    forall|i: int, j: int| 0 <= i < j < p ==> !#[trigger] agree(src, i, j, k)
}

/// Each byte is the one at the same place of the first `p`.
pub proof fn lemma_place(src: Seq<u8>, p: int, n: int, i: int)
    requires
        repeats(src, p, n),
        0 <= i < n,
    ensures
        src[i] == src[i % p],
        0 <= i % p < p,
    decreases i,
{
    if i >= p {
        lemma_place(src, p, n, i - p);
        div_mod::lemma_mod_sub_multiples_vanish(i, p);
    } else {
        div_mod::lemma_small_mod(i as nat, p as nat);
    }
}

/// At the same place stand the same bytes.
pub proof fn lemma_same_place(src: Seq<u8>, p: int, n: int, i: int, j: int, k: int)
    requires
        repeats(src, p, n),
        0 <= i,
        0 <= j,
        i + k <= n,
        j + k <= n,
        i % p == j % p,
    ensures
        agree(src, i, j, k),
{
    assert forall|t: int| 0 <= t < k implies src[i + t] == #[trigger] src[j + t] by {
        lemma_place(src, p, n, i + t);
        lemma_place(src, p, n, j + t);
        assert((i + t) % p == (j + t) % p) by {
            div_mod::lemma_mod_equivalence(i, j, p);
            div_mod::lemma_mod_equivalence(i + t, j + t, p);
        }
    }
}

/// The same bytes stand only at the same place.
proof fn lemma_only_there(src: Seq<u8>, p: int, n: int, i: int, j: int, k: int)
    requires
        repeats(src, p, n),
        distinct(src, p, k),
        p + k <= n,
        0 <= i,
        0 <= j,
        0 <= k,
        i + k <= n,
        j + k <= n,
        agree(src, i, j, k),
    ensures
        i % p == j % p,
{
    let a = i % p;
    let b = j % p;
    div_mod::lemma_mod_twice(i, p);
    div_mod::lemma_mod_twice(j, p);
    lemma_place(src, p, n, i % p);
    assert(0 <= a < p && 0 <= b < p) by {
        div_mod::lemma_mod_bound(i, p);
        div_mod::lemma_mod_bound(j, p);
    }
    lemma_same_place(src, p, n, a, i, k);
    lemma_same_place(src, p, n, b, j, k);
    assert forall|t: int| 0 <= t < k implies src[a + t] == #[trigger] src[b + t] by {
        assert(src[a + t] == src[i + t]);
        assert(src[b + t] == src[j + t]);
    }
    if a < b {
        assert(agree(src, a, b, k));
    } else if b < a {
        assert forall|t: int| 0 <= t < k implies src[b + t] == #[trigger] src[a + t] by {
            assert(src[a + t] == src[b + t]);
        }
        assert(agree(src, b, a, k));
    }
}

/// A match at the same place goes on to the end of what repeats.
pub proof fn lemma_goes_on(src: Seq<u8>, p: int, n: int, i: int, j: int)
    requires
        repeats(src, p, n),
        0 <= j < i <= n,
        i % p == j % p,
        n < src.len() ==> src[n] != src[n - (i - j)],
    ensures
        match_len::common_len(src, i, j) == n - i,
    decreases n - i,
{
    if i < n {
        lemma_same_place(src, p, n, i, j, 1);
        assert(src[i + 0] == src[j + 0]);
        assert((i + 1) % p == (j + 1) % p) by {
            div_mod::lemma_mod_equivalence(i, j, p);
            div_mod::lemma_mod_equivalence(i + 1, j + 1, p);
        }
        lemma_goes_on(src, p, n, i + 1, j + 1);
    }
}

/// A match at the same place goes back to the start.
proof fn lemma_goes_back(src: Seq<u8>, p: int, n: int, i: int, j: int)
    requires
        repeats(src, p, n),
        0 <= j < i <= n,
        i % p == j % p,
    ensures
        match_len::common_back(src, i, j, 0) == j,
    decreases j,
{
    if j > 0 {
        assert((i - 1) % p == (j - 1) % p) by {
            div_mod::lemma_mod_equivalence(i, j, p);
            div_mod::lemma_mod_equivalence(i - 1, j - 1, p);
        }
        lemma_same_place(src, p, n, i - 1, j - 1, 1);
        assert(src[i - 1 + 0] == src[j - 1 + 0]);
        lemma_goes_back(src, p, n, i - 1, j - 1);
    }
}

/// Eight bytes at the same place are the same number.
pub proof fn lemma_same_number(src: Seq<u8>, p: int, n: int, i: int, j: int)
    requires
        repeats(src, p, n),
        0 <= i,
        0 <= j,
        i + 8 <= n,
        j + 8 <= n,
        i % p == j % p,
    ensures
        load_store::bytes_at(src, i) == load_store::bytes_at(src, j),
{
    reveal(load_store::bytes_at);
    lemma_same_place(src, p, n, i, j, 8);
    assert(src[i + 0] == src[j + 0] && src[i + 1] == src[j + 1] && src[i + 2] == src[j + 2]);
    assert(src[i + 3] == src[j + 3] && src[i + 4] == src[j + 4] && src[i + 5] == src[j + 5]);
    assert(src[i + 6] == src[j + 6] && src[i + 7] == src[j + 7]);
}

/// Positions whose distance is a multiple of `p` are at the same place.
pub proof fn lemma_distance(p: int, i: int, j: int)
    requires
        1 <= p,
    ensures
        (i - j) % p == 0 <==> i % p == j % p,
        i - j == p ==> i % p == j % p,
        p >= 2 && i == j + 1 ==> i % p != j % p,
{
    div_mod::lemma_mod_equivalence(i, j, p);
    if i - j == p {
        div_mod::lemma_mod_self_0(p);
    }
    if p >= 2 && i == j + 1 {
        div_mod::lemma_small_mod(1, p as nat);
    }
}

/// What is written of input that repeats from start to end: `o` bytes as they are, and one
/// match.
pub open spec fn once(src: Seq<u8>, o: int) -> Seq<u8> {
    Seq::empty() + encode::literal(src, 0, o) + encode::copied(o, src.len() - o)
}

proof fn lemma_once(src: Seq<u8>, o: int)
    requires
        1 <= o,
        o + 4 <= src.len() <= MAX_BLOCK_SIZE,
    ensures
        o < once(src, o).len() <= o + 14,
{
    reveal(encode::literal);
    reveal(encode::copied);
    emit::law_literal_size(src.subrange(0, o));
    emit::lemma_sizes(o, src.len() - o);
    reveal_with_fuel(emit::byte_len, 5);
}

// The balanced encoder.

/// All positions in the tables lie before `s`, and the last one looked at, if there is one,
/// is among those recorded by many bytes.
spec fn recorded_l2(big: bool, src: Seq<u8>, t: encode_l2::Tables, s: int, last: Option<int>)
    -> bool {
    &&& forall|x: u64| 0 <= #[trigger] t.long[encode_l2::long_slot(big, x)] < s
    &&& forall|x: u64| 0 <= #[trigger] t.short[encode_l2::short_slot(big, x)] < s
    &&& last matches Some(l) ==> 0 <= l < s
        && t.long[encode_l2::long_slot(big, load_store::bytes_at(src, l))] == l
}

/// A position is recorded within the tables.
pub proof fn lemma_slots_l2(big: bool, x: u64)
    ensures
        0 <= encode_l2::long_slot(big, x) < encode_l2::empty_tables(big).long.len(),
        0 <= encode_l2::short_slot(big, x) < encode_l2::empty_tables(big).short.len(),
{
    reveal(encode_l2::long_slot);
    reveal(encode_l2::short_slot);
    power2::lemma2_to64();
    hash::lemma_hash_bounds(x, 0x100, hash::PRIME7, encode_l2::L_TABLE_BITS_BIG);
    hash::lemma_hash_bounds(x, 0x1_0000, hash::PRIME6, encode_l2::L_TABLE_BITS_64K);
    hash::lemma_hash_bounds(x, 0x100, hash::PRIME7, encode_l2::S_TABLE_BITS_BIG);
    hash::lemma_hash_bounds(x, 0x100, hash::PRIME7, encode_l2::S_TABLE_BITS_64K);
}

/// Four bytes that agree stand at the same place.
proof fn lemma_agree4(src: Seq<u8>, p: int, n: int, i: int, j: int)
    requires
        repeats(src, p, n),
        distinct(src, p, 4),
        p + 4 <= n,
        0 <= j < i,
        i + 4 <= n,
    ensures
        load_store::agree4(src, i, j) ==> (i - j) % p == 0,
        p >= 2 && i == j + 1 ==> !load_store::agree4(src, i, j),
        load_store::agree8(src, i, j) ==> load_store::agree4(src, i, j),
{
    lemma_distance(p, i, j);
    if load_store::agree4(src, i, j) {
        assert(agree(src, i, j, 4));
        lemma_only_there(src, p, n, i, j, 4);
    }
    if load_store::agree8(src, i, j) {
        assert forall|k: int| 0 <= k < 4 implies src[i + k] == #[trigger] src[j + k] by {}
    }
}

/// The tables once a position has been looked at.
spec fn looked_l2(big: bool, src: Seq<u8>, t: encode_l2::Tables, s: int) -> encode_l2::Tables {
    let x = load_store::bytes_at(src, s);
    encode_l2::Tables {
        long: t.long.update(encode_l2::long_slot(big, x), s),
        short: t.short.update(encode_l2::short_slot(big, x), s),
    }
}

proof fn lemma_looked_l2(
    big: bool,
    src: Seq<u8>,
    t: encode_l2::Tables,
    s: int,
    last: Option<int>,
    next: int,
)
    requires
        recorded_l2(big, src, t, s, last),
        sized_l2(big, t),
        0 <= s < next,
    ensures
        recorded_l2(big, src, looked_l2(big, src, t, s), next, Some(s)),
        sized_l2(big, looked_l2(big, src, t, s)),
{
    let now = looked_l2(big, src, t, s);
    lemma_slots_l2(big, load_store::bytes_at(src, s));
    assert forall|y: u64| 0 <= #[trigger] now.long[encode_l2::long_slot(big, y)] < next by {
        lemma_slots_l2(big, y);
        assert(0 <= t.long[encode_l2::long_slot(big, y)] < s);
    }
    assert forall|y: u64| 0 <= #[trigger] now.short[encode_l2::short_slot(big, y)] < next by {
        lemma_slots_l2(big, y);
        assert(0 <= t.short[encode_l2::short_slot(big, y)] < s);
    }
}

/// The tables have their size.
spec fn sized_l2(big: bool, t: encode_l2::Tables) -> bool {
    &&& t.long.len() == encode_l2::empty_tables(big).long.len()
    &&& t.short.len() == encode_l2::empty_tables(big).short.len()
}

/// A search comes to a match at the same place.
spec fn finds_l2(r: encode_l2::Search, w: Work, p: int) -> bool {
    match r {
        encode_l2::Search::Match(c, _, v, _) => {
            &&& v == (Work { s: v.s, ..w })
            &&& 1 <= v.s <= 129 * p + 1
            &&& 0 <= c < v.s
            &&& (v.s - c) % p == 0
        },
        _ => false,
    }
}

/// What a search comes to.
#[verifier::opaque]
spec fn search_l2(big: bool, src: Seq<u8>, limit: int, w: Work, t: encode_l2::Tables)
    -> encode_l2::Search {
    encode_l2::search(big, src, limit, w, t)
}

/// A position either matches one at the same place, or is passed.
proof fn lemma_look_l2(
    big: bool,
    src: Seq<u8>,
    p: int,
    limit: int,
    w: Work,
    t: encode_l2::Tables,
    last: Option<int>,
)
    requires
        repeats(src, p, src.len() as int),
        distinct(src, p, 4),
        2 <= p <= 64,
        300 * p <= src.len() <= MAX_BLOCK_SIZE,
        w.next_emit == 0,
        w.repeat == 1,
        1 <= w.s <= 129 * p,
        sized_l2(big, t),
        recorded_l2(big, src, t, w.s, last),
    ensures
        ({
            let r = search_l2(big, src, limit, w, t);
            let next = Work { s: w.s + w.s / 128 + 1, ..w };
            finds_l2(r, w, p) || (last != Some(w.s - p) && r == search_l2(
                big,
                src,
                limit,
                next,
                looked_l2(big, src, t, w.s),
            ))
        }),
{
    reveal(search_l2);
    let n = src.len() as int;
    let s = w.s;
    let x = load_store::bytes_at(src, s);
    let long = t.long[encode_l2::long_slot(big, x)];
    let short = t.short[encode_l2::short_slot(big, x)];
    let next_s = s + s / 128 + 1;
    assert(next_s <= n - INPUT_MARGIN);
    lemma_agree4(src, p, n, s, long);
    lemma_agree4(src, p, n, s, short);
    lemma_agree4(src, p, n, s + 1, s);
    if last == Some(s - p) {
        lemma_distance(p, s, s - p);
        lemma_same_number(src, p, n, s, s - p);
        lemma_same_place(src, p, n, s, s - p, 8);
        assert(long == s - p);
        assert(load_store::agree8(src, s, long));
    }
    let now = looked_l2(big, src, t, s);
    let behind = now.long[encode_l2::long_slot(big, x / 0x100)];
    lemma_looked_l2(big, src, t, s, last, s + 1);
    assert(0 <= behind <= s);
    lemma_agree4(src, p, n, s + 1, behind);
}

/// A search finds a match at the same place.
proof fn lemma_search_l2(
    big: bool,
    src: Seq<u8>,
    p: int,
    limit: int,
    w: Work,
    t: encode_l2::Tables,
    last: Option<int>,
)
    requires
        repeats(src, p, src.len() as int),
        distinct(src, p, 4),
        2 <= p <= 64,
        300 * p <= src.len() <= MAX_BLOCK_SIZE,
        w.next_emit == 0,
        w.repeat == 1,
        1 <= w.s <= 129 * p,
        sized_l2(big, t),
        recorded_l2(big, src, t, w.s, last),
        w.s >= 128 * p ==> last == Some(w.s - p),
    ensures
        finds_l2(search_l2(big, src, limit, w, t), w, p),
    decreases 129 * p - w.s,
{
    let s = w.s;
    let next_s = s + s / 128 + 1;
    lemma_look_l2(big, src, p, limit, w, t, last);
    if !finds_l2(search_l2(big, src, limit, w, t), w, p) {
        assert(s < 128 * p);
        assert(s / 128 + 1 <= p);
        if next_s >= 128 * p {
            assert(s / 128 + 1 == p);
        }
        lemma_looked_l2(big, src, t, s, last, next_s);
        lemma_search_l2(
            big,
            src,
            p,
            limit,
            Work { s: next_s, ..w },
            looked_l2(big, src, t, s),
            Some(s),
        );
    }
}

/// The match is written, and all there is with it.
proof fn lemma_found_l2(src: Seq<u8>, p: int, limit: int, w: Work, c: int)
    requires
        repeats(src, p, src.len() as int),
        2 <= p <= 64,
        300 * p <= src.len() <= MAX_BLOCK_SIZE,
        w.body == Seq::<u8>::empty(),
        w.next_emit == 0,
        w.repeat == 1,
        1 <= w.s <= 129 * p + 1,
        0 <= c < w.s,
        (w.s - c) % p == 0,
        limit == encode::limit_of(src.len() as int),
    ensures
        ({
            let o = w.s - c;
            let n = src.len() as int;
            encode_l2::found_match(src, limit, w, c) == encode_l2::Written::Wrote(
                o,
                Work { body: once(src, o), s: n, next_emit: n, repeat: o },
            )
        }),
{
    let n = src.len() as int;
    let o = w.s - c;
    lemma_distance(p, w.s, c);
    lemma_goes_back(src, p, n, w.s, c);
    lemma_distance(p, o + 4, 4);
    lemma_goes_on(src, p, n, o + 4, 4);
    assert(w.body + encode::literal(src, 0, o) =~= Seq::<u8>::empty() + encode::literal(src, 0, o));
}

/// Nothing is recorded at the start.
proof fn lemma_empty_l2(big: bool, src: Seq<u8>)
    ensures
        recorded_l2(big, src, encode_l2::empty_tables(big), 1, None),
        sized_l2(big, encode_l2::empty_tables(big)),
{
    let t = encode_l2::empty_tables(big);
    assert forall|y: u64| 0 <= #[trigger] t.long[encode_l2::long_slot(big, y)] < 1 by {
        lemma_slots_l2(big, y);
    }
    assert forall|y: u64| 0 <= #[trigger] t.short[encode_l2::short_slot(big, y)] < 1 by {
        lemma_slots_l2(big, y);
    }
}

/// One round is all there is.
proof fn lemma_round_l2(src: Seq<u8>, p: int, limit: int, w: Work, t: encode_l2::Tables)
    requires
        repeats(src, p, src.len() as int),
        2 <= p <= 64,
        300 * p <= src.len() <= MAX_BLOCK_SIZE,
        w == encode::start_work(),
        limit == encode::limit_of(src.len() as int),
        finds_l2(search_l2(src.len() > 65536, src, limit, w, t), w, p),
    ensures
        encode_l2::round(src.len() > 65536, src, limit, w, t) matches Some((done, v, _)) && {
            &&& done
            &&& v.next_emit == src.len()
            &&& 0 < v.body.len() <= 129 * p + 15
        },
{
    let big = src.len() > 65536;
    let r = search_l2(big, src, limit, w, t);
    assert(r == encode_l2::search(big, src, limit, w, t)) by {
        reveal(search_l2);
    }
    reveal(encode_l2::round);
    match r {
        encode_l2::Search::Match(c, ns, v, t2) => {
            lemma_found_l2(src, p, limit, v, c);
            lemma_once(src, v.s - c);
        },
        _ => {},
    }
}

/// The balanced encoder writes a few bytes and one match.
proof fn lemma_body_l2(src: Seq<u8>, p: int)
    requires
        repeats(src, p, src.len() as int),
        distinct(src, p, 4),
        2 <= p <= 64,
        300 * p <= src.len() <= MAX_BLOCK_SIZE,
    ensures
        encode_l2::body_of(src) matches Some(body) && 0 < body.len() <= 129 * p + 15,
{
    let big = src.len() > 65536;
    let limit = encode::limit_of(src.len() as int);
    let w = encode::start_work();
    let t = encode_l2::empty_tables(big);
    lemma_empty_l2(big, src);
    lemma_search_l2(big, src, p, limit, w, t, None);
    lemma_round_l2(src, p, limit, w, t);
}

// The smallest encoder.

/// The search for the first match.
spec fn at_start(src: Seq<u8>) -> Outlook {
    Outlook { src, next_emit: 0, repeat: 1 }
}

/// Where a match is, it is one at the same place, from the start of the input to its end.
spec fn whole(m: Match, n: int, p: int, most: int) -> bool {
    m.length > 0 ==> {
        &&& !m.rep
        &&& m.offset == 0
        &&& 1 <= m.s <= most
        &&& m.s as int % p == 0
        &&& m.s + m.length == n
    }
}

/// A candidate that is tried either gives nothing, or a match at the same place.
proof fn lemma_tried(src: Seq<u8>, p: int, best: Match, offset: int, s: int, most: int)
    requires
        repeats(src, p, src.len() as int),
        distinct(src, p, 3),
        2 <= p <= 64,
        300 * p <= src.len() <= MAX_BLOCK_SIZE,
        whole(best, src.len() as int, p, most),
        0 <= offset <= 0xffff_ffff,
        1 <= s <= most <= 260 * p,
    ensures
        ({
            let o = at_start(src);
            let r = o.tried(best, offset, s);
            &&& whole(r, src.len() as int, p, most)
            &&& best.length > 0 ==> r.length > 0
            &&& 0 < offset < s && (s - offset) % p == 0 ==> r.length > 0
        }),
{
    let n = src.len() as int;
    if encode_l3::match_rejected(src, offset, s, best) {
        if 0 < offset < s && (s - offset) % p == 0 && best.length == 0 {
            lemma_distance(p, s, offset);
            lemma_same_place(src, p, n, s, offset, 4);
            assert(forall|k: int| 0 <= k < 4 ==> src[s + k] == #[trigger] src[offset + k]);
        }
    } else {
        assert forall|t: int| 0 <= t < 3 implies src[s + t] == #[trigger] src[offset + t] by {}
        assert(agree(src, s, offset, 3));
        lemma_only_there(src, p, n, s, offset, 3);
        lemma_distance(p, s, offset);
        lemma_goes_back(src, p, n, s, offset);
        lemma_goes_on(src, p, n, s, offset);
        let m = encode_l3::full_match(src, offset, s, 0, false);
        assert(m.offset == 0 && m.s == s - offset && m.length == offset + n - s);
        let score = encode_l3::spec_score(m, 0);
        assert(score > -m.s);
    }
}

/// The offset of the last copy, which is one, gives nothing.
proof fn lemma_no_repeat(src: Seq<u8>, p: int, best: Match, s: int)
    requires
        repeats(src, p, src.len() as int),
        distinct(src, p, 3),
        2 <= p,
        p + 8 <= src.len(),
        1 <= s,
        s + 4 <= src.len() <= MAX_BLOCK_SIZE,
    ensures
        at_start(src).with_repeat(best, s) == best,
{
    reveal(Outlook::with_repeat);
    if forall|k: int| 0 <= k < 3 ==> src[s + k] == #[trigger] src[s - 1 + k] {
        assert(agree(src, s, s - 1, 3));
        lemma_only_there(src, p, src.len() as int, s, s - 1, 3);
        lemma_distance(p, s, s - 1);
    }
}

/// A table entry either gives nothing, or a match at the same place.
proof fn lemma_entry(src: Seq<u8>, p: int, best: Match, entry: u64, s: int, most: int)
    requires
        repeats(src, p, src.len() as int),
        distinct(src, p, 3),
        2 <= p <= 64,
        300 * p <= src.len() <= MAX_BLOCK_SIZE,
        whole(best, src.len() as int, p, most),
        1 <= s <= most <= 260 * p,
    ensures
        ({
            let o = at_start(src);
            let r = o.with_entry(best, entry, None, s);
            let cur = entry as int % 0x1_0000_0000;
            &&& whole(r, src.len() as int, p, most)
            &&& best.length > 0 ==> r.length > 0
            &&& 0 < cur < s && (s - cur) % p == 0 ==> r.length > 0
        }),
{
    reveal(Outlook::with_entry);
    let o = at_start(src);
    let cur = entry as int % 0x1_0000_0000;
    let prev = entry as int / 0x1_0000_0000;
    lemma_tried(src, p, best, cur, s, most);
    lemma_tried(src, p, o.tried(best, cur, s), prev, s, most);
}

/// The best match at a position, if there is one, is one at the same place; there is one
/// where the position that many bytes were last recorded for is at the same place.
proof fn lemma_best_at(src: Seq<u8>, p: int, s: int, t: encode_l3::Tables)
    requires
        repeats(src, p, src.len() as int),
        distinct(src, p, 3),
        2 <= p <= 64,
        300 * p <= src.len() <= MAX_BLOCK_SIZE,
        1 <= s <= 257 * p,
    ensures
        ({
            let o = at_start(src);
            let r = o.best_at(s, t);
            let x = load_store::bytes_at(src, s);
            let cur = t.long[encode_l3::long_slot(x)] as int % 0x1_0000_0000;
            &&& whole(r, src.len() as int, p, 257 * p + 2)
            &&& 0 < cur < s && (s - cur) % p == 0 ==> r.length > 0
        }),
{
    let o = at_start(src);
    let most = 257 * p + 2;
    let none = encode_l3::spec_no_match(0, 0);
    let x = load_store::bytes_at(src, s);
    let a = o.with_entry(none, t.long[encode_l3::long_slot(x)], None, s);
    let b = o.with_entry(a, t.short[encode_l3::short_slot(x)], None, s);
    lemma_entry(src, p, none, t.long[encode_l3::long_slot(x)], s, most);
    lemma_entry(src, p, a, t.short[encode_l3::short_slot(x)], s, most);
    lemma_no_repeat(src, p, b, s);
    lemma_no_repeat(src, p, b, s + 1);
    reveal(Outlook::best_at);
    if b.length > 0 {
        lemma_ahead(src, p, b, s, t);
        reveal(Outlook::at_end);
    }
}

proof fn lemma_ahead(src: Seq<u8>, p: int, best: Match, s: int, t: encode_l3::Tables)
    requires
        repeats(src, p, src.len() as int),
        distinct(src, p, 3),
        2 <= p <= 64,
        300 * p <= src.len() <= MAX_BLOCK_SIZE,
        1 <= s <= 257 * p,
        whole(best, src.len() as int, p, 257 * p + 2),
        best.length > 0,
    ensures
        ({
            let r = at_start(src).ahead(best, s, t);
            whole(r, src.len() as int, p, 257 * p + 2) && r.length > 0
        }),
{
    reveal(Outlook::ahead);
    let o = at_start(src);
    let most = 257 * p + 2;
    let x1 = load_store::bytes_at(src, s + 1);
    let x2 = load_store::bytes_at(src, s + 2);
    let a = o.with_entry(best, t.short[encode_l3::short_slot(x1)], None, s + 1);
    lemma_entry(src, p, best, t.short[encode_l3::short_slot(x1)], s + 1, most);
    let b = o.with_entry(a, t.long[encode_l3::long_slot(x1)], None, s + 1);
    lemma_entry(src, p, a, t.long[encode_l3::long_slot(x1)], s + 1, most);
    lemma_no_repeat(src, p, b, s + 2);
    let d = o.with_entry(b, t.short[encode_l3::short_slot(x2)], None, s + 2);
    lemma_entry(src, p, b, t.short[encode_l3::short_slot(x2)], s + 2, most);
    lemma_entry(src, p, d, t.long[encode_l3::long_slot(x2)], s + 2, most);
}

/// The last position looked at is the newer one recorded for many bytes.
spec fn recorded_l3(src: Seq<u8>, t: encode_l3::Tables, s: int, last: Option<int>) -> bool {
    &&& t.long.len() == encode_l3::L_TABLE_SIZE
    &&& last matches Some(l) ==> {
        &&& 0 < l < s
        &&& t.long[encode_l3::long_slot(load_store::bytes_at(src, l))] as int % 0x1_0000_0000 == l
    }
}

proof fn lemma_recorded_l3(src: Seq<u8>, t: encode_l3::Tables, s: int, next: int)
    requires
        t.long.len() == encode_l3::L_TABLE_SIZE,
        0 < s < next,
        s <= MAX_BLOCK_SIZE,
    ensures
        recorded_l3(src, encode_l3::recorded(src, t, s), next, Some(s)),
{
    let x = load_store::bytes_at(src, s);
    reveal(encode_l3::long_slot);
    power2::lemma2_to64();
    hash::lemma_hash_bounds(x, 1, hash::PRIME8, encode_l3::L_TABLE_BITS);
    let e = t.long[encode_l3::long_slot(x)];
    let r = e as int % 0x1_0000_0000;
    assert(encode_l3::packed(s, e) == s + r * 0x1_0000_0000);
    assert((s + r * 0x1_0000_0000) % 0x1_0000_0000 == s);
}

/// What a search comes to.
#[verifier::opaque]
spec fn search_l3(src: Seq<u8>, s: int, t: encode_l3::Tables) -> (
    Option<(Match, int)>,
    encode_l3::Tables,
) {
    at_start(src).best_from(s, t)
}

/// A search comes to a match at the same place.
spec fn finds_l3(r: (Option<(Match, int)>, encode_l3::Tables), n: int, p: int) -> bool {
    match r.0 {
        Some((m, _)) => m.length > 0 && whole(m, n, p, 257 * p + 2),
        None => false,
    }
}

proof fn lemma_look_l3(src: Seq<u8>, p: int, s: int, t: encode_l3::Tables, last: Option<int>)
    requires
        repeats(src, p, src.len() as int),
        distinct(src, p, 3),
        2 <= p <= 64,
        300 * p <= src.len() <= MAX_BLOCK_SIZE,
        1 <= s <= 257 * p,
        recorded_l3(src, t, s, last),
    ensures
        ({
            let r = search_l3(src, s, t);
            finds_l3(r, src.len() as int, p) || (last != Some(s - p) && (s < 256 * p ==> r
                == search_l3(src, s + s / 256 + 1, encode_l3::recorded(src, t, s))))
        }),
{
    reveal(search_l3);
    let n = src.len() as int;
    let o = at_start(src);
    lemma_best_at(src, p, s, t);
    assert(s / 256 + 1 <= 65);
    assert(s < 256 * p ==> s / 256 + 1 <= p);
    if last == Some(s - p) {
        lemma_distance(p, s, s - p);
        lemma_same_number(src, p, n, s, s - p);
    }
}

/// A search finds a match at the same place.
proof fn lemma_search_l3(src: Seq<u8>, p: int, s: int, t: encode_l3::Tables, last: Option<int>)
    requires
        repeats(src, p, src.len() as int),
        distinct(src, p, 3),
        2 <= p <= 64,
        300 * p <= src.len() <= MAX_BLOCK_SIZE,
        1 <= s <= 257 * p,
        recorded_l3(src, t, s, last),
        s >= 256 * p ==> last == Some(s - p),
    ensures
        finds_l3(search_l3(src, s, t), src.len() as int, p),
    decreases 257 * p - s,
{
    let next_s = s + s / 256 + 1;
    lemma_look_l3(src, p, s, t, last);
    if !finds_l3(search_l3(src, s, t), src.len() as int, p) {
        assert(s / 256 + 1 <= p);
        if next_s >= 256 * p {
            assert(s / 256 + 1 == p);
        }
        lemma_recorded_l3(src, t, s, next_s);
        lemma_search_l3(src, p, next_s, encode_l3::recorded(src, t, s), Some(s));
    }
}

/// The match is written, and all there is with it.
proof fn lemma_found_l3(src: Seq<u8>, p: int, w: Work, m: Match)
    requires
        2 <= p <= 64,
        300 * p <= src.len() <= MAX_BLOCK_SIZE,
        w == encode::start_work(),
        m.length > 0,
        whole(m, src.len() as int, p, 257 * p + 2),
    ensures
        ({
            let n = src.len() as int;
            let o = m.s as int;
            encode_l3::best_match(src, n - 5, w, m) == encode_l3::Written::Wrote(
                Work { body: once(src, o), s: n, next_emit: n, repeat: o },
            )
        }),
{
    let o = m.s as int;
    let e = Seq::<u8>::empty();
    let a = encode::literal(src, 0, o);
    let b = encode::copied(o, src.len() - o);
    assert(e + (a + b) =~= e + a + b);
}

/// One round is all there is.
proof fn lemma_round_l3(src: Seq<u8>, p: int, w: Work, t: encode_l3::Tables)
    requires
        2 <= p <= 64,
        300 * p <= src.len() <= MAX_BLOCK_SIZE,
        w == encode::start_work(),
        finds_l3(search_l3(src, 1, t), src.len() as int, p),
    ensures
        encode_l3::round(src, src.len() - 5, w, t) matches Some((done, v, _)) && {
            &&& done
            &&& v.next_emit == src.len()
            &&& 0 < v.body.len() <= 257 * p + 16
        },
{
    let r = search_l3(src, 1, t);
    assert(r == at_start(src).best_from(1, t)) by {
        reveal(search_l3);
    }
    reveal(encode_l3::round);
    if let Some((m, s)) = r.0 {
        lemma_found_l3(src, p, w, m);
        lemma_once(src, m.s as int);
    }
}

/// The smallest encoder writes a few bytes and one match.
proof fn lemma_body_l3(src: Seq<u8>, p: int)
    requires
        repeats(src, p, src.len() as int),
        distinct(src, p, 3),
        2 <= p <= 64,
        300 * p <= src.len() <= MAX_BLOCK_SIZE,
    ensures
        encode_l3::body_of(src) matches Some(body) && 0 < body.len() <= 257 * p + 16,
{
    let t = encode_l3::empty_tables();
    lemma_search_l3(src, p, 1, t, None);
    lemma_round_l3(src, p, encode::start_work(), t);
}

// The fastest encoder.

/// A product of which the upper part is lost depends on the low bytes alone.
proof fn lemma_low_product(x: u64)
    ensures
        ({
            let low = x as int % 0x1_0000_0000_0000;
            &&& x.wrapping_mul(0x1_0000) as int == (low * 0x1_0000) % 0x1_0000_0000_0000_0000
            &&& x.wrapping_mul(0x100_0000) as int == (low * 0x100_0000)
                % 0x1_0000_0000_0000_0000
        }),
{
    let low = x as int % 0x1_0000_0000_0000;
    let high = x as int / 0x1_0000_0000_0000;
    assert(x == high * 0x1_0000_0000_0000 + low);
    assert(x * 0x1_0000 == 0x1_0000_0000_0000_0000 * high + low * 0x1_0000);
    div_mod::lemma_mod_multiples_vanish(high, low * 0x1_0000, 0x1_0000_0000_0000_0000);
    assert(x * 0x100_0000 == 0x1_0000_0000_0000_0000 * (high * 0x100) + low * 0x100_0000);
    div_mod::lemma_mod_multiples_vanish(high * 0x100, low * 0x100_0000, 0x1_0000_0000_0000_0000);
}

/// Numbers with the same low bytes are hashed to the same slot.
proof fn lemma_same_slot(big: bool, x: u64, y: u64)
    requires
        x % 0x1_0000_0000_0000 == y % 0x1_0000_0000_0000,
    ensures
        encode_l1::slot(big, x) == encode_l1::slot(big, y),
{
    reveal(encode_l1::slot);
    lemma_low_product(x);
    lemma_low_product(y);
}

/// Where six bytes agree with six that stand two behind another place, so do the numbers.
proof fn lemma_low_bytes(src: Seq<u8>, i: int, j: int)
    requires
        0 <= i,
        i + 8 <= src.len(),
        0 <= j,
        j + 8 <= src.len(),
        agree(src, i, j + 2, 6),
    ensures
        load_store::bytes_at(src, i) as int % 0x1_0000_0000_0000 == (load_store::bytes_at(src, j)
            / 0x1_0000) as int % 0x1_0000_0000_0000,
{
    reveal(load_store::bytes_at);
    assert(src[i + 0] == src[j + 2 + 0] && src[i + 1] == src[j + 2 + 1]);
    assert(src[i + 2] == src[j + 2 + 2] && src[i + 3] == src[j + 2 + 3]);
    assert(src[i + 4] == src[j + 2 + 4] && src[i + 5] == src[j + 2 + 5]);
    let low = src[i] + 0x100 * src[i + 1] + 0x1_0000 * src[i + 2] + 0x100_0000 * src[i + 3]
        + 0x1_0000_0000 * src[i + 4] + 0x100_0000_0000 * src[i + 5];
    assert(0 <= low < 0x1_0000_0000_0000);
    let top = src[i + 6] + 0x100 * src[i + 7];
    let x = load_store::spec_load64(src, i);
    let y = load_store::spec_load64(src, j);
    assert(x == low + top * 0x1_0000_0000_0000);
    assert(y == src[j] + 0x100 * src[j + 1] + low * 0x1_0000);
    assert(x % 0x1_0000_0000_0000 == low);
    assert(y / 0x1_0000 == low);
}

proof fn lemma_slots_l1(big: bool, x: u64)
    ensures
        0 <= encode_l1::slot(big, x) < size_l1(big),
{
    reveal(encode_l1::slot);
    power2::lemma2_to64();
    hash::lemma_hash_bounds(x, 0x1_0000, hash::PRIME6, encode_l1::TABLE_BITS_BIG);
    hash::lemma_hash_bounds(x, 0x100_0000, hash::PRIME5, encode_l1::TABLE_BITS_64K);
}

/// The size of the table.
spec fn size_l1(big: bool) -> int {
    if big {
        encode_l1::TABLE_SIZE_BIG as int
    } else {
        encode_l1::TABLE_SIZE_64K as int
    }
}

/// All positions in the table lie before `s`; the last of the three that were looked at
/// together, if there are any, is among them.
spec fn recorded_l1(big: bool, src: Seq<u8>, t: Seq<int>, s: int, last: Option<int>) -> bool {
    &&& t.len() == size_l1(big)
    &&& forall|x: u64| 0 <= #[trigger] t[encode_l1::slot(big, x)] < s
    &&& last matches Some(l) ==> {
        &&& 0 <= l
        &&& l + 2 < s
        &&& t[encode_l1::slot(big, load_store::bytes_at(src, l) / 0x1_0000)] == l + 2
    }
}

/// The table once three positions have been looked at.
spec fn looked_l1(big: bool, src: Seq<u8>, t: Seq<int>, s: int) -> Seq<int> {
    let x = load_store::bytes_at(src, s);
    t.update(encode_l1::slot(big, x), s).update(encode_l1::slot(big, x / 0x100), s + 1).update(
        encode_l1::slot(big, x / 0x1_0000),
        s + 2,
    )
}

proof fn lemma_looked_l1(
    big: bool,
    src: Seq<u8>,
    t: Seq<int>,
    s: int,
    last: Option<int>,
    next: int,
)
    requires
        recorded_l1(big, src, t, s, last),
        0 <= s,
        s + 2 < next,
    ensures
        recorded_l1(big, src, looked_l1(big, src, t, s), next, Some(s)),
{
    let now = looked_l1(big, src, t, s);
    let x = load_store::bytes_at(src, s);
    lemma_slots_l1(big, x);
    lemma_slots_l1(big, x / 0x100);
    lemma_slots_l1(big, x / 0x1_0000);
    assert forall|y: u64| 0 <= #[trigger] now[encode_l1::slot(big, y)] < next by {
        lemma_slots_l1(big, y);
        assert(0 <= t[encode_l1::slot(big, y)] < s);
    }
}

/// What a search comes to.
#[verifier::opaque]
spec fn search_l1(big: bool, src: Seq<u8>, limit: int, w: Work, t: Seq<int>) -> encode_l1::Search {
    encode_l1::search(big, src, limit, w, t)
}

/// A search comes to a match at the same place.
spec fn finds_l1(big: bool, r: encode_l1::Search, w: Work, p: int) -> bool {
    match r {
        encode_l1::Search::Match(c, v, t) => {
            &&& v == (Work { s: v.s, ..w })
            &&& 1 <= v.s <= 66 * p
            &&& 0 <= c < v.s
            &&& (v.s - c) % p == 0
            &&& t.len() == size_l1(big)
            &&& forall|x: u64| 0 <= #[trigger] t[encode_l1::slot(big, x)] < 66 * p + 3
        },
        _ => false,
    }
}

/// Three positions either match one at the same place, or are passed.
proof fn lemma_look_l1(
    big: bool,
    src: Seq<u8>,
    p: int,
    n: int,
    limit: int,
    w: Work,
    t: Seq<int>,
    last: Option<int>,
)
    requires
        repeats(src, p, n),
        distinct(src, p, 4),
        3 <= p <= 30,
        512 * p <= n <= src.len() <= MAX_BLOCK_SIZE,
        w.next_emit == 0,
        w.repeat == 1,
        1 <= w.s <= 65 * p,
        recorded_l1(big, src, t, w.s, last),
    ensures
        ({
            let r = search_l1(big, src, limit, w, t);
            let next = Work { s: w.s + w.s / encode_l1::patience(big) + 4, ..w };
            finds_l1(big, r, w, p) || (last != Some(w.s - p - 2) && r == search_l1(
                big,
                src,
                limit,
                next,
                looked_l1(big, src, t, w.s),
            ))
        }),
{
    reveal(search_l1);
    let s = w.s;
    let x = load_store::bytes_at(src, s);
    let c0 = t[encode_l1::slot(big, x)];
    let c1 = t[encode_l1::slot(big, x / 0x100)];
    let two = t.update(encode_l1::slot(big, x), s).update(encode_l1::slot(big, x / 0x100), s + 1);
    let c2 = two[encode_l1::slot(big, x / 0x1_0000)];
    lemma_slots_l1(big, x);
    lemma_slots_l1(big, x / 0x100);
    lemma_slots_l1(big, x / 0x1_0000);
    assert(s + s / encode_l1::patience(big) + 4 <= src.len() - INPUT_MARGIN);
    assert(0 <= c2 < s + 2) by {
        assert(0 <= t[encode_l1::slot(big, x / 0x1_0000)] < s);
    }
    lemma_agree4(src, p, n, s + 1, s);
    lemma_agree4(src, p, n, s, c0);
    lemma_agree4(src, p, n, s + 1, c1);
    lemma_agree4(src, p, n, s + 2, c2);
    if last == Some(s - p - 2) {
        let l = s - p - 2;
        lemma_distance(p, s, l + 2);
        lemma_same_place(src, p, n, s, l + 2, 6);
        lemma_low_bytes(src, s, l);
        lemma_same_slot(big, x, load_store::bytes_at(src, l) / 0x1_0000);
        assert(c0 == l + 2);
        lemma_same_place(src, p, n, s, l + 2, 4);
        assert(load_store::agree4(src, s, c0));
    }
    lemma_looked_l1(big, src, t, s, last, s + 3);
    assert forall|y: u64| 0 <= #[trigger] two[encode_l1::slot(big, y)] < s + 3 by {
        lemma_slots_l1(big, y);
        assert(0 <= t[encode_l1::slot(big, y)] < s);
    }
}

/// A search finds a match at the same place.
proof fn lemma_search_l1(
    big: bool,
    src: Seq<u8>,
    p: int,
    n: int,
    limit: int,
    w: Work,
    t: Seq<int>,
    last: Option<int>,
)
    requires
        repeats(src, p, n),
        distinct(src, p, 4),
        3 <= p <= 30,
        512 * p <= n <= src.len() <= MAX_BLOCK_SIZE,
        w.next_emit == 0,
        w.repeat == 1,
        1 <= w.s <= 65 * p,
        recorded_l1(big, src, t, w.s, last),
        w.s >= encode_l1::patience(big) * (p - 1) ==> last == Some(w.s - p - 2),
    ensures
        finds_l1(big, search_l1(big, src, limit, w, t), w, p),
    decreases 65 * p - w.s,
{
    let s = w.s;
    let k = encode_l1::patience(big);
    let next_s = s + s / k + 4;
    lemma_look_l1(big, src, p, n, limit, w, t, last);
    if !finds_l1(big, search_l1(big, src, limit, w, t), w, p) {
        assert(s < k * (p - 1));
        assert(k == 64 || k == 32);
        assert(s / k + 4 <= p + 2);
        if next_s >= k * (p - 1) {
            assert(s / k + 4 == p + 2);
        }
        lemma_looked_l1(big, src, t, s, last, next_s);
        lemma_search_l1(
            big,
            src,
            p,
            n,
            limit,
            Work { s: next_s, ..w },
            looked_l1(big, src, t, s),
            Some(s),
        );
    }
}

/// What is written of the first `n` bytes where they repeat: `o` of them as they are, and one
/// match.
spec fn once_to(src: Seq<u8>, o: int, n: int) -> Seq<u8> {
    Seq::empty() + encode::literal(src, 0, o) + encode::copied(o, n - o)
}

/// A literal takes its bytes and a few more, and a match a few.
pub proof fn lemma_written(src: Seq<u8>, a: int, b: int, offset: int, length: int)
    requires
        0 <= a <= b <= src.len() <= MAX_BLOCK_SIZE,
        1 <= offset <= src.len(),
        4 <= length <= src.len(),
    ensures
        b - a <= encode::literal(src, a, b).len() <= b - a + 4,
        1 <= encode::copied(offset, length).len() <= 10,
{
    reveal(encode::literal);
    reveal(encode::copied);
    emit::law_literal_size(src.subrange(a, b));
    emit::lemma_sizes(offset, length);
    reveal_with_fuel(emit::byte_len, 5);
}

/// The first `n` bytes repeat `p` bytes; then comes one byte, which is not among those, over
/// and over.
#[verifier::opaque]
pub open spec fn two_stretches(src: Seq<u8>, p: int, n: int) -> bool {
    &&& repeats(src, p, n)
    &&& n < src.len()
    &&& forall|i: int| 0 <= i < n ==> #[trigger] src[i] != src[n]
    &&& forall|i: int| n <= i < src.len() ==> #[trigger] src[i] == src[n]
}

/// A byte of one of two stretches.
proof fn lemma_stretch(src: Seq<u8>, p: int, n: int, i: int)
    requires
        two_stretches(src, p, n),
    ensures
        repeats(src, p, n),
        n < src.len(),
        0 <= i < n ==> src[i] != src[n],
        n <= i < src.len() ==> src[i] == src[n],
{
    reveal(two_stretches);
}

/// A match at the same place goes back to the start, and on to where the first stretch ends.
proof fn lemma_extent_l1(src: Seq<u8>, p: int, n: int, s: int, c: int)
    requires
        two_stretches(src, p, n),
        0 <= c < s,
        s + 8 <= n,
        n + 8 <= src.len(),
        (s - c) % p == 0,
        p >= 1,
    ensures
        match_len::common_back(src, s, c, 0) == c,
        match_len::common_words(src, s - c + 4, 4) == n - (s - c + 4),
{
    let o = s - c;
    lemma_stretch(src, p, n, n - o);
    lemma_distance(p, s, c);
    lemma_goes_back(src, p, n, s, c);
    lemma_distance(p, o + 4, 4);
    lemma_goes_on(src, p, n, o + 4, 4);
}

/// The match is written, up to where the first stretch ends.
proof fn lemma_found_l1(big: bool, src: Seq<u8>, p: int, n: int, limit: int, w: Work, c: int)
    requires
        two_stretches(src, p, n),
        3 <= p <= 30,
        512 * p <= n,
        n + 64 <= src.len() <= MAX_BLOCK_SIZE,
        w.body == Seq::<u8>::empty(),
        w.next_emit == 0,
        1 <= w.s <= 66 * p,
        0 <= c < w.s,
        (w.s - c) % p == 0,
        n <= limit,
    ensures
        ({
            let o = w.s - c;
            &&& encode_l1::found_match(src, limit, w, c, encode_l1::most_lits(big)) == Some(
                Work { body: once_to(src, o, n), s: n, next_emit: n, repeat: o },
            )
            &&& 3 <= o <= 66 * p
        }),
{
    let o = w.s - c;
    assert(o >= p) by {
        if o < p {
            div_mod::lemma_small_mod(o as nat, p as nat);
        }
    }
    lemma_extent_l1(src, p, n, w.s, c);
    assert(w.body + encode::literal(src, 0, o) =~= Seq::<u8>::empty() + encode::literal(src, 0, o));
}

/// Where the first stretch ends, no match starts.
proof fn lemma_chain_l1(big: bool, src: Seq<u8>, p: int, n: int, limit: int, w: Work, t: Seq<int>)
    requires
        two_stretches(src, p, n),
        512 <= n,
        n + 64 <= src.len() <= MAX_BLOCK_SIZE,
        w.s == n,
        w.body.len() <= limit,
        t.len() == size_l1(big),
        forall|x: u64| 0 <= #[trigger] t[encode_l1::slot(big, x)] < n,
    ensures
        encode_l1::chain(big, src, limit, w, t) matches Some((done, v, u)) && {
            &&& !done
            &&& v == (Work { s: n + 1, ..w })
            &&& u.len() == t.len()
            &&& u[encode_l1::slot(big, load_store::bytes_at(src, n - 2) / 0x1_0000)] == n
        },
{
    let x = load_store::bytes_at(src, n - 2);
    let cand = t[encode_l1::slot(big, x / 0x1_0000)];
    lemma_slots_l1(big, x);
    lemma_slots_l1(big, x / 0x1_0000);
    lemma_stretch(src, p, n, cand);
    assert(!load_store::agree4(src, n, cand)) by {
        if load_store::agree4(src, n, cand) {
            assert(src[n + 0] == src[cand + 0]);
        }
    }
}

/// A run goes on to the end.
proof fn lemma_run(src: Seq<u8>, p: int, n: int, i: int)
    requires
        two_stretches(src, p, n),
        n < i <= src.len(),
    ensures
        match_len::common_len(src, i, i - 1) == src.len() - i,
    decreases src.len() - i,
{
    if i < src.len() {
        lemma_stretch(src, p, n, i);
        lemma_stretch(src, p, n, i - 1);
        lemma_run(src, p, n, i + 1);
    }
}

/// The search in the second stretch finds its first byte.
proof fn lemma_search_run(big: bool, src: Seq<u8>, p: int, n: int, limit: int, w: Work, t: Seq<int>)
    requires
        two_stretches(src, p, n),
        512 <= n,
        n + 64 <= src.len() <= MAX_BLOCK_SIZE,
        w.s == n + 1,
        w.next_emit == n,
        3 <= w.repeat <= n,
        t.len() == size_l1(big),
        t[encode_l1::slot(big, load_store::bytes_at(src, n - 2) / 0x1_0000)] == n,
    ensures
        search_l1(big, src, limit, w, t) matches encode_l1::Search::Match(c, v, _) && c == n && v
            == w,
{
    reveal(search_l1);
    let x = load_store::bytes_at(src, n + 1);
    assert(agree(src, n + 1, n, 6)) by {
        assert forall|k: int| 0 <= k < 6 implies src[n + 1 + k] == #[trigger] src[n + k] by {
            lemma_stretch(src, p, n, n + 1 + k);
            lemma_stretch(src, p, n, n + k);
        }
    }
    lemma_low_bytes(src, n + 1, n - 2);
    lemma_same_slot(big, x, load_store::bytes_at(src, n - 2) / 0x1_0000);
    assert(load_store::agree4(src, n + 1, n)) by {
        assert forall|k: int| 0 <= k < 4 implies src[n + 1 + k] == #[trigger] src[n + k] by {
            lemma_stretch(src, p, n, n + 1 + k);
            lemma_stretch(src, p, n, n + k);
        }
    }
    let j = n + 2 - w.repeat;
    assert(!load_store::agree4(src, n + 2, j)) by {
        if load_store::agree4(src, n + 2, j) {
            assert(src[n + 2 + 0] == src[j + 0]);
            lemma_stretch(src, p, n, j);
            lemma_stretch(src, p, n, n + 2);
        }
    }
}

/// The second stretch is written as one byte and one match, but for its last few bytes.
proof fn lemma_round_run(big: bool, src: Seq<u8>, p: int, n: int, limit: int, w: Work, t: Seq<int>)
    requires
        two_stretches(src, p, n),
        512 <= n,
        n + 64 <= src.len() <= MAX_BLOCK_SIZE,
        w.s == n + 1,
        w.next_emit == n,
        3 <= w.repeat <= n,
        t.len() == size_l1(big),
        t[encode_l1::slot(big, load_store::bytes_at(src, n - 2) / 0x1_0000)] == n,
        w.body.len() + (src.len() - n) <= limit,
    ensures
        encode_l1::round(big, src, limit, w, t) matches Some((done, v, _)) && {
            &&& done
            &&& src.len() - 8 < v.next_emit <= src.len()
            &&& w.body.len() < v.body.len() <= w.body.len() + 15
        },
{
    lemma_search_run(big, src, p, n, limit, w, t);
    let r = search_l1(big, src, limit, w, t);
    assert(r == encode_l1::search(big, src, limit, w, t)) by {
        reveal(search_l1);
    }
    reveal(encode_l1::round);
    assert(match_len::common_back(src, n + 1, n, n) == 0) by {
        lemma_stretch(src, p, n, n - 1);
    }
    lemma_run(src, p, n, n + 5);
    let end = n + 5 + match_len::common_words(src, n + 5, n + 4);
    assert(src.len() - 8 < end <= src.len());
    lemma_written(src, n, n + 1, 1, end - n - 1);
}

/// The first round writes the first stretch.
proof fn lemma_round_l1(big: bool, src: Seq<u8>, p: int, n: int, limit: int, w: Work, t: Seq<int>)
    requires
        two_stretches(src, p, n),
        3 <= p <= 30,
        512 * p <= n <= limit,
        n + 64 <= src.len() <= MAX_BLOCK_SIZE,
        w == encode::start_work(),
        finds_l1(big, search_l1(big, src, limit, w, t), w, p),
    ensures
        encode_l1::round(big, src, limit, w, t) matches Some((done, v, u)) && {
            &&& !done
            &&& v.s == n + 1
            &&& v.next_emit == n
            &&& 3 <= v.repeat <= n
            &&& v.body.len() <= 66 * p + 14
            &&& u.len() == size_l1(big)
            &&& u[encode_l1::slot(big, load_store::bytes_at(src, n - 2) / 0x1_0000)] == n
        },
{
    let r = search_l1(big, src, limit, w, t);
    assert(r == encode_l1::search(big, src, limit, w, t)) by {
        reveal(search_l1);
    }
    reveal(encode_l1::round);
    if let encode_l1::Search::Match(c, v, u) = r {
        lemma_found_l1(big, src, p, n, limit, v, c);
        let o = v.s - c;
        lemma_written(src, 0, o, o, n - o);
        let x = Work { body: once_to(src, o, n), s: n, next_emit: n, repeat: o };
        lemma_chain_l1(big, src, p, n, limit, x, u);
    }
}

/// Nothing is recorded at the start.
proof fn lemma_empty_l1(big: bool, src: Seq<u8>)
    ensures
        recorded_l1(big, src, encode::empty_table(size_l1(big)), 1, None),
{
    let t = encode::empty_table(size_l1(big));
    assert forall|y: u64| 0 <= #[trigger] t[encode_l1::slot(big, y)] < 1 by {
        lemma_slots_l1(big, y);
    }
}

/// The fastest encoder writes two stretches as a few bytes and two matches.
proof fn lemma_body_l1(src: Seq<u8>, p: int, n: int)
    requires
        two_stretches(src, p, n),
        distinct(src, p, 4),
        3 <= p <= 30,
        512 * p <= n,
        src.len() <= 16 * n,
        src.len() <= 16 * (src.len() - n),
        src.len() <= MAX_BLOCK_SIZE,
    ensures
        encode_l1::body_of(src) matches Some(body) && 0 < body.len() <= 66 * p + 41,
{
    let big = src.len() > 65536;
    let limit = encode::limit_of(src.len() as int);
    let w = encode::start_work();
    let t = encode::empty_table(size_l1(big));
    lemma_stretch(src, p, n, 0);
    lemma_empty_l1(big, src);
    lemma_search_l1(big, src, p, n, limit, w, t, None);
    lemma_round_l1(big, src, p, n, limit, w, t);
    if let Some((_, v, u)) = encode_l1::round(big, src, limit, w, t) {
        lemma_round_run(big, src, p, n, limit, v, u);
        if let Some((_, z, _)) = encode_l1::round(big, src, limit, v, u) {
            assert(encode_l1::greedy(big, src, limit, v, u) == Some(z));
            assert(encode_l1::greedy(big, src, limit, w, t) == Some(z));
            lemma_written(src, z.next_emit, src.len() as int, 1, 4);
        }
    }
}

/// At the fastest level one match for all of the input is refused.
proof fn lemma_refused_l1(src: Seq<u8>, p: int)
    requires
        repeats(src, p, src.len() as int),
        distinct(src, p, 4),
        3 <= p <= 30,
        512 * p <= src.len() <= MAX_BLOCK_SIZE,
    ensures
        encode_l1::body_of(src) is None,
{
    let n = src.len() as int;
    let big = n > 65536;
    let limit = encode::limit_of(n);
    let w = encode::start_work();
    let t = encode::empty_table(size_l1(big));
    lemma_empty_l1(big, src);
    lemma_search_l1(big, src, p, n, limit, w, t, None);
    let r = search_l1(big, src, limit, w, t);
    assert(r == encode_l1::search(big, src, limit, w, t)) by {
        reveal(search_l1);
    }
    reveal(encode_l1::round);
    if let encode_l1::Search::Match(c, v, u) = r {
        let o = v.s - c;
        lemma_distance(p, v.s, c);
        lemma_goes_back(src, p, n, v.s, c);
        lemma_distance(p, o + 4, 4);
        lemma_goes_on(src, p, n, o + 4, 4);
        assert(encode_l1::found_match(src, limit, v, c, encode_l1::most_lits(big)) is None);
    }
}

/// How many bytes may not come up twice in what is repeated: a match of so many is taken.
pub open spec fn shortest_match(level: Level) -> int {
    match level {
        Level::Smallest => 3,
        _ => 4,
    }
}

/// A block with a short body is short, and is taken.
pub proof fn lemma_short_body(src: Seq<u8>, level: Level, most: int)
    requires
        block::body_of(src, level) matches Some(body) && 0 < body.len() <= most,
        most + 8 <= src.len() <= MAX_BLOCK_SIZE,
    ensures
        block::encoded(src, level).len() <= most + 5,
        block::smaller_block(src, level) == Some(block::encoded(src, level)),
        block::smaller_chunk(src, level) matches Some(chunk) && chunk.len() <= most + 4,
{
    block::lemma_block_varint_len(src.len());
}

/// What is repeated gets smaller. Input of any size that repeats up to 64 bytes from start to
/// end becomes, at the balanced and at the smallest level, a few times those bytes, and at
/// most half of what it was where there are 600 repetitions. So do the chunks of a stream.
/// In the bytes that are repeated nothing comes up twice that is long enough for a match.
pub proof fn law_repetition_shrinks(src: Seq<u8>, p: int, level: Level)
    requires
        src.len() <= MAX_BLOCK_SIZE,
        2 <= p <= 64,
        src.len() >= 300 * p,
        forall|i: int| p <= i < src.len() ==> #[trigger] src[i] == src[i - p],
        distinct(src, p, shortest_match(level)),
        level is Balanced || level is Smallest,
    ensures
        block::encoded(src, level).len() <= 257 * p + 21,
        src.len() >= 600 * p ==> block::encoded(src, level).len() <= src.len() / 2,
        block::smaller_block(src, level) == Some(block::encoded(src, level)),
        block::smaller_chunk(src, level) matches Some(chunk) && chunk.len() <= 257 * p + 20,
{
    assert(repeats(src, p, src.len() as int));
    assert(block::body_of(src, level) == if level is Balanced {
        encode_l2::body_of(src)
    } else {
        encode_l3::body_of(src)
    }) by {
        reveal(block::body_of);
    }
    if level is Balanced {
        lemma_body_l2(src, p);
    } else {
        lemma_body_l3(src, p);
    }
    lemma_short_body(src, level, 257 * p + 16);
}

/// At the fastest level, input of any size whose first `n` bytes repeat up to 30 bytes, and
/// which goes on with another byte over and over, becomes a few times those bytes, as long as
/// neither stretch is much longer than the other.
pub proof fn law_two_stretches_shrink(src: Seq<u8>, p: int, n: int)
    requires
        src.len() <= MAX_BLOCK_SIZE,
        two_stretches(src, p, n),
        distinct(src, p, 4),
        3 <= p <= 30,
        n >= 512 * p,
        src.len() <= 16 * n,
        src.len() <= 16 * (src.len() - n),
    ensures
        block::encoded(src, Level::Fastest).len() <= 66 * p + 46,
        block::encoded(src, Level::Fastest).len() <= src.len() / 2,
        block::smaller_block(src, Level::Fastest) == Some(block::encoded(src, Level::Fastest)),
        block::smaller_chunk(src, Level::Fastest) matches Some(chunk) && chunk.len() <= 66 * p
            + 45,
{
    lemma_body_l1(src, p, n);
    assert(block::body_of(src, Level::Fastest) == encode_l1::body_of(src)) by {
        reveal(block::body_of);
    }
    lemma_short_body(src, Level::Fastest, 66 * p + 41);
}

/// At the fastest level, input that repeats a few bytes from start to end is stored as it is:
/// the one match that there would be exceeds what the output may grow to.
pub proof fn law_fastest_stores_repetition(src: Seq<u8>, p: int)
    requires
        src.len() <= MAX_BLOCK_SIZE,
        3 <= p <= 30,
        src.len() >= 512 * p,
        forall|i: int| p <= i < src.len() ==> #[trigger] src[i] == src[i - p],
        distinct(src, p, 4),
    ensures
        block::encoded(src, Level::Fastest) == block::stored_block(src),
        block::smaller_block(src, Level::Fastest) is None,
{
    assert(repeats(src, p, src.len() as int));
    lemma_refused_l1(src, p);
    reveal(block::body_of);
}

} // verus!
