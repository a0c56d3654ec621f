//! How far the entries of an index are from what they are looked up for.
use crate::block::emit;
use crate::block::format as numbers;
use crate::index;
use crate::index::wire;
use crate::index::{IndexView, OffsetPair};
use vstd::prelude::*;

verus! {

/// Up to `x`, looking an offset up gives an entry that is less than `m` before it.
pub open spec fn leads_near(s: Seq<OffsetPair>, x: int, m: int) -> bool {
    forall|o: int|
        0 <= o <= x ==> o - (#[trigger] index::entry_before(s, o)).uncompressed < m
}

/// An entry in order that is not behind an offset is not behind the one found for it.
proof fn lemma_found(s: Seq<OffsetPair>, o: int, i: int)
    requires
        index::in_order(s),
        o >= 0,
        0 <= i < s.len(),
        s[i].uncompressed <= o,
    ensures
        s[i].uncompressed <= index::entry_before(s, o).uncompressed <= o,
        s.contains(index::entry_before(s, o)),
{
    index::law_entry_before(s, o);
    assert(s[i].uncompressed <= o);
}

/// What was dropped is near the base.
proof fn lemma_dropped(s: Seq<OffsetPair>, base: int, est: int, i: int)
    requires
        0 <= i < s.len() - index::drop_within(s, base, est).len(),
    ensures
        s[i].uncompressed - base < est,
    decreases s.len(),
{
    if s.len() > 0 && s[0].uncompressed - base < est && i > 0 {
        lemma_dropped(s.skip(1), base, est, i - 1);
    }
}

/// Each entry is kept, or one is that is less than the distance before it.
proof fn lemma_kept_near(s: Seq<OffsetPair>, est: int, i: int) -> (k: int)
    requires
        index::in_order(s),
        0 <= i < s.len(),
        est >= 0,
    ensures
        0 <= k < index::thinned(s, est).len(),
        index::thinned(s, est)[k].uncompressed <= s[i].uncompressed,
        index::thinned(s, est)[k] == s[i] || s[i].uncompressed - index::thinned(
            s,
            est,
        )[k].uncompressed < est,
    decreases s.len(),
{
    let base = s[0].uncompressed as int;
    let rest = index::drop_within(s.skip(1), base, est);
    index::lemma_drop_within(s.skip(1), base, est);
    let at = s.len() - rest.len();
    assert(rest =~= s.skip(at));
    let t = index::thinned(rest, est);
    assert(index::thinned(s, est) =~= seq![s[0]] + t);
    if i == 0 {
        0
    } else if i < at {
        lemma_dropped(s.skip(1), base, est, i - 1);
        assert(s.skip(1)[i - 1] == s[i]);
        assert(s[0].uncompressed < s[i].uncompressed);
        0
    } else {
        assert(index::in_order(rest)) by {
            assert forall|a: int, b: int|
                #![trigger rest[a], rest[b]]
                0 <= a < b < rest.len() implies rest[a].uncompressed < rest[b].uncompressed
                && rest[a].compressed <= rest[b].compressed by {
                assert(rest[a] == s[at + a] && rest[b] == s[at + b]);
            }
        }
        let k = lemma_kept_near(rest, est, i - at);
        assert(rest[i - at] == s[i]);
        assert(index::thinned(s, est)[k + 1] == t[k]);
        k + 1
    }
}

/// Thinning takes what is found back by less than the distance.
proof fn lemma_thinned_near(s: Seq<OffsetPair>, est: int, x: int, m: int)
    requires
        index::in_order(s),
        leads_near(s, x, m),
        est >= 0,
    ensures
        leads_near(index::thinned(s, est), x, m + est),
{
    let t = index::thinned(s, est);
    index::lemma_thinned(s, est);
    assert forall|o: int| 0 <= o <= x implies o - (#[trigger] index::entry_before(
        t,
        o,
    )).uncompressed < m + est by {
        let e = index::entry_before(s, o);
        assert(o - e.uncompressed < m);
        index::law_entry_before(s, o);
        index::law_entry_before(t, o);
        if s.len() > 0 && s[0].uncompressed <= o {
            lemma_found(s, o, 0);
            let i = choose|i: int| 0 <= i < s.len() && s[i] == e;
            let k = lemma_kept_near(s, est, i);
            lemma_found(t, o, k);
        } else {
            lemma_none(s, o);
        }
    }
}

/// Before the first entry, what is found is the start.
proof fn lemma_none(s: Seq<OffsetPair>, o: int)
    requires
        index::in_order(s),
        s.len() > 0 ==> o < s[0].uncompressed,
    ensures
        index::entry_before(s, o).uncompressed == 0,
    decreases s.len(),
{
    if s.len() > 0 {
        let r = s.drop_last();
        if s.len() > 1 {
            assert(s[0].uncompressed < s[s.len() - 1].uncompressed);
            assert(r[0] == s[0]);
        }
        assert(index::in_order(r)) by {
            assert forall|a: int, b: int|
                #![trigger r[a], r[b]]
                0 <= a < b < r.len() implies r[a].uncompressed < r[b].uncompressed
                && r[a].compressed <= r[b].compressed by {
                assert(r[a] == s[a] && r[b] == s[b]);
            }
        }
        lemma_none(r, o);
    }
}

/// An entry more leads nearer behind it.
proof fn lemma_pushed_near(s: Seq<OffsetPair>, e: OffsetPair, x: int, gap: int, m: int)
    requires
        leads_near(s, x, m),
        x == e.uncompressed,
        0 <= gap < m,
    ensures
        leads_near(s.push(e), x + gap, m),
{
    let t = s.push(e);
    assert(t.drop_last() =~= s);
    assert forall|o: int| 0 <= o <= x + gap implies o - (#[trigger] index::entry_before(
        t,
        o,
    )).uncompressed < m by {
        if o < x {
            assert(index::entry_before(t, o) == index::entry_before(s, o));
        }
    }
}

/// An index leads near every offset, and does so when the start of each block is added to it,
/// whatever is dropped: looking up an offset up to where a block of `gap` bytes ends that
/// starts at the offset added gives an entry that is less than twice the distance of the
/// index and a block before it.
pub proof fn law_added_near(v: IndexView, compressed: u64, uncompressed: u64, gap: int)
    requires
        v.wf(),
        gap >= 0,
        v.est_block_uncomp > 0,
        v.offsets.len() > 0 ==> v.offsets.last().uncompressed < uncompressed,
        leads_near(v.offsets, uncompressed as int, 2 * v.est_block_uncomp + gap),
    ensures
        index::added(v, compressed, uncompressed) matches Ok(w) ==> leads_near(
            w.offsets,
            uncompressed + gap,
            2 * w.est_block_uncomp + gap,
        ) && w.offsets.len() > 0,
{
    let s = v.offsets;
    let est = v.est_block_uncomp as int;
    let x = uncompressed as int;
    if let Ok(w) = index::added(v, compressed, uncompressed) {
        if w == v {
            assert forall|o: int| 0 <= o <= x + gap implies o - (#[trigger] index::entry_before(
                s,
                o,
            )).uncompressed < 2 * est + gap by {
                if o > x {
                    assert(index::entry_before(s, o) == s.last());
                }
            }
        } else {
            let e = OffsetPair { compressed, uncompressed };
            let t = s.push(e);
            lemma_pushed_near(s, e, x, gap, 2 * est + gap);
            index::law_add_keeps_order(v, compressed, uncompressed);
            if t.len() > index::MAX_ADDED_ENTRIES {
                assert(index::in_order(t));
                lemma_thinned_near(t, 2 * est, x + gap, 2 * est + gap);
                index::lemma_thinned(t, 2 * est);
            }
        }
    }
}

/// An entry is added as it is where it lies at least the distance behind the last one and
/// there is room; nearer ones are left out. Where there is no room, the distance doubles.
pub proof fn law_added(v: IndexView, compressed: u64, uncompressed: u64)
    requires
        v.wf(),
        compressed <= i64::MAX,
        uncompressed <= i64::MAX,
        v.offsets.len() > 0 ==> v.offsets.last().compressed <= compressed,
    ensures
        index::added(v, compressed, uncompressed) matches Ok(w) && {
            let far = v.offsets.len() == 0 || (uncompressed > v.offsets.last().uncompressed
                && uncompressed - v.offsets.last().uncompressed >= v.est_block_uncomp);
            let room = v.offsets.len() < 65535;
            &&& !far ==> w == v
            &&& far && room ==> w == (IndexView {
                offsets: v.offsets.push(OffsetPair { compressed, uncompressed }),
                ..v
            })
            &&& far && !room ==> w.est_block_uncomp == 2 * v.est_block_uncomp
                && w.total_uncompressed == v.total_uncompressed && w.total_compressed
                == v.total_compressed
        },
{
    index::law_add_keeps_order(v, compressed, uncompressed);
}

/// The distance of the index of a writer is the size of its blocks, doubled as long as it is
/// below 1 MiB.
pub proof fn law_spacing(n: int)
    requires
        n > 0,
    ensures
        index::spacing(n) >= 0x10_0000,
        index::spacing(n) == n || index::spacing(n) < 0x20_0000,
        n >= 0x10_0000 ==> index::spacing(n) == n,
        n < 0x10_0000 ==> index::spacing(n) == index::spacing(2 * n),
    decreases
            (if n < 0x10_0000 {
                0x10_0000 - n
            } else {
                0
            }),
{
    if n < 0x10_0000 {
        law_spacing(2 * n);
    }
}

/// An index is reduced only where it has 65536 entries or more. Then every so many of its
/// entries are kept, from the first on, so that at most 65536 are left, and the distance
/// grows as many times. No more are dropped than it takes for that, or for a distance of
/// 1 MiB.
pub proof fn law_reduced(v: IndexView)
    requires
        v.wf(),
    ensures
        v.offsets.len() < 65536 ==> index::reduced(v) == v,
        v.offsets.len() >= 65536 ==> ({
            let k = index::drop_count(v) + 1;
            let w = index::reduced(v);
            let n = v.offsets.len() as int;
            &&& k >= 2
            &&& w.offsets.len() == (n + k - 1) / k
            &&& w.offsets.len() <= 65536
            &&& forall|i: int|
                #![trigger w.offsets[i]]
                0 <= i < w.offsets.len() ==> w.offsets[i] == v.offsets[i * k]
            &&& w.est_block_uncomp == (v.est_block_uncomp * k) as u64
            &&& k - 1 == (n + 1) / 65536 || v.est_block_uncomp * (k - 1) < 0x10_0000
        }),
{
    let n = v.offsets.len() as int;
    if n >= 65536 {
        let est = v.est_block_uncomp as int;
        let r0 = (n + 1) / 65536;
        let r = index::remove_count(est, n, r0);
        lemma_remove_count(est, n, r0);
        let k = r + 1;
        assert(est * (k - 1) == est * r);
        assert(n + 1 < 65536 * k);
        let q = (n + k - 1) / k;
        assert(0 <= q <= 65536) by (nonlinear_arith)
            requires
                q == (n + k - 1) / k,
                0 <= n,
                n + 1 < 65536 * k,
                k >= 2,
        ;
        assert(index::reduced(v).offsets.len() == (n + k - 1) / k);
    }
}

proof fn lemma_remove_count(est: int, len: int, r: int)
    requires
        r >= 0,
    ensures
        index::remove_count(est, len, r) >= r,
        index::remove_count(est, len, r) == r || est * index::remove_count(est, len, r)
            < 0x10_0000,
    decreases len - r,
{
    if est * (r + 1) < index::MIN_INDEX_DIST && len / (r + 1) > 1000 {
        assert(r + 1 < len) by (nonlinear_arith)
            requires
                len / (r + 1) > 1000,
                r >= 0,
        ;
        lemma_remove_count(est, len, r + 1);
    }
}

/// The bytes of an index: a chunk of type 0x40 with its length; `s2idx` and a zero; the
/// payload; the length of all of it in four bytes; a zero and `xdi2s`.
pub proof fn law_chunk_form(p: Seq<u8>)
    requires
        p.len() + 20 < 0x100_0000,
    ensures
        ({
            let b = wire::index_chunk(p);
            let n = p.len() as int;
            let end = b.skip(10 + n);
            &&& b.len() == n + 20
            &&& b[0] == 0x40
            &&& b[1] + 256 * b[2] + 65536 * b[3] == n + 16
            &&& b[4] == 's' as u8 && b[5] == '2' as u8 && b[6] == 'i' as u8 && b[7] == 'd' as u8
                && b[8] == 'x' as u8 && b[9] == 0
            &&& b.subrange(10, 10 + n) == p
            &&& end[0] + 256 * end[1] + 65536 * end[2] + 0x100_0000 * end[3] == n + 20
            &&& end[4] == 0 && end[5] == 'x' as u8 && end[6] == 'd' as u8 && end[7] == 'i' as u8
                && end[8] == '2' as u8 && end[9] == 's' as u8
        }),
{
    let b = wire::index_chunk(p);
    let n = p.len() as int;
    let len = emit::le24_bytes(n + 16);
    let size = emit::le32_bytes(n + 20);
    emit::lemma_le32_bytes(n + 20);
    lemma_parts(seq![0x40u8], len, wire::index_header(), p, size, wire::index_trailer());
    assert(b == seq![0x40u8] + len + wire::index_header() + p + size + wire::index_trailer());
    let k = n + 16;
    assert(k / 65536 == k / 256 / 256);
    let h = wire::index_header();
    let e = wire::index_trailer();
    assert(h[0] == 's' as u8 && h[1] == '2' as u8 && h[2] == 'i' as u8 && h[3] == 'd' as u8 && h[4]
        == 'x' as u8 && h[5] == 0);
    assert(e[0] == 0 && e[1] == 'x' as u8 && e[2] == 'd' as u8 && e[3] == 'i' as u8 && e[4]
        == '2' as u8 && e[5] == 's' as u8);
}

/// Parts that stand one after the other.
proof fn lemma_parts(a: Seq<u8>, b: Seq<u8>, c: Seq<u8>, p: Seq<u8>, d: Seq<u8>, e: Seq<u8>)
    requires
        a.len() == 1,
        b.len() == 3,
        c.len() == 6,
        d.len() == 4,
        e.len() == 6,
    ensures
        ({
            let s = a + b + c + p + d + e;
            let n = p.len() as int;
            let end = s.skip(10 + n);
            &&& s.len() == n + 20
            &&& s[0] == a[0]
            &&& s[1] == b[0] && s[2] == b[1] && s[3] == b[2]
            &&& s[4] == c[0] && s[5] == c[1] && s[6] == c[2] && s[7] == c[3] && s[8] == c[4] && s[9]
                == c[5]
            &&& s.subrange(10, 10 + n) == p
            &&& end[0] == d[0] && end[1] == d[1] && end[2] == d[2] && end[3] == d[3]
            &&& end[4] == e[0] && end[5] == e[1] && end[6] == e[2] && end[7] == e[3] && end[8]
                == e[4] && end[9] == e[5]
        }),
{
    let s = a + b + c + p + d + e;
    let n = p.len() as int;
    assert(s.subrange(10, 10 + n) =~= p);
    assert(s.skip(10 + n) =~= d + e);
}

/// A signed number is written as an unsigned one: twice it, or twice its amount less one
/// where it is below zero. An unsigned one is written in bytes of seven bits, the low ones
/// first; 128 more in a byte says that another one follows.
pub proof fn law_number_form(v: int)
    requires
        wire::fits(v),
    ensures
        0 <= v < 64 ==> wire::varint(v) == seq![(2 * v) as u8],
        -64 <= v < 0 ==> wire::varint(v) == seq![(-2 * v - 1) as u8],
        v >= 64 ==> wire::varint(v) == seq![((2 * v) % 128 + 128) as u8] + numbers::uvarint(
            (v / 64) as nat,
        ),
        v < -64 ==> wire::varint(v) == seq![((-2 * v - 1) % 128 + 128) as u8] + numbers::uvarint(
            ((-2 * v - 1) / 128) as nat,
        ),
        0 <= v < 128 ==> numbers::uvarint(v as nat) == seq![v as u8],
        v >= 128 ==> numbers::uvarint(v as nat) == seq![(v % 128 + 128) as u8] + numbers::uvarint(
            (v / 128) as nat,
        ),
{
    reveal(wire::varint);
    if v >= 64 {
        assert((2 * v) / 128 == v / 64);
    }
}

/// What a payload holds, one number after the other: the two sizes, or minus one for one that
/// is not known; the distance; the number of entries; a byte that says whether uncompressed
/// offsets follow, which they do unless all lie at multiples of the distance; those; and the
/// compressed offsets.
pub proof fn law_payload_form(v: IndexView)
    requires
        wire::small(v.offsets, v.est_block_uncomp),
        v.total_uncompressed matches Some(x) ==> x <= i64::MAX,
        v.total_compressed matches Some(x) ==> x <= i64::MAX,
    ensures
        ({
            let known = |x: Option<u64>|
                match x {
                    Some(n) => n as int,
                    None => -1,
                };
            let est = v.est_block_uncomp as int;
            let s = v.offsets;
            let regular = forall|i: int|
                0 <= i < s.len() ==> (#[trigger] s[i]).uncompressed == i * est;
            let head = wire::varint(known(v.total_uncompressed)) + wire::varint(
                known(v.total_compressed),
            ) + wire::varint(est) + wire::varint(s.len() as int);
            let us = wire::varints(wire::u_deltas(s, v.est_block_uncomp));
            let cs = wire::varints(wire::c_deltas(s, v.est_block_uncomp));
            &&& regular ==> wire::payload(v) == head + seq![0u8] + cs
            &&& !regular ==> wire::payload(v) == head + seq![1u8] + us + cs
        }),
{
    reveal(wire::payload);
    let est = v.est_block_uncomp as int;
    let s = v.offsets;
    let regular = forall|i: int| 0 <= i < s.len() ==> (#[trigger] s[i]).uncompressed == i * est;
    assert(regular == wire::is_regular(s, v.est_block_uncomp)) by {
        if regular {
            assert forall|i: int| 0 < i < s.len() implies #[trigger] wire::follows(
                s,
                v.est_block_uncomp,
                i,
            ) by {
                assert(s[i].uncompressed == i * est && s[i - 1].uncompressed == (i - 1) * est);
                assert(i * est == (i - 1) * est + est) by (nonlinear_arith);
            }
            if s.len() > 0 {
                assert(s[0].uncompressed == 0 * est);
            }
        }
        if wire::is_regular(s, v.est_block_uncomp) {
            assert forall|i: int| 0 <= i < s.len() implies (#[trigger] s[i]).uncompressed == i
                * est by {
                lemma_regular(s, v.est_block_uncomp, i);
            }
        }
    }
    let cs = wire::varints(wire::c_deltas(s, v.est_block_uncomp));
    if regular {
        let head = wire::varint(wire::opt_wire(v.total_uncompressed) as int) + wire::varint(
            wire::opt_wire(v.total_compressed) as int,
        ) + wire::varint(est) + wire::varint(s.len() as int);
        assert(head + seq![0u8] + Seq::empty() + cs =~= head + seq![0u8] + cs);
    }
}

proof fn lemma_regular(s: Seq<OffsetPair>, est: u64, i: int)
    requires
        wire::small(s, est),
        wire::is_regular(s, est),
        0 <= i < s.len(),
    ensures
        s[i].uncompressed == i * est,
    decreases i,
{
    if i > 0 {
        lemma_regular(s, est, i - 1);
        assert(wire::follows(s, est, i));
        assert(s[i - 1].uncompressed < 0x1000_0000_0000_0000);
        assert(i * est == (i - 1) * est + est) by (nonlinear_arith);
    } else {
        assert(0 * est == 0);
    }
}

} // verus!
