//! The stream index: pairs of compressed and uncompressed offsets by which a
//! reader finds its way in a stream.
use crate::error::ErrorKind;
use vstd::arithmetic::power2;
use vstd::prelude::*;
use vstd::slice::slice_subrange;

pub mod near;
pub mod parse;
pub mod scan;
pub mod wire;

pub use scan::index_stream;
pub use wire::{remove_index_headers, restore_index_headers};

use crate::block::load_store::append_slice;
use crate::decimal;
use crate::decimal::push_decimal;
use vstd::string::*;
use wire::{
    halved, is_header_at, is_trailer_at, opt_to_wire, put_varint, read_varint, wire_to_opt,
};

verus! {

/// Errors from reading, building and using an index.
#[derive(Debug, Clone, Copy, PartialEq, Eq)]
#[non_exhaustive]
pub enum Error {
    /// The index ended too early.
    Truncated,
    /// Not an index: wrong chunk type, header or trailer.
    BadFormat(&'static str),
    /// A field is out of range, not in order, or negative.
    Invalid(&'static str),
    /// The source of the index could not be read.
    Io(ErrorKind),
}

impl Error {
    /// The sort of failure.
    pub open spec fn kind_of(self) -> ErrorKind {
        match self {
            Error::Truncated => ErrorKind::UnexpectedEof,
            Error::BadFormat(_) => ErrorKind::Unsupported,
            Error::Invalid(_) => ErrorKind::InvalidData,
            Error::Io(k) => k,
        }
    }

    /// Returns the sort of failure.
    pub fn kind(&self) -> (k: ErrorKind)
        ensures
            k == self.kind_of(),
    {
        match self {
            Error::Truncated => ErrorKind::UnexpectedEof,
            Error::BadFormat(_) => ErrorKind::Unsupported,
            Error::Invalid(_) => ErrorKind::InvalidData,
            Error::Io(k) => *k,
        }
    }

    /// What the error stands for, in words.
    pub open spec fn text(self) -> Seq<char> {
        match self {
            Error::Truncated => "minlz index: truncated"@,
            Error::BadFormat(m) => "minlz index: "@ + m@,
            Error::Invalid(m) => "minlz index: "@ + m@,
            Error::Io(_) => "minlz index: I/O error"@,
        }
    }

    /// Returns a message for the error.
    pub fn message(&self) -> (s: String)
        ensures
            s@ == self.text(),
    {
        let mut s: String = String::new();
        match self {
            Error::Truncated => {
                s.append("minlz index: truncated");
            },
            Error::BadFormat(m) => {
                s.append("minlz index: ");
                s.append(m);
            },
            Error::Invalid(m) => {
                s.append("minlz index: ");
                s.append(m);
            },
            Error::Io(_) => {
                s.append("minlz index: I/O error");
            },
        }
        assert(s@ =~= self.text());
        s
    }
}

/// Chunk type of an index.
pub const CHUNK_TYPE_INDEX: u8 = 0x40;

/// Former chunk type of an index; read but never written.
pub const LEGACY_INDEX_CHUNK: u8 = 0x99;

/// Most entries that an index is loaded with.
pub const MAX_INDEX_ENTRIES: usize = 65_536;

/// Most entries that are added before an index is thinned.
pub const MAX_ADDED_ENTRIES: usize = 65_535;

/// Smallest distance between the entries of an index that a writer builds.
pub const MIN_INDEX_DIST: u64 = 1_048_576;

/// Offsets, from the start of the stream, of one point in it.
#[derive(Debug, Clone, Copy, PartialEq, Eq, Structural)]
pub struct OffsetPair {
    /// Offset in the compressed stream.
    pub compressed: u64,
    /// Offset in the uncompressed data.
    pub uncompressed: u64,
}

/// What an index holds.
#[verifier::ext_equal]
pub struct IndexView {
    /// The total uncompressed size, if known.
    pub total_uncompressed: Option<u64>,
    /// The total compressed size, if known.
    pub total_compressed: Option<u64>,
    /// The entries.
    pub offsets: Seq<OffsetPair>,
    /// The distance in the uncompressed data that entries are expected to have.
    pub est_block_uncomp: u64,
}

/// The entries are in order: the uncompressed offsets grow from one to the next,
/// the compressed offsets do not fall. All fit in a signed number.
pub open spec fn in_order(s: Seq<OffsetPair>) -> bool {
    &&& forall|i: int, j: int|
        #![trigger s[i], s[j]]
        0 <= i < j < s.len() ==> s[i].uncompressed < s[j].uncompressed && s[i].compressed
            <= s[j].compressed
    &&& forall|i: int|
        0 <= i < s.len() ==> (#[trigger] s[i]).uncompressed <= i64::MAX && s[i].compressed
            <= i64::MAX
}

impl IndexView {
    /// The entries are in order. With a distance of more than zero they are not
    /// many too many: for each one beyond the limit it has doubled.
    pub open spec fn wf(self) -> bool {
        &&& in_order(self.offsets)
        &&& self.est_block_uncomp > i64::MAX ==> self.offsets.len() < MAX_INDEX_ENTRIES
        &&& self.est_block_uncomp > 0 && self.offsets.len() > MAX_INDEX_ENTRIES ==> power2::pow2(
            (self.offsets.len() - MAX_INDEX_ENTRIES) as nat,
        ) <= self.est_block_uncomp
    }
}

/// An index of a stream.
///
/// A writer builds it entry by entry; a reader loads it from the end of a stream.
#[derive(Debug)]
pub struct Index {
    total_uncompressed: Option<u64>,
    total_compressed: Option<u64>,
    offsets: Vec<OffsetPair>,
    est_block_uncomp: u64,
}

impl View for Index {
    type V = IndexView;

    closed spec fn view(&self) -> IndexView {
        IndexView {
            total_uncompressed: self.total_uncompressed,
            total_compressed: self.total_compressed,
            offsets: self.offsets@,
            est_block_uncomp: self.est_block_uncomp,
        }
    }
}

/// The index without entries.
pub open spec fn empty_index() -> IndexView {
    IndexView {
        total_uncompressed: None,
        total_compressed: None,
        offsets: Seq::empty(),
        est_block_uncomp: 0,
    }
}

/// `n` doubled until it reaches the smallest distance.
pub open spec fn spacing(n: int) -> int
    decreases
        (if n < MIN_INDEX_DIST {
            MIN_INDEX_DIST - n
        } else {
            0
        }),
    when n > 0
{
    if n < MIN_INDEX_DIST {
        spacing(2 * n)
    } else {
        n
    }
}

/// The entries of `s` from the first on that are at least `est` behind `base`.
pub open spec fn drop_within(s: Seq<OffsetPair>, base: int, est: int) -> Seq<OffsetPair>
    decreases s.len(),
{
    if s.len() > 0 && s[0].uncompressed - base < est {
        drop_within(s.skip(1), base, est)
    } else {
        s
    }
}

/// The first entry of `s`, and of the others each that is at least `est` behind
/// the one kept before it.
pub open spec fn thinned(s: Seq<OffsetPair>, est: int) -> Seq<OffsetPair>
    decreases s.len(),
{
    if s.len() == 0 {
        s
    } else {
        let rest = drop_within(s.skip(1), s[0].uncompressed as int, est);
        if rest.len() < s.len() {
            seq![s[0]] + thinned(rest, est)
        } else {
            seq![s[0]]
        }
    }
}

/// An index with an entry more. An entry that is not far enough behind the last
/// one leaves it as it is; one too many has it thinned to twice the distance.
pub open spec fn added(v: IndexView, compressed: u64, uncompressed: u64) -> Result<
    IndexView,
    Error,
> {
    let s = v.offsets;
    if compressed > i64::MAX || uncompressed > i64::MAX {
        Err(Error::Invalid("offset exceeds i64 wire range"))
    } else if s.len() > 0 && (uncompressed <= s.last().uncompressed || uncompressed
        - s.last().uncompressed < v.est_block_uncomp) {
        Ok(v)
    } else if s.len() > 0 && s.last().compressed > compressed {
        Err(Error::Invalid("compressed offset decreased"))
    } else {
        let t = s.push(OffsetPair { compressed, uncompressed });
        if t.len() > MAX_ADDED_ENTRIES {
            let est = (2 * v.est_block_uncomp) as u64;
            Ok(IndexView { offsets: thinned(t, est as int), est_block_uncomp: est, ..v })
        } else {
            Ok(IndexView { offsets: t, ..v })
        }
    }
}

/// The last entry of `s` that is not behind `offset`; the zero pair where there is
/// none.
pub open spec fn entry_before(s: Seq<OffsetPair>, offset: int) -> OffsetPair
    decreases s.len(),
{
    if s.len() == 0 {
        OffsetPair { compressed: 0, uncompressed: 0 }
    } else if s.last().uncompressed <= offset {
        s.last()
    } else {
        entry_before(s.drop_last(), offset)
    }
}

/// Going over entries from `s` on, the last one that is not behind `offset`, with none
/// before it that is; `best` where the first one is.
pub open spec fn entry_scanned(s: Seq<OffsetPair>, offset: int, best: OffsetPair) -> OffsetPair
    decreases s.len(),
{
    if s.len() > 0 && s[0].uncompressed <= offset {
        entry_scanned(s.skip(1), offset, s[0])
    } else {
        best
    }
}

/// Thinning to a distance of `est` comes to no entry that is before the one kept last.
pub open spec fn can_thin(s: Seq<OffsetPair>, est: int) -> bool
    decreases s.len(),
{
    s.len() == 0 || {
        let base = s[0].uncompressed as int;
        let rest = drop_within(s.skip(1), base, est);
        &&& forall|i: int|
            0 < i < s.len() - rest.len() ==> (#[trigger] s[i]).uncompressed >= base
        &&& rest.len() < s.len() ==> can_thin(rest, est)
    }
}

/// An entry is neither refused nor dropped.
pub open spec fn takes(v: IndexView, compressed: u64, uncompressed: u64) -> bool {
    let s = v.offsets;
    &&& compressed <= i64::MAX
    &&& uncompressed <= i64::MAX
    &&& s.len() > 0 ==> {
        &&& uncompressed > s.last().uncompressed
        &&& uncompressed - s.last().uncompressed >= v.est_block_uncomp
        &&& s.last().compressed <= compressed
    }
}

/// An entry can be added: where the index has to be thinned for it, it can be, and the
/// distance can be doubled.
pub open spec fn can_add(v: IndexView, compressed: u64, uncompressed: u64) -> bool {
    takes(v, compressed, uncompressed) && v.offsets.len() >= MAX_ADDED_ENTRIES ==> {
        &&& v.est_block_uncomp <= i64::MAX
        &&& can_thin(
            v.offsets.push(OffsetPair { compressed, uncompressed }),
            2 * v.est_block_uncomp,
        )
    }
}

/// What [`drop_within`] leaves is the end of the sequence, and starts far enough
/// behind `base`.
pub proof fn lemma_drop_within(s: Seq<OffsetPair>, base: int, est: int)
    ensures
        drop_within(s, base, est).len() <= s.len(),
        drop_within(s, base, est) == s.skip(s.len() - drop_within(s, base, est).len()),
        drop_within(s, base, est).len() > 0 ==> drop_within(s, base, est)[0].uncompressed - base
            >= est,
    decreases s.len(),
{
    if s.len() > 0 && s[0].uncompressed - base < est {
        lemma_drop_within(s.skip(1), base, est);
        let r = drop_within(s.skip(1), base, est);
        assert(s.skip(1).skip(s.len() - 1 - r.len()) =~= s.skip(s.len() - r.len()));
    } else {
        assert(s.skip(0) =~= s);
    }
}

/// Thinning keeps the order and the first entry; what is left is spaced.
pub proof fn lemma_thinned(s: Seq<OffsetPair>, est: int)
    requires
        in_order(s),
    ensures
        in_order(thinned(s, est)),
        thinned(s, est).len() <= s.len(),
        s.len() > 0 ==> thinned(s, est).len() > 0 && thinned(s, est)[0] == s[0],
        forall|i: int|
            #![trigger thinned(s, est)[i]]
            0 <= i < thinned(s, est).len() ==> s.contains(thinned(s, est)[i]),
        forall|i: int|
            0 < i < thinned(s, est).len() ==> (#[trigger] thinned(s, est)[i]).uncompressed
                - thinned(s, est)[i - 1].uncompressed >= est,
    decreases s.len(),
{
    if s.len() > 0 {
        let base = s[0].uncompressed as int;
        let rest = drop_within(s.skip(1), base, est);
        lemma_drop_within(s.skip(1), base, est);
        let at = s.len() - rest.len();
        assert(rest =~= s.skip(at));
        assert(in_order(rest));
        lemma_thinned(rest, est);
        let t = thinned(rest, est);
        let r = thinned(s, est);
        assert(r =~= seq![s[0]] + t);
        assert forall|i: int| 0 <= i < r.len() implies #[trigger] s.contains(r[i]) by {
            if i == 0 {
                assert(s[0] == r[0]);
            } else {
                assert(rest.contains(t[i - 1]));
                let k = choose|k: int| 0 <= k < rest.len() && rest[k] == t[i - 1];
                assert(s[at + k] == r[i]);
            }
        }
        assert forall|i: int, j: int|
            #![trigger r[i], r[j]]
            0 <= i < j < r.len() implies r[i].uncompressed < r[j].uncompressed && r[i].compressed
            <= r[j].compressed by {
            if i == 0 {
                assert(rest.contains(t[j - 1]));
                let k = choose|k: int| 0 <= k < rest.len() && rest[k] == t[j - 1];
                assert(s[at + k] == r[j]);
            } else {
                assert(t[i - 1].uncompressed < t[j - 1].uncompressed);
            }
        }
        assert forall|i: int| 0 <= i < r.len() implies (#[trigger] r[i]).uncompressed <= i64::MAX
            && r[i].compressed <= i64::MAX by {
            assert(s.contains(r[i]));
        }
        assert forall|i: int| 0 < i < r.len() implies (#[trigger] r[i]).uncompressed - r[i
            - 1].uncompressed >= est by {
            if i > 1 {
                assert(t[i - 1].uncompressed - t[i - 2].uncompressed >= est);
            }
        }
    }
}

/// Adding an entry keeps the index in order.
pub proof fn law_add_keeps_order(v: IndexView, compressed: u64, uncompressed: u64)
    requires
        v.wf(),
    ensures
        (match added(v, compressed, uncompressed) {
            Ok(w) => {
                &&& w.wf()
                &&& w.offsets.len() <= v.offsets.len() + 1
                &&& w.offsets != v.offsets && v.offsets.len() >= MAX_ADDED_ENTRIES
                    ==> v.est_block_uncomp <= i64::MAX && in_order(
                    v.offsets.push(OffsetPair { compressed, uncompressed }),
                )
            },
            Err(_) => true,
        }),
{
    if let Ok(w) = added(v, compressed, uncompressed) {
        let s = v.offsets;
        let n = s.len() as int;
        if !(n > 0 && (uncompressed <= s.last().uncompressed || uncompressed
            - s.last().uncompressed < v.est_block_uncomp)) {
            let t = s.push(OffsetPair { compressed, uncompressed });
            assert(in_order(t));
            if t.len() > MAX_ADDED_ENTRIES {
                let est = 2 * v.est_block_uncomp;
                let extra: nat = if n > MAX_INDEX_ENTRIES {
                    (n - MAX_INDEX_ENTRIES) as nat
                } else {
                    0
                };
                let r = thinned(t, est);
                lemma_thinned(t, est);
                if r.len() >= 2 {
                    assert(r[1].uncompressed - r[0].uncompressed >= est);
                }
                power2::lemma2_to64();
                power2::lemma_pow2_adds(1, extra);
                if r.len() > MAX_INDEX_ENTRIES && r.len() < n + 1 {
                    power2::lemma_pow2_strictly_increases(
                        (r.len() - MAX_INDEX_ENTRIES) as nat,
                        extra + 1,
                    );
                }
            }
        }
    }
}

/// The entry found is one of the index and not behind the offset, and the next one
/// is: no entry closer to the offset could be used.
pub proof fn law_entry_before(s: Seq<OffsetPair>, offset: int)
    requires
        in_order(s),
        offset >= 0,
    ensures
        entry_before(s, offset).uncompressed <= offset,
        forall|i: int|
            0 <= i < s.len() && (#[trigger] s[i]).uncompressed <= offset ==> s.contains(
                entry_before(s, offset),
            ) && s[i].uncompressed <= entry_before(s, offset).uncompressed,
    decreases s.len(),
{
    if s.len() > 0 {
        if s.last().uncompressed <= offset {
            assert(s[s.len() - 1] == s.last());
        } else {
            law_entry_before(s.drop_last(), offset);
            let e = entry_before(s.drop_last(), offset);
            assert forall|i: int|
                0 <= i < s.len() && (#[trigger] s[i]).uncompressed <= offset implies s.contains(e)
                && s[i].uncompressed <= e.uncompressed by {
                assert(s.drop_last()[i] == s[i]);
                let k = choose|k: int|
                    0 <= k < s.drop_last().len() && s.drop_last()[k] == e;
                assert(s[k] == e);
            }
        }
    }
}

proof fn lemma_entry_before_at(s: Seq<OffsetPair>, offset: int, n: int)
    requires
        0 <= n <= s.len(),
        forall|i: int| n <= i < s.len() ==> (#[trigger] s[i]).uncompressed > offset,
        n > 0 ==> s[n - 1].uncompressed <= offset,
    ensures
        n == 0 ==> entry_before(s, offset) == (OffsetPair { compressed: 0, uncompressed: 0 }),
        n > 0 ==> entry_before(s, offset) == s[n - 1],
    decreases s.len(),
{
    if s.len() > n {
        assert(s[s.len() - 1].uncompressed > offset);
        lemma_entry_before_at(s.drop_last(), offset, n);
    }
}

impl Default for OffsetPair {
    fn default() -> (r: Self)
        ensures
            r == (OffsetPair { compressed: 0, uncompressed: 0 }),
    {
        OffsetPair { compressed: 0, uncompressed: 0 }
    }
}

impl Default for Index {
    fn default() -> (r: Self)
        ensures
            r@ == empty_index(),
    {
        Index {
            total_uncompressed: None,
            total_compressed: None,
            offsets: Vec::new(),
            est_block_uncomp: 0,
        }
    }
}

impl Clone for Index {
    fn clone(&self) -> (r: Self)
        ensures
            r@ == self@,
    {
        let r = Index {
            total_uncompressed: self.total_uncompressed,
            total_compressed: self.total_compressed,
            offsets: self.offsets.clone(),
            est_block_uncomp: self.est_block_uncomp,
        };
        assert(r@.offsets =~= self@.offsets);
        r
    }
}

impl Index {
    /// An index without entries.
    pub fn new() -> (r: Self)
        ensures
            r@ == empty_index(),
    {
        Self::default()
    }

    /// The total uncompressed size, once known.
    pub fn total_uncompressed(&self) -> (r: Option<u64>)
        ensures
            r == self@.total_uncompressed,
    {
        self.total_uncompressed
    }

    /// The total compressed size, once known; never known of a padded stream.
    pub fn total_compressed(&self) -> (r: Option<u64>)
        ensures
            r == self@.total_compressed,
    {
        self.total_compressed
    }

    /// The entries, in order.
    pub fn offsets(&self) -> (r: &[OffsetPair])
        ensures
            r@ == self@.offsets,
    {
        self.offsets.as_slice()
    }

    /// The distance that entries are expected to have.
    pub fn est_block_uncomp(&self) -> (r: u64)
        ensures
            r == self@.est_block_uncomp,
    {
        self.est_block_uncomp
    }

    /// Empties the index and prepares it for a stream of blocks of at most
    /// `max_block` bytes.
    pub fn reset(&mut self, max_block: usize)
        requires
            max_block > 0,
        ensures
            final(self)@ == (IndexView {
                est_block_uncomp: spacing(max_block as int) as u64,
                ..empty_index()
            }),
            spacing(max_block as int) <= u64::MAX,
            final(self)@.wf(),
    {
        let mut mb: u64 = max_block as u64;
        while mb < MIN_INDEX_DIST
            invariant
                mb > 0,
                spacing(mb as int) == spacing(max_block as int),
            decreases
                (if mb < MIN_INDEX_DIST {
                    MIN_INDEX_DIST - mb
                } else {
                    0
                }),
        {
            mb = mb * 2;
        }
        self.est_block_uncomp = mb;
        self.total_uncompressed = None;
        self.total_compressed = None;
        self.offsets.clear();
    }

    /// Expects entries at a distance of `d`, where the index expects nothing yet.
    pub(crate) fn expect(&mut self, d: u64)
        ensures
            final(self)@ == scan::expecting(old(self)@, d as int),
    {
        if self.est_block_uncomp == 0 {
            self.est_block_uncomp = d;
        }
    }

    /// Appends an entry; entries arrive in increasing order.
    ///
    /// An entry that is not behind the last one by the expected distance is
    /// dropped. One whose compressed offset falls is refused. One too many has the
    /// index thinned.
    pub fn add(&mut self, compressed: u64, uncompressed: u64) -> (r: Result<(), Error>)
        requires
            old(self)@.wf() || can_add(old(self)@, compressed, uncompressed),
        ensures
            old(self)@.wf() ==> final(self)@.wf(),
            (match added(old(self)@, compressed, uncompressed) {
                Ok(v) => r is Ok && final(self)@ == v,
                Err(e) => r == Err::<(), Error>(e) && final(self)@ == old(self)@,
            }),
    {
        if compressed > i64::MAX as u64 || uncompressed > i64::MAX as u64 {
            return Err(Error::Invalid("offset exceeds i64 wire range"));
        }
        proof {
            if self@.wf() {
                law_add_keeps_order(self@, compressed, uncompressed);
            }
        }
        let n: usize = self.offsets.len();
        if n > 0 {
            let latest: OffsetPair = self.offsets[n - 1];
            if uncompressed <= latest.uncompressed || uncompressed - latest.uncompressed
                < self.est_block_uncomp {
                return Ok(());
            }
            if latest.compressed > compressed {
                return Err(Error::Invalid("compressed offset decreased"));
            }
        }
        self.offsets.push(OffsetPair { compressed, uncompressed });
        if self.offsets.len() > MAX_ADDED_ENTRIES {
            self.reduce_light();
        }
        Ok(())
    }

    /// Doubles the expected distance and drops the entries within it.
    fn reduce_light(&mut self)
        requires
            old(self)@.est_block_uncomp <= i64::MAX,
        ensures
            final(self)@ == (IndexView {
                offsets: thinned(old(self)@.offsets, 2 * old(self)@.est_block_uncomp),
                est_block_uncomp: (2 * old(self)@.est_block_uncomp) as u64,
                ..old(self)@
            }),
    {
        let est: u64 = self.est_block_uncomp * 2;
        let ghost all = self.offsets@;
        let mut kept: Vec<OffsetPair> = Vec::new();
        let mut i: usize = 0;
        assert(all.skip(0) =~= all);
        while i < self.offsets.len()
            invariant
                i <= self.offsets.len(),
                self.offsets@ == all,
                kept@ + thinned(all.skip(i as int), est as int) == thinned(all, est as int),
                *self == *old(self),
            decreases self.offsets.len() - i,
        {
            let base: OffsetPair = self.offsets[i];
            let ghost rest0 = all.skip(i as int);
            let ghost before = kept@;
            kept.push(base);
            i = i + 1;
            assert(rest0.skip(1) =~= all.skip(i as int));
            let ghost i1 = i;
            while i < self.offsets.len() && (self.offsets[i].uncompressed < base.uncompressed
                || self.offsets[i].uncompressed - base.uncompressed < est)
                invariant
                    i1 <= i <= self.offsets.len(),
                    self.offsets@ == all,
                    i1 >= 1,
                    base == all[i1 - 1],
                    drop_within(all.skip(i as int), base.uncompressed as int, est as int)
                        == drop_within(all.skip(i1 as int), base.uncompressed as int, est as int),
                decreases self.offsets.len() - i,
            {
                i = i + 1;
                assert(all.skip(i - 1).skip(1) =~= all.skip(i as int));
            }
            proof {
                let rest = drop_within(all.skip(i1 as int), base.uncompressed as int, est as int);
                assert(rest == all.skip(i as int));
                assert(before.push(base) + thinned(rest, est as int) =~= before + (seq![base]
                    + thinned(rest, est as int)));
            }
        }
        assert(all.skip(i as int) =~= Seq::<OffsetPair>::empty());
        assert(kept@ =~= thinned(all, est as int));
        self.est_block_uncomp = est;
        self.offsets = kept;
    }

    /// The last entry at or before `uncompressed_offset`: decode from its
    /// compressed offset on, then drop the bytes up to the offset. The zero pair
    /// where there is no such entry.
    ///
    /// Where the entries are not in order, a few of them are gone over from the first one
    /// on, up to one that is behind the offset; of many, it may be any.
    pub fn find(&self, uncompressed_offset: u64) -> (r: OffsetPair)
        ensures
            in_order(self@.offsets) ==> r == entry_before(
                self@.offsets,
                uncompressed_offset as int,
            ),
            self@.offsets.len() <= 200 ==> r == entry_scanned(
                self@.offsets,
                uncompressed_offset as int,
                OffsetPair { compressed: 0, uncompressed: 0 },
            ),
            self@.offsets.contains(r) || r == (OffsetPair { compressed: 0, uncompressed: 0 }),
    {
        let ghost s = self.offsets@;
        if self.offsets.len() > 200 {
            let mut lo: usize = 0;
            let mut hi: usize = self.offsets.len();
            while lo < hi
                invariant
                    lo <= hi <= self.offsets.len(),
                    self.offsets@ == s,
                    in_order(s) ==> forall|i: int|
                        0 <= i < lo ==> (#[trigger] s[i]).uncompressed <= uncompressed_offset,
                    in_order(s) ==> forall|i: int|
                        hi <= i < s.len() ==> (#[trigger] s[i]).uncompressed > uncompressed_offset,
                decreases hi - lo,
            {
                let mid: usize = lo + (hi - lo) / 2;
                if self.offsets[mid].uncompressed <= uncompressed_offset {
                    lo = mid + 1;
                } else {
                    hi = mid;
                }
            }
            proof {
                if in_order(s) {
                    lemma_entry_before_at(s, uncompressed_offset as int, lo as int);
                }
            }
            if lo == 0 {
                return OffsetPair { compressed: 0, uncompressed: 0 };
            }
            assert(s.contains(s[lo - 1]));
            return self.offsets[lo - 1];
        }
        let mut best: OffsetPair = OffsetPair { compressed: 0, uncompressed: 0 };
        let ghost zero = best;
        let mut i: usize = 0;
        assert(s.skip(0) =~= s);
        while i < self.offsets.len() && self.offsets[i].uncompressed <= uncompressed_offset
            invariant
                i <= self.offsets.len(),
                self.offsets@ == s,
                zero == (OffsetPair { compressed: 0, uncompressed: 0 }),
                entry_scanned(s, uncompressed_offset as int, zero) == entry_scanned(
                    s.skip(i as int),
                    uncompressed_offset as int,
                    best,
                ),
                i == 0 ==> best == zero,
                i > 0 ==> best == s[i - 1] && best.uncompressed <= uncompressed_offset,
            decreases self.offsets.len() - i,
        {
            best = self.offsets[i];
            i = i + 1;
            assert(s.skip(i - 1).skip(1) =~= s.skip(i as int));
        }
        proof {
            if i > 0 {
                assert(s.contains(s[i - 1]));
            }
            if in_order(s) {
                lemma_entry_before_at(s, uncompressed_offset as int, i as int);
            }
        }
        best
    }
}

/// How many entries to drop behind each that is kept, counting up from `r`: more as
/// long as the distance stays below the smallest one and many entries are left.
pub open spec fn remove_count(est: int, len: int, r: int) -> int
    decreases len - r,
    when r >= 0
{
    if est * (r + 1) < MIN_INDEX_DIST && len / (r + 1) > 1000 {
        proof {
            assert(r + 1 < len) by (nonlinear_arith)
                requires
                    len / (r + 1) > 1000,
                    r >= 0,
            ;
        }
        remove_count(est, len, r + 1)
    } else {
        r
    }
}

/// Every `step`-th entry.
pub open spec fn every(s: Seq<OffsetPair>, step: int) -> Seq<OffsetPair> {
    Seq::new(((s.len() + step - 1) / step) as nat, |i: int| s[i * step])
}

/// An index that is small enough to be written: one with too many entries keeps
/// every so many of them.
pub open spec fn reduced(v: IndexView) -> IndexView {
    let len = v.offsets.len() as int;
    let est = v.est_block_uncomp as int;
    if len < MAX_INDEX_ENTRIES {
        v
    } else {
        let r = remove_count(est, len, (len + 1) / MAX_INDEX_ENTRIES as int);
        IndexView {
            offsets: every(v.offsets, r + 1),
            est_block_uncomp: (est * (r + 1)) as u64,
            ..v
        }
    }
}

proof fn lemma_every_in_order(s: Seq<OffsetPair>, step: int)
    requires
        in_order(s),
        step >= 1,
    ensures
        in_order(every(s, step)),
{
    let t = every(s, step);
    assert forall|i: int| 0 <= i < t.len() implies 0 <= #[trigger] (i * step) < s.len() by {
        lemma_every_index(s.len() as int, step, i);
    }
    assert forall|i: int, j: int|
        #![trigger t[i], t[j]]
        0 <= i < j < t.len() implies t[i].uncompressed < t[j].uncompressed && t[i].compressed
        <= t[j].compressed by {
        lemma_every_index(s.len() as int, step, i);
        lemma_every_index(s.len() as int, step, j);
        assert(i * step < j * step) by (nonlinear_arith)
            requires
                i < j,
                step >= 1,
        ;
        assert(s[i * step].uncompressed < s[j * step].uncompressed);
    }
    assert forall|i: int| 0 <= i < t.len() implies (#[trigger] t[i]).uncompressed <= i64::MAX
        && t[i].compressed <= i64::MAX by {
        lemma_every_index(s.len() as int, step, i);
    }
}

proof fn lemma_every_index(len: int, step: int, i: int)
    requires
        len >= 0,
        step >= 1,
        0 <= i < (len + step - 1) / step,
    ensures
        0 <= i * step < len,
{
    vstd::arithmetic::div_mod::lemma_fundamental_div_mod(len + step - 1, step);
    let q = (len + step - 1) / step;
    assert(i * step < len) by (nonlinear_arith)
        requires
            0 <= i < q,
            step * q <= len + step - 1,
            step >= 1,
    ;
    assert(0 <= i * step) by (nonlinear_arith)
        requires
            0 <= i,
            step >= 1,
    ;
}

/// The count stops where the distance is large enough or few entries are left.
proof fn lemma_remove_count(est: int, len: int, r: int)
    requires
        0 <= r,
        0 <= est,
        est * (r + 1) < 2 * MIN_INDEX_DIST || r <= 1,
    ensures
        r <= remove_count(est, len, r),
        ({
            let n = remove_count(est, len, r);
            &&& est * (n + 1) >= MIN_INDEX_DIST || len / (n + 1) <= 1000
            &&& n == r || est * (n + 1) < MIN_INDEX_DIST + est
        }),
    decreases len - r,
{
    if est * (r + 1) < MIN_INDEX_DIST && len / (r + 1) > 1000 {
        assert(r + 1 < len) by (nonlinear_arith)
            requires
                len / (r + 1) > 1000,
                r >= 0,
        ;
        assert(est * (r + 2) == est * (r + 1) + est) by (nonlinear_arith);
        if est < MIN_INDEX_DIST {
            lemma_remove_count(est, len, r + 1);
        } else {
            assert(est * (r + 1) >= est) by (nonlinear_arith)
                requires
                    r >= 0,
                    est >= 0,
            ;
        }
    }
}

/// With a distance above zero, an index is never far beyond the limit.
proof fn lemma_few_extra(v: IndexView)
    requires
        v.wf(),
        0 < v.est_block_uncomp <= i64::MAX,
    ensures
        v.offsets.len() < MAX_INDEX_ENTRIES + 64,
{
    if v.offsets.len() > MAX_INDEX_ENTRIES + 63 {
        let extra = (v.offsets.len() - MAX_INDEX_ENTRIES) as nat;
        power2::lemma2_to64();
        if extra > 64 {
            power2::lemma_pow2_strictly_increases(64, extra);
        }
    }
}

/// How many entries are dropped behind each that is kept, where there are too many.
pub open spec fn drop_count(v: IndexView) -> int {
    let len = v.offsets.len() as int;
    remove_count(v.est_block_uncomp as int, len, (len + 1) / MAX_INDEX_ENTRIES as int)
}

/// An index can be reduced: the distance that it then has is a number that there is.
pub open spec fn can_reduce(v: IndexView) -> bool {
    v.offsets.len() >= MAX_INDEX_ENTRIES ==> v.est_block_uncomp * (drop_count(v) + 1) <= u64::MAX
}

/// A reduced index has no more entries than the limit.
proof fn lemma_reduced_len(v: IndexView)
    ensures
        reduced(v).offsets.len() <= MAX_INDEX_ENTRIES,
        v.offsets.len() >= MAX_INDEX_ENTRIES ==> {
            let r0 = (v.offsets.len() as int + 1) / MAX_INDEX_ENTRIES as int;
            &&& 1 <= r0 <= drop_count(v) < v.offsets.len()
        },
{
    let len = v.offsets.len() as int;
    let est = v.est_block_uncomp as int;
    if len >= MAX_INDEX_ENTRIES {
        let r0 = (len + 1) / MAX_INDEX_ENTRIES as int;
        assert(1 <= r0 < len);
        lemma_remove_count_grows(est, len, r0);
        lemma_remove_count_bound(est, len, r0);
        let r = drop_count(v);
        let m = (len + (r + 1) - 1) / (r + 1);
        assert(len <= MAX_INDEX_ENTRIES * (r + 1)) by (nonlinear_arith)
            requires
                r >= r0,
                r0 == (len + 1) / MAX_INDEX_ENTRIES as int,
        ;
        assert(0 <= m <= MAX_INDEX_ENTRIES) by (nonlinear_arith)
            requires
                m == (len + (r + 1) - 1) / (r + 1),
                len <= MAX_INDEX_ENTRIES * (r + 1),
                r >= 0,
                len >= 0,
        ;
    }
}

/// A reduced index is well-formed and has fewer entries than the limit.
pub proof fn lemma_reduced(v: IndexView)
    requires
        v.wf(),
    ensures
        reduced(v).wf(),
        reduced(v).offsets.len() < MAX_INDEX_ENTRIES,
        v.offsets.len() >= MAX_INDEX_ENTRIES ==> {
            let est = v.est_block_uncomp as int;
            let r0 = (v.offsets.len() as int + 1) / MAX_INDEX_ENTRIES as int;
            let r = remove_count(est, v.offsets.len() as int, r0);
            &&& r0 >= 1
            &&& r >= r0
            &&& 0 <= est * (r + 1) <= u64::MAX
            &&& est > 0 ==> r0 == 1
            &&& r < v.offsets.len()
        },
{
    let len = v.offsets.len() as int;
    let est = v.est_block_uncomp as int;
    if len >= MAX_INDEX_ENTRIES {
        let r0 = (len + 1) / MAX_INDEX_ENTRIES as int;
        if est > 0 {
            lemma_few_extra(v);
            assert(r0 == 1);
        } else {
            assert(est * (r0 + 1) == 0) by (nonlinear_arith)
                requires
                    est == 0,
            ;
        }
        lemma_remove_count(est, len, r0);
        let r = remove_count(est, len, r0);
        lemma_remove_count_bound(est, len, r0);
        assert(0 <= est * (r + 1)) by (nonlinear_arith)
            requires
                est >= 0,
                r >= 0,
        ;
        if est == 0 {
            assert(est * (r + 1) == 0) by (nonlinear_arith)
                requires
                    est == 0,
            ;
        } else if r == 1 {
            assert(est * (r + 1) == 2 * est) by (nonlinear_arith)
                requires
                    r == 1,
            ;
        }
        lemma_every_in_order(v.offsets, r + 1);
        let m = (len + (r + 1) - 1) / (r + 1);
        assert(m < MAX_INDEX_ENTRIES) by {
            if est == 0 {
                assert(m <= len / (r + 1) + 1) by (nonlinear_arith)
                    requires
                        m == (len + (r + 1) - 1) / (r + 1),
                        r >= 0,
                        len >= 0,
                ;
            } else {
                assert(m <= (len + 1) / 2) by (nonlinear_arith)
                    requires
                        m == (len + (r + 1) - 1) / (r + 1),
                        r >= 1,
                        len >= 1,
                ;
            }
        }
        assert(m >= 0) by (nonlinear_arith)
            requires
                m == (len + (r + 1) - 1) / (r + 1),
                r >= 0,
                len >= 0,
        ;
    }
}

proof fn lemma_remove_count_bound(est: int, len: int, r: int)
    requires
        0 <= r < len,
    ensures
        remove_count(est, len, r) < len,
    decreases len - r,
{
    if est * (r + 1) < MIN_INDEX_DIST && len / (r + 1) > 1000 {
        assert(r + 1 < len) by (nonlinear_arith)
            requires
                len / (r + 1) > 1000,
                r >= 0,
        ;
        lemma_remove_count_bound(est, len, r + 1);
    }
}

impl Index {
    /// Drops entries, evenly, where there are too many to be written, and widens
    /// the expected distance accordingly.
    fn reduce(&mut self)
        requires
            can_reduce(old(self)@),
        ensures
            final(self)@ == reduced(old(self)@),
    {
        proof {
            lemma_reduced_len(self@);
        }
        if self.offsets.len() < MAX_INDEX_ENTRIES {
            return;
        }
        let len: usize = self.offsets.len();
        let est: u64 = self.est_block_uncomp;
        let mut remove_n: usize = len / MAX_INDEX_ENTRIES + (len % MAX_INDEX_ENTRIES) / (
        MAX_INDEX_ENTRIES - 1);
        let ghost r0 = remove_n as int;
        let ghost n = remove_count(est as int, len as int, r0);
        assert(r0 == (len + 1) / MAX_INDEX_ENTRIES as int);
        loop
            invariant
                1 <= r0 <= remove_n <= n < len,
                remove_count(est as int, len as int, remove_n as int) == n,
                est * (n + 1) <= u64::MAX,
            ensures
                remove_n == n,
            decreases n - remove_n,
        {
            assert(est * (remove_n + 1) <= est * (n + 1)) by (nonlinear_arith)
                requires
                    0 <= remove_n <= n,
                    est >= 0,
            ;
            if est * (remove_n as u64 + 1) < MIN_INDEX_DIST && len / (remove_n + 1) > 1000 {
                assert(remove_n + 1 <= n) by {
                    lemma_remove_count_grows(est as int, len as int, remove_n + 1);
                }
                remove_n = remove_n + 1;
            } else {
                break;
            }
        }
        let step: usize = remove_n + 1;
        let total: usize = (len - 1) / step + 1;
        let mut kept: Vec<OffsetPair> = Vec::new();
        let ghost s = self.offsets@;
        let ghost want = every(s, step as int);
        assert(total == (len + step - 1) / step as int) by (nonlinear_arith)
            requires
                total == (len - 1) / step as int + 1,
                step >= 1,
                len >= 1,
        ;
        let mut k: usize = 0;
        while k < total
            invariant
                k <= total,
                self.offsets@ == s,
                s.len() == len,
                step >= 1,
                want == every(s, step as int),
                total == (len + step - 1) / step as int,
                kept@ == want.take(k as int),
                *self == *old(self),
            decreases total - k,
        {
            proof {
                lemma_every_index(len as int, step as int, k as int);
            }
            kept.push(self.offsets[k * step]);
            k = k + 1;
            assert(want.take(k as int) =~= want.take(k - 1).push(want[k - 1]));
        }
        assert(want.take(total as int) =~= want);
        self.offsets = kept;
        self.est_block_uncomp = est * (step as u64);
    }
}

proof fn lemma_remove_count_grows(est: int, len: int, r: int)
    requires
        0 <= r,
    ensures
        r <= remove_count(est, len, r),
    decreases len - r,
{
    if est * (r + 1) < MIN_INDEX_DIST && len / (r + 1) > 1000 {
        assert(r + 1 < len) by (nonlinear_arith)
            requires
                len / (r + 1) > 1000,
                r >= 0,
        ;
        lemma_remove_count_grows(est, len, r + 1);
    }
}

/// Reducing an index keeps some of its entries, the first of them always.
pub proof fn law_reduce_keeps_entries(v: IndexView)
    requires
        v.wf(),
    ensures
        forall|i: int|
            #![trigger reduced(v).offsets[i]]
            0 <= i < reduced(v).offsets.len() ==> v.offsets.contains(reduced(v).offsets[i]),
        v.offsets.len() > 0 ==> reduced(v).offsets.len() > 0 && reduced(v).offsets[0]
            == v.offsets[0],
{
    let len = v.offsets.len() as int;
    let s = v.offsets;
    let t = reduced(v).offsets;
    lemma_reduced(v);
    if len < MAX_INDEX_ENTRIES {
        assert forall|i: int| #![trigger t[i]] 0 <= i < t.len() implies s.contains(t[i]) by {
            assert(s[i] == t[i]);
        }
    } else {
        let r = remove_count(
            v.est_block_uncomp as int,
            len,
            (len + 1) / MAX_INDEX_ENTRIES as int,
        );
        let step = r + 1;
        assert forall|i: int| #![trigger t[i]] 0 <= i < t.len() implies s.contains(t[i]) by {
            lemma_every_index(len, step, i);
            assert(s[i * step] == t[i]);
        }
        assert((len + step - 1) / step >= 1) by (nonlinear_arith)
            requires
                len >= 1,
                step >= 1,
        ;
        assert(0 * step == 0);
    }
}

/// An index as it is written: reduced, and with the totals.
pub open spec fn finished(
    v: IndexView,
    total_uncomp: Option<u64>,
    total_comp: Option<u64>,
) -> IndexView {
    IndexView {
        total_uncompressed: total_uncomp,
        total_compressed: total_comp,
        ..reduced(v)
    }
}

/// A total that can be written.
pub open spec fn total_fits(t: Option<u64>) -> bool {
    t matches Some(x) ==> x <= i64::MAX
}

/// The payload of an index with no more entries than the limit is far shorter than a
/// chunk can be.
pub proof fn lemma_payload_len(v: IndexView)
    requires
        v.offsets.len() <= MAX_INDEX_ENTRIES,
    ensures
        5 <= wire::payload(v).len() <= 0x14_0100,
{
    reveal(wire::payload);
    let est = v.est_block_uncomp;
    wire::law_varint_roundtrip(wire::opt_wire(v.total_uncompressed) as int, Seq::empty());
    wire::law_varint_roundtrip(wire::opt_wire(v.total_compressed) as int, Seq::empty());
    wire::law_varint_roundtrip(est as i64 as int, Seq::empty());
    wire::law_varint_roundtrip(v.offsets.len() as int, Seq::empty());
    wire::lemma_varints_len(wire::u_deltas(v.offsets, est));
    wire::lemma_varints_len(wire::c_deltas(v.offsets, est));
}

impl Index {
    /// Whether the uncompressed offsets need not be written.
    fn is_regular(&self) -> (r: bool)
        ensures
            r == wire::is_regular(self@.offsets, self@.est_block_uncomp),
    {
        if self.offsets.len() > 0 && self.offsets[0].uncompressed != 0 {
            return false;
        }
        let mut i: usize = 1;
        while i < self.offsets.len()
            invariant
                1 <= i,
                self.offsets.len() > 0 ==> self.offsets@[0].uncompressed == 0,
                self.offsets.len() > 0 ==> i <= self.offsets.len(),
                forall|k: int|
                    0 < k < i && k < self.offsets.len() ==> #[trigger] wire::follows(
                        self.offsets@,
                        self.est_block_uncomp,
                        k,
                    ),
            decreases self.offsets.len() - i,
        {
            if self.offsets[i].uncompressed != self.offsets[i - 1].uncompressed.wrapping_add(
                self.est_block_uncomp,
            ) {
                assert(!wire::follows(self.offsets@, self.est_block_uncomp, i as int));
                return false;
            }
            i = i + 1;
        }
        true
    }

    /// Appends the uncompressed offsets.
    fn put_uncompressed(&self, buf: &mut Vec<u8>)
        ensures
            final(buf)@ == old(buf)@ + wire::varints(
                wire::u_deltas(self@.offsets, self@.est_block_uncomp),
            ),
    {
        let est: u64 = self.est_block_uncomp;
        let ghost ds = wire::u_deltas(self@.offsets, est);
        let mut i: usize = 0;
        assert(ds.take(0) =~= Seq::<int>::empty());
        assert(buf@ =~= old(buf)@ + wire::varints(ds.take(0)));
        while i < self.offsets.len()
            invariant
                i <= self.offsets.len(),
                est == self.est_block_uncomp,
                ds == wire::u_deltas(self.offsets@, est),
                buf@ == old(buf)@ + wire::varints(ds.take(i as int)),
            decreases self.offsets.len() - i,
        {
            let mut u: i64 = self.offsets[i].uncompressed as i64;
            if i > 0 {
                let prev: i64 = self.offsets[i - 1].uncompressed as i64;
                u = u.wrapping_sub(prev.wrapping_add(est as i64));
            }
            put_varint(buf, u);
            i = i + 1;
            proof {
                assert(ds.take(i as int).drop_last() =~= ds.take(i - 1));
                assert(ds.take(i as int).last() == u);
                assert(buf@ =~= old(buf)@ + wire::varints(ds.take(i as int)));
            }
        }
        assert(ds.take(i as int) =~= ds);
    }

    /// Appends the compressed offsets.
    fn put_compressed(&self, buf: &mut Vec<u8>)
        ensures
            final(buf)@ == old(buf)@ + wire::varints(
                wire::c_deltas(self@.offsets, self@.est_block_uncomp),
            ),
    {
        let est: u64 = self.est_block_uncomp;
        let ghost ds = wire::c_deltas(self@.offsets, est);
        let mut i: usize = 0;
        let mut c_predict: i64 = (est / 2) as i64;
        assert(ds.take(0) =~= Seq::<int>::empty());
        assert(buf@ =~= old(buf)@ + wire::varints(ds.take(0)));
        while i < self.offsets.len()
            invariant
                i <= self.offsets.len(),
                est == self.est_block_uncomp,
                ds == wire::c_deltas(self.offsets@, est),
                c_predict == wire::predict(self.offsets@, est, i as int),
                buf@ == old(buf)@ + wire::varints(ds.take(i as int)),
            decreases self.offsets.len() - i,
        {
            let mut c: i64 = self.offsets[i].compressed as i64;
            if i > 0 {
                let prev: i64 = self.offsets[i - 1].compressed as i64;
                c = c.wrapping_sub(prev.wrapping_add(c_predict));
                c_predict = c_predict.wrapping_add(halved(c));
            }
            put_varint(buf, c);
            i = i + 1;
            proof {
                assert(ds.take(i as int).drop_last() =~= ds.take(i - 1));
                assert(ds.take(i as int).last() == c);
                assert(buf@ =~= old(buf)@ + wire::varints(ds.take(i as int)));
            }
        }
        assert(ds.take(i as int) =~= ds);
    }

    /// Appends this index to `buf` as a chunk of its own, which can follow the end
    /// of a stream, and records the totals in it.
    pub fn append_to(
        &mut self,
        buf: &mut Vec<u8>,
        total_uncomp: Option<u64>,
        total_comp: Option<u64>,
    ) -> (r: Result<(), Error>)
        requires
            old(self)@.wf() || can_reduce(old(self)@),
        ensures
            old(self)@.wf() ==> final(self)@.wf(),
            total_fits(total_uncomp) && total_fits(total_comp) ==> {
                &&& r is Ok
                &&& final(self)@ == finished(old(self)@, total_uncomp, total_comp)
                &&& final(buf)@ == old(buf)@ + wire::index_chunk(wire::payload(final(self)@))
            },
            !(total_fits(total_uncomp) && total_fits(total_comp)) ==> {
                &&& r == Err::<(), Error>(Error::Invalid("index total exceeds i64 wire range"))
                &&& final(self)@ == old(self)@
                &&& final(buf)@ == old(buf)@
            },
    {
        if let Some(t) = total_uncomp {
            if t > i64::MAX as u64 {
                return Err(Error::Invalid("index total exceeds i64 wire range"));
            }
        }
        if let Some(t) = total_comp {
            if t > i64::MAX as u64 {
                return Err(Error::Invalid("index total exceeds i64 wire range"));
            }
        }
        proof {
            lemma_reduced_len(self@);
            if self@.wf() {
                lemma_reduced(self@);
            }
        }
        self.reduce();
        self.total_uncompressed = total_uncomp;
        self.total_compressed = total_comp;
        let mut p: Vec<u8> = Vec::new();
        put_varint(&mut p, opt_to_wire(total_uncomp));
        put_varint(&mut p, opt_to_wire(total_comp));
        put_varint(&mut p, self.est_block_uncomp as i64);
        put_varint(&mut p, self.offsets.len() as i64);
        if self.is_regular() {
            p.push(0);
        } else {
            p.push(1);
            self.put_uncompressed(&mut p);
        }
        self.put_compressed(&mut p);
        proof {
            reveal(wire::payload);
            assert(p@ =~= wire::payload(self@));
            lemma_payload_len(self@);
        }
        let chunk: Vec<u8> = restore_index_headers(p.as_slice());
        append_slice(buf, chunk.as_slice());
        Ok(())
    }
}

/// The offsets read so far are in order and fit.
spec fn offsets_ok(us: Seq<u64>) -> bool {
    &&& forall|i: int, j: int| 0 <= i < j < us.len() ==> us[i] < us[j]
    &&& forall|i: int| 0 <= i < us.len() ==> (#[trigger] us[i]) <= i64::MAX
}

/// Offsets as mathematical integers.
spec fn ints(us: Seq<u64>) -> Seq<int> {
    Seq::new(us.len(), |i: int| us[i] as int)
}

proof fn lemma_ints_push(us: Seq<u64>, u: u64)
    ensures
        ints(us.push(u)) == ints(us).push(u as int),
        us.len() > 0 ==> ints(us).last() == us.last(),
{
    assert(ints(us.push(u)) =~= ints(us).push(u as int));
}

/// Reads an uncompressed offset from `b`; gives it with the number of bytes read.
fn read_next_uncompressed(b: &[u8], us: &Vec<u64>, written: bool, est: i64) -> (r: Result<
    (u64, usize),
    Error,
>)
    requires
        est >= 0,
        offsets_ok(us@),
    ensures
        (match r {
            Ok((u, k)) => {
                &&& k <= b.len()
                &&& offsets_ok(us@.push(u))
                &&& parse::next_uncompressed(b@, ints(us@), written, est as int) == Ok::<
                    (int, int),
                    Error,
                >((u as int, k as int))
            },
            Err(e) => parse::next_uncompressed(b@, ints(us@), written, est as int) == Err::<
                (int, int),
                Error,
            >(e),
        }),
{
    let mut u: i64 = 0;
    let mut step: usize = 0;
    if written {
        match read_varint(b) {
            Err(e) => {
                return Err(e);
            },
            Ok((v, m)) => {
                u = v;
                step = m;
            },
        }
    }
    if us.len() > 0 {
        let prev: i64 = us[us.len() - 1] as i64;
        assert(ints(us@).last() == prev);
        let sum: i64 = match prev.checked_add(est) {
            Some(s) => s,
            None => {
                return Err(Error::Invalid("uncompressed offset overflow"));
            },
        };
        u = match u.checked_add(sum) {
            Some(t) => t,
            None => {
                return Err(Error::Invalid("uncompressed offset overflow"));
            },
        };
        if u <= prev {
            return Err(Error::Invalid("non-monotonic uncompressed offset"));
        }
    }
    if u < 0 {
        return Err(Error::Invalid("negative uncompressed offset"));
    }
    Ok((u as u64, step))
}

/// Reads `n` uncompressed offsets from `b`; gives those that can be read, and the number
/// of bytes read, or why there are no more.
fn read_uncompressed(b: &[u8], n: usize, written: bool, est: i64) -> (r: (
    Vec<u64>,
    Result<usize, Error>,
))
    requires
        est >= 0,
    ensures
        offsets_ok(r.0@),
        ints(r.0@) == parse::some_uncompressed(
            b@,
            Seq::empty(),
            n as int,
            written,
            est as int,
        ),
        (match r.1 {
            Ok(k) => {
                &&& k <= b.len()
                &&& r.0.len() == n
                &&& parse::parse_uncompressed(b@, Seq::empty(), n as int, written, est as int)
                    == Ok::<(Seq<int>, Seq<u8>), Error>((ints(r.0@), b@.skip(k as int)))
            },
            Err(e) => parse::parse_uncompressed(b@, Seq::empty(), n as int, written, est as int)
                == Err::<(Seq<int>, Seq<u8>), Error>(e),
        }),
{
    let mut us: Vec<u64> = Vec::new();
    let mut k: usize = 0;
    assert(b@.skip(0) =~= b@);
    assert(ints(us@) =~= Seq::<int>::empty());
    let ghost whole = parse::parse_uncompressed(
        b@,
        Seq::empty(),
        n as int,
        written,
        est as int,
    );
    let ghost some = parse::some_uncompressed(b@, Seq::empty(), n as int, written, est as int);
    while us.len() < n
        invariant
            k <= b.len(),
            us.len() <= n,
            est >= 0,
            offsets_ok(us@),
            whole == parse::parse_uncompressed(
                b@.skip(k as int),
                ints(us@),
                n as int,
                written,
                est as int,
            ),
            some == parse::some_uncompressed(
                b@.skip(k as int),
                ints(us@),
                n as int,
                written,
                est as int,
            ),
            whole == parse::parse_uncompressed(b@, Seq::empty(), n as int, written, est as int),
            some == parse::some_uncompressed(b@, Seq::empty(), n as int, written, est as int),
        decreases n - us.len(),
    {
        let rest: &[u8] = slice_subrange(b, k, b.len());
        assert(rest@ =~= b@.skip(k as int));
        let (u, step) = match read_next_uncompressed(rest, &us, written, est) {
            Err(e) => {
                return (us, Err(e));
            },
            Ok(x) => x,
        };
        proof {
            lemma_ints_push(us@, u);
            assert(b@.skip(k as int).skip(step as int) =~= b@.skip(k + step));
        }
        us.push(u);
        k = k + step;
    }
    (us, Ok(k))
}

/// Reads a compressed offset from `b`, where its distance is expected to be `predict`;
/// gives it with the number of bytes read and the distance that is expected next.
fn read_next_compressed(b: &[u8], cs: &Vec<u64>, predict: i64) -> (r: Result<
    (u64, usize, i64),
    Error,
>)
    requires
        offsets_ok(cs@),
    ensures
        (match r {
            Ok((c, k, next)) => {
                &&& k <= b.len()
                &&& offsets_ok(cs@.push(c))
                &&& parse::next_compressed(b@, ints(cs@), predict as int) == Ok::<
                    (int, int, int),
                    Error,
                >((c as int, k as int, next as int))
            },
            Err(e) => parse::next_compressed(b@, ints(cs@), predict as int) == Err::<
                (int, int, int),
                Error,
            >(e),
        }),
{
    let (mut c, step) = match read_varint(b) {
        Err(e) => {
            return Err(e);
        },
        Ok((v, m)) => (v, m),
    };
    let mut expected: i64 = predict;
    if cs.len() > 0 {
        assert(wire::half(c) == parse::half_of(c as int));
        let next: i64 = match predict.checked_add(halved(c)) {
            Some(p) => p,
            None => {
                return Err(Error::Invalid("compressed predictor overflow"));
            },
        };
        let prev: i64 = cs[cs.len() - 1] as i64;
        assert(ints(cs@).last() == prev);
        let sum: i64 = match prev.checked_add(predict) {
            Some(s) => s,
            None => {
                return Err(Error::Invalid("compressed offset overflow"));
            },
        };
        c = match c.checked_add(sum) {
            Some(t) => t,
            None => {
                return Err(Error::Invalid("compressed offset overflow"));
            },
        };
        if c <= prev {
            return Err(Error::Invalid("non-monotonic compressed offset"));
        }
        expected = next;
    }
    if c < 0 {
        return Err(Error::Invalid("negative compressed offset"));
    }
    Ok((c as u64, step, expected))
}

/// Reads `n` compressed offsets from `b`; gives those that can be read, and the number
/// of bytes read, or why there are no more.
fn read_compressed(b: &[u8], n: usize, est: i64) -> (r: (Vec<u64>, Result<usize, Error>))
    requires
        est >= 0,
    ensures
        offsets_ok(r.0@),
        ints(r.0@) == parse::some_compressed(b@, Seq::empty(), n as int, est as int / 2),
        (match r.1 {
            Ok(k) => {
                &&& k <= b.len()
                &&& r.0.len() == n
                &&& parse::parse_compressed(b@, Seq::empty(), n as int, est as int / 2) == Ok::<
                    (Seq<int>, Seq<u8>),
                    Error,
                >((ints(r.0@), b@.skip(k as int)))
            },
            Err(e) => parse::parse_compressed(b@, Seq::empty(), n as int, est as int / 2) == Err::<
                (Seq<int>, Seq<u8>),
                Error,
            >(e),
        }),
{
    let mut cs: Vec<u64> = Vec::new();
    let mut k: usize = 0;
    let mut c_predict: i64 = est / 2;
    assert(b@.skip(0) =~= b@);
    assert(ints(cs@) =~= Seq::<int>::empty());
    let ghost whole = parse::parse_compressed(b@, Seq::empty(), n as int, est as int / 2);
    let ghost some = parse::some_compressed(b@, Seq::empty(), n as int, est as int / 2);
    while cs.len() < n
        invariant
            k <= b.len(),
            cs.len() <= n,
            offsets_ok(cs@),
            whole == parse::parse_compressed(
                b@.skip(k as int),
                ints(cs@),
                n as int,
                c_predict as int,
            ),
            some == parse::some_compressed(
                b@.skip(k as int),
                ints(cs@),
                n as int,
                c_predict as int,
            ),
            whole == parse::parse_compressed(b@, Seq::empty(), n as int, est as int / 2),
            some == parse::some_compressed(b@, Seq::empty(), n as int, est as int / 2),
        decreases n - cs.len(),
    {
        let rest: &[u8] = slice_subrange(b, k, b.len());
        assert(rest@ =~= b@.skip(k as int));
        let (c, step, next) = match read_next_compressed(rest, &cs, c_predict) {
            Err(e) => {
                return (cs, Err(e));
            },
            Ok(x) => x,
        };
        proof {
            lemma_ints_push(cs@, c);
            assert(b@.skip(k as int).skip(step as int) =~= b@.skip(k + step));
        }
        cs.push(c);
        c_predict = next;
        k = k + step;
    }
    (cs, Ok(k))
}

/// Pairs offsets into `n` entries; where one is missing, it is zero.
fn pair_up(us: &Vec<u64>, cs: &Vec<u64>, n: usize) -> (r: Vec<OffsetPair>)
    requires
        offsets_ok(us@),
        offsets_ok(cs@),
    ensures
        r@ == parse::paired_so_far(ints(us@), ints(cs@), n as int),
        us.len() == n && cs.len() == n ==> {
            &&& r@ == parse::paired(ints(us@), ints(cs@))
            &&& in_order(r@)
        },
{
    let mut r: Vec<OffsetPair> = Vec::new();
    let mut i: usize = 0;
    while i < n
        invariant
            i <= n,
            r.len() == i,
            forall|k: int|
                0 <= k < i ==> (#[trigger] r@[k]) == (OffsetPair {
                    compressed: if k < cs@.len() {
                        cs@[k]
                    } else {
                        0
                    },
                    uncompressed: if k < us@.len() {
                        us@[k]
                    } else {
                        0
                    },
                }),
        decreases n - i,
    {
        let compressed: u64 = if i < cs.len() {
            cs[i]
        } else {
            0
        };
        let uncompressed: u64 = if i < us.len() {
            us[i]
        } else {
            0
        };
        r.push(OffsetPair { compressed, uncompressed });
        i = i + 1;
    }
    assert(r@ =~= parse::paired_so_far(ints(us@), ints(cs@), n as int));
    if us.len() == n && cs.len() == n {
        assert(r@ =~= parse::paired(ints(us@), ints(cs@)));
    }
    r
}

/// Reads `n` entries and the trailer from `b`; gives what can be read of them, and the
/// number of bytes read, or why there is no more.
fn read_entries(b: &[u8], n: usize, est: i64) -> (r: (Vec<OffsetPair>, Result<usize, Error>))
    requires
        est >= 0,
    ensures
        r.0@ == parse::some_entries(b@, n as int, est as int),
        (match r.1 {
            Ok(k) => {
                &&& k <= b.len()
                &&& r.0.len() == n
                &&& in_order(r.0@)
                &&& parse::parse_entries(b@, n as int, est as int) == Ok::<
                    (Seq<OffsetPair>, Seq<u8>),
                    Error,
                >((r.0@, b@.skip(k as int)))
            },
            Err(e) => parse::parse_entries(b@, n as int, est as int) == Err::<
                (Seq<OffsetPair>, Seq<u8>),
                Error,
            >(e),
        }),
{
    proof {
        reveal(parse::parse_entries);
        reveal(parse::some_entries);
    }
    let none: Vec<u64> = Vec::new();
    assert(ints(none@) =~= Seq::<int>::empty());
    if b.len() == 0 {
        return (pair_up(&none, &none, n), Err(Error::Truncated));
    }
    if b[0] > 1 {
        return (
            pair_up(&none, &none, n),
            Err(Error::BadFormat("invalid has_uncompressed byte")),
        );
    }
    let b1: &[u8] = slice_subrange(b, 1, b.len());
    assert(b1@ =~= b@.skip(1));
    let (us, read) = read_uncompressed(b1, n, b[0] == 1, est);
    let k1: usize = match read {
        Err(e) => {
            return (pair_up(&us, &none, n), Err(e));
        },
        Ok(k) => k,
    };
    let b2: &[u8] = slice_subrange(b1, k1, b1.len());
    assert(b2@ =~= b1@.skip(k1 as int));
    let (cs, read) = read_compressed(b2, n, est);
    let entries: Vec<OffsetPair> = pair_up(&us, &cs, n);
    let k2: usize = match read {
        Err(e) => {
            return (entries, Err(e));
        },
        Ok(k) => k,
    };
    let at: usize = 1 + k1 + k2;
    assert(b2@.skip(k2 as int) =~= b@.skip(at as int));
    if b.len() - at < 10 {
        return (entries, Err(Error::Truncated));
    }
    assert(b@.skip(at as int).subrange(4, 10) =~= b@.subrange(at + 4, at + 10));
    if !is_trailer_at(b, at + 4) {
        return (entries, Err(Error::BadFormat("bad trailer")));
    }
    assert(b@.skip(at as int).skip(10) =~= b@.skip(at + 10));
    (entries, Ok(at + 10))
}

impl Index {
    /// Loads an index chunk from the head of `bytes`, of the current or of the
    /// former chunk type; returns the bytes behind it. On an error the index holds what
    /// could be read before it.
    pub fn load<'a>(&mut self, bytes: &'a [u8]) -> (r: Result<&'a [u8], Error>)
        ensures
            r is Ok ==> final(self)@.wf(),
            final(self)@ == parse::loaded(old(self)@, bytes@),
            (match parse::parse_index(bytes@) {
                Ok((v, rest)) => r is Ok && (r->Ok_0)@ == rest && final(self)@ == v,
                Err(e) => r == Err::<&'a [u8], Error>(e),
            }),
    {
        if bytes.len() <= 16 {
            return Err(Error::Truncated);
        }
        if bytes[0] != CHUNK_TYPE_INDEX && bytes[0] != LEGACY_INDEX_CHUNK {
            return Err(Error::BadFormat("bad chunk type"));
        }
        let chunk_len: usize = bytes[1] as usize + 256 * bytes[2] as usize + 65536
            * bytes[3] as usize;
        if bytes.len() - 4 < chunk_len {
            return Err(Error::Truncated);
        }
        if !is_header_at(bytes, 4) {
            return Err(Error::BadFormat("bad header"));
        }
        let b0: &[u8] = slice_subrange(bytes, 10, bytes.len());
        assert(b0@ =~= bytes@.skip(10));
        match self.load_payload(b0) {
            Err(e) => Err(e),
            Ok(n) => {
                let rest: &[u8] = slice_subrange(b0, n, b0.len());
                assert(rest@ =~= b0@.skip(n as int));
                Ok(rest)
            },
        }
    }

    /// Loads a payload and the trailer behind it; returns the number of bytes read.
    fn load_payload(&mut self, b0: &[u8]) -> (r: Result<usize, Error>)
        ensures
            r is Ok ==> final(self)@.wf(),
            final(self)@ == parse::loaded_payload(old(self)@, b0@),
            (match r {
                Ok(n) => n <= b0.len() && parse::parse_payload(b0@) == Ok::<
                    (IndexView, Seq<u8>),
                    Error,
                >((final(self)@, b0@.skip(n as int))),
                Err(e) => parse::parse_payload(b0@) == Err::<(IndexView, Seq<u8>), Error>(e),
            }),
    {
        proof {
            reveal(parse::parse_payload);
            reveal(parse::loaded_payload);
        }
        let (total_uncompressed, n0) = match read_varint(b0) {
            Err(e) => {
                return Err(e);
            },
            Ok((v, n)) => (v, n),
        };
        if total_uncompressed < 0 {
            return Err(Error::Invalid("negative total uncompressed"));
        }
        self.total_uncompressed = Some(total_uncompressed as u64);
        let b1: &[u8] = slice_subrange(b0, n0, b0.len());
        assert(b1@ =~= b0@.skip(n0 as int));
        let (total_compressed, n1) = match read_varint(b1) {
            Err(e) => {
                return Err(e);
            },
            Ok((v, n)) => (v, n),
        };
        self.total_compressed = wire_to_opt(total_compressed);
        let b2: &[u8] = slice_subrange(b1, n1, b1.len());
        assert(b2@ =~= b1@.skip(n1 as int));
        let (est, n2) = match read_varint(b2) {
            Err(e) => {
                return Err(e);
            },
            Ok((v, n)) => (v, n),
        };
        if est < 0 {
            return Err(Error::Invalid("negative est_block"));
        }
        self.est_block_uncomp = est as u64;
        let b3: &[u8] = slice_subrange(b2, n2, b2.len());
        assert(b3@ =~= b2@.skip(n2 as int));
        let (entries, n3) = match read_varint(b3) {
            Err(e) => {
                return Err(e);
            },
            Ok((v, n)) => (v, n),
        };
        if entries < 0 || entries > MAX_INDEX_ENTRIES as i64 {
            return Err(Error::Invalid("entry count out of range"));
        }
        let b4: &[u8] = slice_subrange(b3, n3, b3.len());
        assert(b4@ =~= b3@.skip(n3 as int));
        let (offsets, read) = read_entries(b4, entries as usize, est);
        self.offsets = offsets;
        match read {
            Err(e) => Err(e),
            Ok(n4) => {
                let n: usize = n0 + n1 + n2 + n3 + n4;
                assert(b4@.skip(n4 as int) =~= b0@.skip(n as int));
                Ok(n)
            },
        }
    }
}

/// Largest index that a stream can end in: a chunk of the largest size.
pub const MAX_INDEX_CHUNK: usize = 16_777_219;

/// The size of the index that a stream with these last ten bytes ends in.
pub open spec fn size_in_tail(tail: Seq<u8>) -> Result<int, Error> {
    let size = crate::block::ops::le32(tail, 0);
    if tail.subrange(4, 10) != wire::index_trailer() {
        Err(Error::BadFormat("trailer not found"))
    } else if size > MAX_INDEX_CHUNK {
        Err(Error::Invalid("size exceeds maximum"))
    } else {
        Ok(size)
    }
}

/// The index that a stream ends in.
pub open spec fn index_at_end(b: Seq<u8>) -> Result<IndexView, Error> {
    if b.len() < 10 {
        Err(Error::Io(ErrorKind::InvalidInput))
    } else {
        match size_in_tail(b.skip(b.len() - 10)) {
            Err(e) => Err(e),
            Ok(size) => if size > b.len() {
                Err(Error::Io(ErrorKind::InvalidInput))
            } else {
                match parse::parse_index(b.skip(b.len() - size)) {
                    Ok((v, _)) => Ok(v),
                    Err(e) => Err(e),
                }
            },
        }
    }
}

/// What becomes of the index `v` when all that can be read of the index that a stream ends
/// in is loaded into it.
pub open spec fn loaded_at_end(v: IndexView, b: Seq<u8>) -> IndexView {
    if b.len() < 10 {
        v
    } else {
        match size_in_tail(b.skip(b.len() - 10)) {
            Ok(size) if size <= b.len() => parse::loaded(v, b.skip(b.len() - size)),
            _ => v,
        }
    }
}

/// Returns the size of the index that a stream with these last ten bytes ends in.
pub fn index_size(tail: &[u8]) -> (r: Result<usize, Error>)
    requires
        tail.len() == 10,
    ensures
        (match r {
            Ok(n) => size_in_tail(tail@) == Ok::<int, Error>(n as int),
            Err(e) => size_in_tail(tail@) == Err::<int, Error>(e),
        }),
{
    if !is_trailer_at(tail, 4) {
        return Err(Error::BadFormat("trailer not found"));
    }
    let size: u64 = tail[0] as u64 + 256 * tail[1] as u64 + 65536 * tail[2] as u64 + 16777216
        * tail[3] as u64;
    if size > MAX_INDEX_CHUNK as u64 {
        return Err(Error::Invalid("size exceeds maximum"));
    }
    Ok(size as usize)
}

/// A total as text: minus one where it is not known.
pub open spec fn total_text(v: Option<u64>) -> Seq<char> {
    match v {
        Some(x) => decimal::decimal(x as nat),
        None => "-1"@,
    }
}

/// The first `n` entries as JSON.
pub open spec fn entries_text(s: Seq<OffsetPair>, n: int) -> Seq<char>
    decreases n,
{
    if n <= 0 {
        Seq::empty()
    } else {
        entries_text(s, n - 1) + "    {\n      \"compressed\": "@ + decimal::decimal(
            s[n - 1].compressed as nat,
        ) + ",\n      \"uncompressed\": "@ + decimal::decimal(s[n - 1].uncompressed as nat) + (if n
            == s.len() {
            "\n    }\n"@
        } else {
            "\n    },\n"@
        })
    }
}

/// An index as JSON, with an indent of two spaces.
pub open spec fn json_text(v: IndexView) -> Seq<char> {
    "{\n  \"total_uncompressed\": "@ + total_text(v.total_uncompressed)
        + ",\n  \"total_compressed\": "@ + total_text(v.total_compressed) + (if v.offsets.len()
        == 0 {
        ",\n  \"offsets\": null,\n"@
    } else {
        ",\n  \"offsets\": [\n"@ + entries_text(v.offsets, v.offsets.len() as int) + "  ],\n"@
    }) + "  \"est_block_uncompressed\": "@ + decimal::decimal(v.est_block_uncomp as nat) + "\n}"@
}

/// Appends a total as text.
fn push_total(s: &mut String, v: Option<u64>)
    ensures
        final(s)@ == old(s)@ + total_text(v),
{
    match v {
        Some(x) => {
            push_decimal(s, x);
        },
        None => {
            s.append("-1");
        },
    }
}

impl Index {
    /// Loads the index that the stream `bytes` ends in. On an error the index holds what
    /// could be read before it.
    pub fn load_stream(&mut self, bytes: &[u8]) -> (r: Result<(), Error>)
        ensures
            r is Ok ==> final(self)@.wf(),
            final(self)@ == loaded_at_end(old(self)@, bytes@),
            (match index_at_end(bytes@) {
                Ok(v) => r is Ok && final(self)@ == v,
                Err(e) => r == Err::<(), Error>(e),
            }),
    {
        let len: usize = bytes.len();
        if len < 10 {
            return Err(Error::Io(ErrorKind::InvalidInput));
        }
        let tail: &[u8] = slice_subrange(bytes, len - 10, len);
        assert(tail@ =~= bytes@.skip(len - 10));
        match index_size(tail) {
            Err(e) => Err(e),
            Ok(size) => {
                if size > len {
                    return Err(Error::Io(ErrorKind::InvalidInput));
                }
                let chunk: &[u8] = slice_subrange(bytes, len - size, len);
                assert(chunk@ =~= bytes@.skip(len - size));
                match self.load(chunk) {
                    Err(e) => Err(e),
                    Ok(_) => Ok(()),
                }
            },
        }
    }

    /// Renders this index as JSON; an unknown total shows as minus one.
    pub fn to_json(&self) -> (r: String)
        ensures
            r@ == json_text(self@),
    {
        let mut s: String = String::new();
        s.append("{\n  \"total_uncompressed\": ");
        push_total(&mut s, self.total_uncompressed);
        s.append(",\n  \"total_compressed\": ");
        push_total(&mut s, self.total_compressed);
        if self.offsets.len() == 0 {
            s.append(",\n  \"offsets\": null,\n");
        } else {
            s.append(",\n  \"offsets\": [\n");
            let ghost before = s@;
            let mut i: usize = 0;
            assert(s@ =~= before + entries_text(self.offsets@, 0));
            while i < self.offsets.len()
                invariant
                    i <= self.offsets.len(),
                    s@ == before + entries_text(self.offsets@, i as int),
                decreases self.offsets.len() - i,
            {
                s.append("    {\n      \"compressed\": ");
                push_decimal(&mut s, self.offsets[i].compressed);
                s.append(",\n      \"uncompressed\": ");
                push_decimal(&mut s, self.offsets[i].uncompressed);
                i = i + 1;
                if i == self.offsets.len() {
                    s.append("\n    }\n");
                } else {
                    s.append("\n    },\n");
                }
                assert(s@ =~= before + entries_text(self.offsets@, i as int));
            }
            s.append("  ],\n");
        }
        s.append("  \"est_block_uncompressed\": ");
        push_decimal(&mut s, self.est_block_uncomp);
        s.append("\n}");
        assert(s@ =~= json_text(self@));
        s
    }
}

} // verus!
