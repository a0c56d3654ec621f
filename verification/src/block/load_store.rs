//! Little-endian loads from a slice and stores at the end of a buffer.
use vstd::prelude::*;
use vstd::slice::slice_subrange;

verus! {

/// The four bytes of `b` at `i` as a little-endian number.
pub open spec fn spec_load32(b: Seq<u8>, i: int) -> int {
    b[i] + 0x100 * b[i + 1] + 0x1_0000 * b[i + 2] + 0x100_0000 * b[i + 3]
}

/// The eight bytes of `b` at `i` as a little-endian number.
pub open spec fn spec_load64(b: Seq<u8>, i: int) -> int {
    spec_load32(b, i) + 0x1_0000_0000 * spec_load32(b, i + 4)
}

/// The eight bytes of `b` at `i` as a little-endian `u64`.
#[verifier::opaque]
pub open spec fn bytes_at(b: Seq<u8>, i: int) -> u64 {
    spec_load64(b, i) as u64
}

/// Loads a little-endian `u16` from `b` at `i`.
pub fn load16(b: &[u8], i: usize) -> (v: u16)
    requires
        i + 2 <= b.len(),
    ensures
        v == b[i as int] + 256 * b[i + 1],
{
    b[i] as u16 + 256 * b[i + 1] as u16
}

/// Loads a little-endian `u32` from `b` at `i`.
pub fn load32(b: &[u8], i: usize) -> (v: u32)
    requires
        i + 4 <= b.len(),
    ensures
        v == spec_load32(b@, i as int),
{
    b[i] as u32 + 0x100 * b[i + 1] as u32 + 0x1_0000 * b[i + 2] as u32 + 0x100_0000 * b[i
        + 3] as u32
}

/// Loads a little-endian `u64` from `b` at `i`.
pub fn load64(b: &[u8], i: usize) -> (v: u64)
    requires
        i + 8 <= b.len(),
    ensures
        v == bytes_at(b@, i as int),
{
    proof {
        reveal(bytes_at);
    }
    load32(b, i) as u64 + 0x1_0000_0000 * load32(b, i + 4) as u64
}

/// The four bytes at `i` and at `j` are the same.
pub open spec fn agree4(b: Seq<u8>, i: int, j: int) -> bool {
    forall|k: int| 0 <= k < 4 ==> b[i + k] == #[trigger] b[j + k]
}

/// The eight bytes at `i` and at `j` are the same.
pub open spec fn agree8(b: Seq<u8>, i: int, j: int) -> bool {
    forall|k: int| 0 <= k < 8 ==> b[i + k] == #[trigger] b[j + k]
}

/// Whether the four bytes at `i` and at `j` are the same.
pub fn same4(b: &[u8], i: usize, j: usize) -> (r: bool)
    requires
        i + 4 <= b.len(),
        j + 4 <= b.len(),
    ensures
        r == agree4(b@, i as int, j as int),
{
    let r = b[i] == b[j] && b[i + 1] == b[j + 1] && b[i + 2] == b[j + 2] && b[i + 3] == b[j + 3];
    proof {
        assert(b@[j + 0] == b@[j as int]);
        if r {
            assert forall|k: int| 0 <= k < 4 implies b@[i + k] == #[trigger] b@[j + k] by {
                assert(k == 0 || k == 1 || k == 2 || k == 3);
            }
        }
    }
    r
}

/// Whether the eight bytes at `i` and at `j` are the same.
pub fn same8(b: &[u8], i: usize, j: usize) -> (r: bool)
    requires
        i + 8 <= b.len(),
        j + 8 <= b.len(),
    ensures
        r == agree8(b@, i as int, j as int),
{
    let r = same4(b, i, j) && same4(b, i + 4, j + 4);
    proof {
        if r {
            assert forall|k: int| 0 <= k < 8 implies b@[i + k] == #[trigger] b@[j + k] by {
                if k >= 4 {
                    assert(b@[(i + 4) + (k - 4)] == b@[(j + 4) + (k - 4)]);
                }
            }
        }
        if forall|k: int| 0 <= k < 8 ==> b@[i + k] == #[trigger] b@[j + k] {
            assert forall|k: int| 0 <= k < 4 implies b@[(i + 4) + k] == #[trigger] b@[(j + 4)
                + k] by {
                assert(b@[i + (k + 4)] == b@[j + (k + 4)]);
            }
        }
    }
    r
}

/// Appends all of `s` to `dst`.
pub fn append_slice(dst: &mut Vec<u8>, s: &[u8])
    ensures
        final(dst)@ == old(dst)@ + s@,
{
    dst.extend_from_slice(s);
    assert(dst@ =~= old(dst)@ + s@);
}

/// Appends `src[from..from + count]` to `dst`.
pub fn append_range(dst: &mut Vec<u8>, src: &[u8], from: usize, count: usize)
    requires
        from + count <= src.len(),
    ensures
        final(dst)@ == old(dst)@ + src@.subrange(from as int, from + count),
{
    append_slice(dst, slice_subrange(src, from, from + count));
}

/// Appends `v`, a number of two bytes, low byte first.
pub fn store16(dst: &mut Vec<u8>, v: usize)
    requires
        v < 0x1_0000,
    ensures
        final(dst)@ == old(dst)@ + seq![(v as int % 256) as u8, (v as int / 256) as u8],
{
    dst.push((v % 256) as u8);
    dst.push((v / 256) as u8);
    assert(dst@ =~= old(dst)@ + seq![(v as int % 256) as u8, (v as int / 256) as u8]);
}

/// Appends `v`, a number of three bytes, low byte first.
pub fn store24(dst: &mut Vec<u8>, v: usize)
    requires
        v < 0x100_0000,
    ensures
        final(dst)@ == old(dst)@ + seq![
            (v as int % 256) as u8,
            ((v as int / 256) % 256) as u8,
            (v as int / 65536) as u8,
        ],
{
    dst.push((v % 256) as u8);
    dst.push(((v / 256) % 256) as u8);
    dst.push((v / 65536) as u8);
    assert(dst@ =~= old(dst)@ + seq![
        (v as int % 256) as u8,
        ((v as int / 256) % 256) as u8,
        (v as int / 65536) as u8,
    ]);
}

/// Appends the four bytes of `v`, low byte first.
pub fn store32(dst: &mut Vec<u8>, v: u32)
    ensures
        final(dst)@ == old(dst)@ + seq![
            (v as int % 256) as u8,
            ((v as int / 256) % 256) as u8,
            ((v as int / 65536) % 256) as u8,
            (v as int / 16777216) as u8,
        ],
{
    dst.push((v % 256) as u8);
    dst.push(((v / 256) % 256) as u8);
    dst.push(((v / 65536) % 256) as u8);
    dst.push((v / 16777216) as u8);
    assert(dst@ =~= old(dst)@ + seq![
        (v as int % 256) as u8,
        ((v as int / 256) % 256) as u8,
        ((v as int / 65536) % 256) as u8,
        (v as int / 16777216) as u8,
    ]);
}

} // verus!
