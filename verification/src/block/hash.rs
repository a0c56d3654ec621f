//! Hashes of four to eight bytes for the match tables.
//!
//! Each `hashN` takes a number whose low `N` bytes are the bytes to hash and
//! gives a number of `h` bits.
use vstd::arithmetic::div_mod;
use vstd::arithmetic::power2;
use vstd::prelude::*;

verus! {

pub const PRIME4: u32 = 2_654_435_761;

pub const PRIME5: u64 = 889_523_592_379;

pub const PRIME6: u64 = 227_718_039_650_203;

pub const PRIME7: u64 = 58_295_818_150_454_627;

pub const PRIME8: u64 = 0xcf1b_bcdc_b7a5_6463;

/// The high `h` bits of the 64-bit product of `x` and `prime`, where `x` is
/// shifted up by a factor that drops the bytes not to be hashed.
pub open spec fn spec_hash(u: u64, factor: u64, prime: u64, h: u32) -> int {
    u.wrapping_mul(factor).wrapping_mul(prime) as int / power2::pow2((64 - h) as nat) as int
}

/// The high `h` bits of the 32-bit product of the low four bytes of `u` and a prime.
pub open spec fn spec_hash4(u: u64, h: u32) -> int {
    ((u % 0x1_0000_0000) as u32).wrapping_mul(PRIME4) as int / power2::pow2((32 - h) as nat) as int
}

/// The quotient of a number of `k + h` bits by one of `k` bits has `h` bits.
proof fn lemma_quotient(x: int, k: nat, h: nat)
    requires
        0 <= x < power2::pow2(k + h),
    ensures
        0 <= x / power2::pow2(k) as int,
        x / (power2::pow2(k) as int) < power2::pow2(h),
{
    power2::lemma_pow2_pos(k);
    power2::lemma_pow2_adds(k, h);
    div_mod::lemma_multiply_divide_lt(x, power2::pow2(k) as int, power2::pow2(h) as int);
    div_mod::lemma_div_pos_is_pos(x, power2::pow2(k) as int);
}

/// A hash of `h` bits is a number of `h` bits.
pub proof fn lemma_hash_bounds(u: u64, factor: u64, prime: u64, h: u32)
    requires
        1 <= h <= 32,
    ensures
        0 <= spec_hash(u, factor, prime, h) < power2::pow2(h as nat),
        0 <= spec_hash4(u, h) < power2::pow2(h as nat),
{
    power2::lemma2_to64();
    lemma_quotient(
        u.wrapping_mul(factor).wrapping_mul(prime) as int,
        (64 - h) as nat,
        h as nat,
    );
    lemma_quotient(
        ((u % 0x1_0000_0000) as u32).wrapping_mul(PRIME4) as int,
        (32 - h) as nat,
        h as nat,
    );
}

/// The high `h` bits of `x`.
fn high_bits(x: u64, h: u32) -> (r: u32)
    requires
        1 <= h <= 32,
    ensures
        r == x as int / power2::pow2((64 - h) as nat) as int,
        r < power2::pow2(h as nat),
{
    let k: u64 = 64 - h as u64;
    let r: u64 = x >> k;
    proof {
        vstd::bits::lemma_u64_shr_is_div(x, k);
        power2::lemma_pow2_pos(k as nat);
        power2::lemma_pow2_adds(k as nat, h as nat);
        power2::lemma2_to64();
        power2::lemma_pow2_pos(h as nat);
        if h < 32 {
            power2::lemma_pow2_strictly_increases(h as nat, 32);
        }
        assert(x as int / (power2::pow2(k as nat) as int) < power2::pow2(h as nat)) by {
            div_mod::lemma_multiply_divide_lt(
                x as int,
                power2::pow2(k as nat) as int,
                power2::pow2(h as nat) as int,
            );
        }
    }
    r as u32
}

/// Hash of four bytes.
pub fn hash4(u: u64, h: u32) -> (r: u32)
    requires
        1 <= h <= 32,
    ensures
        r == spec_hash4(u, h),
        r < power2::pow2(h as nat),
{
    let x: u32 = ((u % 0x1_0000_0000) as u32).wrapping_mul(PRIME4);
    let k: u32 = 32 - h;
    if k == 0 {
        proof {
            power2::lemma2_to64();
            assert(x as int / 1 == x);
        }
        return x;
    }
    let r: u32 = x >> k;
    proof {
        vstd::bits::lemma_u32_shr_is_div(x, k);
        power2::lemma_pow2_pos(k as nat);
        power2::lemma_pow2_pos(h as nat);
        power2::lemma_pow2_adds(k as nat, h as nat);
        power2::lemma2_to64();
        div_mod::lemma_multiply_divide_lt(
            x as int,
            power2::pow2(k as nat) as int,
            power2::pow2(h as nat) as int,
        );
    }
    r
}

/// Hash of five bytes.
pub fn hash5(u: u64, h: u32) -> (r: u32)
    requires
        1 <= h <= 32,
    ensures
        r == spec_hash(u, 0x100_0000, PRIME5, h),
        r < power2::pow2(h as nat),
{
    high_bits(u.wrapping_mul(0x100_0000).wrapping_mul(PRIME5), h)
}

/// Hash of six bytes.
pub fn hash6(u: u64, h: u32) -> (r: u32)
    requires
        1 <= h <= 32,
    ensures
        r == spec_hash(u, 0x1_0000, PRIME6, h),
        r < power2::pow2(h as nat),
{
    high_bits(u.wrapping_mul(0x1_0000).wrapping_mul(PRIME6), h)
}

/// Hash of seven bytes.
pub fn hash7(u: u64, h: u32) -> (r: u32)
    requires
        1 <= h <= 32,
    ensures
        r == spec_hash(u, 0x100, PRIME7, h),
        r < power2::pow2(h as nat),
{
    high_bits(u.wrapping_mul(0x100).wrapping_mul(PRIME7), h)
}

/// Hash of eight bytes.
pub fn hash8(u: u64, h: u32) -> (r: u32)
    requires
        1 <= h <= 32,
    ensures
        r == spec_hash(u, 1, PRIME8, h),
        r < power2::pow2(h as nat),
{
    high_bits(u.wrapping_mul(1).wrapping_mul(PRIME8), h)
}

} // verus!
