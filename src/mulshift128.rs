use vstd::prelude::*;

verus! {

/// Returns the full 128-bit product of `a` and `b` as `(low, high)` words.
pub fn umul128(a: u64, b: u64) -> (r: (u64, u64))
    ensures
        r.0 + r.1 * 0x1_0000_0000_0000_0000 == a * b,
{
    assert(a * b <= 0xffff_ffff_ffff_ffff * 0xffff_ffff_ffff_ffff) by (nonlinear_arith)
        requires a <= 0xffff_ffff_ffff_ffff, b <= 0xffff_ffff_ffff_ffff;
    let p = a as u128 * b as u128;
    let lo = (p % 0x1_0000_0000_0000_0000) as u64;
    let hi = (p / 0x1_0000_0000_0000_0000) as u64;
    (lo, hi)
}

/// Returns the low 64 bits of the 128-bit value `hi * 2^64 + lo` shifted
/// right by `dist`, for `0 < dist < 64`.
pub fn shiftright128(lo: u64, hi: u64, dist: u32) -> (r: u64)
    requires
        0 < dist < 64,
    ensures
        r == ((hi * 0x1_0000_0000_0000_0000 + lo) / (vstd::arithmetic::power2::pow2(dist as nat) as int))
            % 0x1_0000_0000_0000_0000,
{
    let v: u128 = hi as u128 * 0x1_0000_0000_0000_0000 + lo as u128;
    proof {
        vstd::bits::lemma_u128_shr_is_div(v, dist as u128);
    }
    let s: u128 = v >> dist;
    (s % 0x1_0000_0000_0000_0000) as u64
}

} // verus!
