use vstd::prelude::*;
use crate::d2s::{
    finite_nonzero, ieee_exponent_of, ieee_mantissa_of, scientific_of, shortest_holds, special_or_scientific,
    FloatFormat,
};

verus! {

/// Writes the scientific form of a binary32 given by its bits: `NaN`,
/// `Infinity` or `-Infinity` for the non-finite values, `0E0` or `-0E0` for
/// zero. Returns the number of bytes written.
pub fn f2s_buffered_n(f: u32, result: &mut Vec<u8>) -> (n: usize)
    ensures
        final(result)@ == old(result)@ + scientific_of(FloatFormat::Binary32, f as nat),
        n == scientific_of(FloatFormat::Binary32, f as nat).len(),
        n <= 15,
        finite_nonzero(FloatFormat::Binary32, f as nat) ==> shortest_holds(
            FloatFormat::Binary32,
            ieee_mantissa_of(FloatFormat::Binary32, f as nat),
            ieee_exponent_of(FloatFormat::Binary32, f as nat),
        ),
{
    proof {
        vstd::arithmetic::power2::lemma2_to64();
    }
    special_or_scientific(FloatFormat::Binary32, f as u64, result)
}

} // verus!
