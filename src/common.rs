use vstd::prelude::*;

verus! {

/// `10^n` as a mathematical integer.
pub open spec fn pow10(n: nat) -> nat
    decreases n,
{
    if n == 0 {
        1
    } else {
        10 * pow10((n - 1) as nat)
    }
}

/// The number of decimal digits of `v` (one for zero).
pub open spec fn decimal_len(v: nat) -> nat
    decreases v,
{
    if v < 10 {
        1
    } else {
        1 + decimal_len(v / 10)
    }
}

/// Digit counts of numbers below some powers of ten and of 64-bit numbers.
pub proof fn lemma_decimal_len_small(v: nat)
    ensures
        v < 100 ==> decimal_len(v) <= 2,
        v < 1000 ==> decimal_len(v) <= 3,
        v < 10000 ==> decimal_len(v) <= 4,
        v < 1000000000 ==> decimal_len(v) <= 9,
        v < 100000000000000000 ==> decimal_len(v) <= 17,
        v <= 0xffff_ffff_ffff_ffff ==> decimal_len(v) <= 20,
{
    reveal_with_fuel(decimal_len, 21);
}

/// Returns the number of decimal digits in `v`, which has at most nine digits.
pub fn decimal_length9(v: u32) -> (r: u32)
    requires
        v < 1000000000,
    ensures
        r == decimal_len(v as nat),
        1 <= r <= 9,
{
    proof {
        reveal_with_fuel(decimal_len, 10);
    }
    if v >= 100000000 {
        9
    } else if v >= 10000000 {
        8
    } else if v >= 1000000 {
        7
    } else if v >= 100000 {
        6
    } else if v >= 10000 {
        5
    } else if v >= 1000 {
        4
    } else if v >= 100 {
        3
    } else if v >= 10 {
        2
    } else {
        1
    }
}

/// The fixed-point formula `e * 1217359 / 2^19 + 1`, for `0 <= e <= 3528`.
/// It is meant to approximate `ceil(log2(5^e))` (and `1` at zero); the
/// contract states the formula, not the logarithm.
pub fn pow5bits(e: i32) -> (r: i32)
    requires
        0 <= e <= 3528,
    ensures
        r == (e * 1217359) / 524288 + 1,
{
    assert(e * 1217359 <= 3528 * 1217359) by (nonlinear_arith)
        requires 0 <= e <= 3528;
    ((e as u32 * 1217359) / 524288 + 1) as i32
}

/// The fixed-point formula `e * 78913 / 2^18`, for `0 <= e <= 1650`, meant
/// to approximate `floor(log10(2^e))`; the contract states the formula.
pub fn log10_pow2(e: i32) -> (r: u32)
    requires
        0 <= e <= 1650,
    ensures
        r == (e * 78913) / 262144,
{
    assert(e * 78913 <= 1650 * 78913) by (nonlinear_arith)
        requires 0 <= e <= 1650;
    (e as u32 * 78913) / 262144
}

/// The fixed-point formula `e * 732923 / 2^20`, for `0 <= e <= 2620`, meant
/// to approximate `floor(log10(5^e))`; the contract states the formula.
pub fn log10_pow5(e: i32) -> (r: u32)
    requires
        0 <= e <= 2620,
    ensures
        r == (e * 732923) / 1048576,
{
    assert(e * 732923 <= 2620 * 732923) by (nonlinear_arith)
        requires 0 <= e <= 2620;
    (e as u32 * 732923) / 1048576
}

} // verus!

verus! {

/// The ASCII decimal digits of `v`, most significant first, without leading
/// zeros (a single `0` for zero).
pub open spec fn digits(v: nat) -> Seq<u8>
    decreases v,
{
    if v < 10 {
        seq![(48 + v) as u8]
    } else {
        digits(v / 10).push((48 + v % 10) as u8)
    }
}

/// `n` ASCII zeros.
pub open spec fn zeros(n: nat) -> Seq<u8> {
    Seq::new(n, |i: int| 48u8)
}

/// `digits(v)` has `decimal_len(v)` bytes.
pub proof fn lemma_digits_len(v: nat)
    ensures
        digits(v).len() == decimal_len(v),
        1 <= decimal_len(v) <= v + 1,
    decreases v,
{
    if v >= 10 {
        lemma_digits_len(v / 10);
    }
}

/// Whether `s` is made of ASCII digits only.
pub open spec fn all_digits(s: Seq<u8>) -> bool {
    forall|i: int| 0 <= i < s.len() ==> 48 <= #[trigger] s[i] <= 57
}

/// `digits(v)` holds ASCII digits and no leading zero.
pub proof fn lemma_digits_are_digits(v: nat)
    ensures
        all_digits(digits(v)),
        digits(v)[0] != 48 || v == 0,
    decreases v,
{
    if v >= 10 {
        lemma_digits_are_digits(v / 10);
        assert(digits(v).subrange(0, digits(v / 10).len() as int) == digits(v / 10));
    }
}

/// Appends the decimal digits of `v`.
pub fn append_decimal(out: &mut Vec<u8>, v: u64)
    ensures
        final(out)@ == old(out)@ + digits(v as nat),
    decreases v,
{
    if v >= 10 {
        append_decimal(out, v / 10);
    }
    out.push((48 + v % 10) as u8);
    proof {
        if v >= 10 {
            assert(final(out)@ =~= old(out)@ + digits(v as nat));
        } else {
            assert(final(out)@ =~= old(out)@ + digits(v as nat));
        }
    }
}

/// Returns the decimal digits of `v`.
pub fn decimal_digits(v: u64) -> (r: Vec<u8>)
    ensures
        r@ == digits(v as nat),
{
    let mut out: Vec<u8> = Vec::new();
    append_decimal(&mut out, v);
    assert(out@ =~= digits(v as nat));
    out
}

/// Appends `n` ASCII zeros.
pub fn append_zeros(out: &mut Vec<u8>, n: usize)
    ensures
        final(out)@ == old(out)@ + zeros(n as nat),
{
    let mut i: usize = 0;
    while i < n
        invariant
            i <= n,
            out@ == old(out)@ + zeros(i as nat),
        decreases n - i,
    {
        out.push(48u8);
        i += 1;
        assert(out@ =~= old(out)@ + zeros(i as nat));
    }
    assert(out@ =~= old(out)@ + zeros(n as nat));
}

/// Appends `d[from..to]`.
pub fn append_slice(out: &mut Vec<u8>, d: &Vec<u8>, from: usize, to: usize)
    requires
        from <= to <= d@.len(),
    ensures
        final(out)@ == old(out)@ + d@.subrange(from as int, to as int),
{
    let mut i: usize = from;
    while i < to
        invariant
            from <= i <= to <= d@.len(),
            out@ == old(out)@ + d@.subrange(from as int, i as int),
        decreases to - i,
    {
        out.push(d[i]);
        i += 1;
        assert(out@ =~= old(out)@ + d@.subrange(from as int, i as int));
    }
}

} // verus!
