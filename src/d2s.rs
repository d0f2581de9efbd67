use vstd::prelude::*;
use vstd::arithmetic::power2::pow2;
use crate::common::{append_decimal, append_slice, decimal_digits, decimal_len, digits, lemma_digits_len};
use crate::shortest::{generate, is_shortest, lemma_shortest_unique, rounding_interval};

verus! {

} // verus!

verus! {

/// The two binary interchange formats the generator is instantiated for.
#[derive(Clone, Copy, PartialEq, Eq, Structural)]
pub enum FloatFormat {
    Binary32,
    Binary64,
}

impl FloatFormat {
    pub open spec fn mantissa_bits_spec(self) -> nat {
        match self {
            FloatFormat::Binary32 => 23,
            FloatFormat::Binary64 => 52,
        }
    }

    pub open spec fn exponent_bits_spec(self) -> nat {
        match self {
            FloatFormat::Binary32 => 8,
            FloatFormat::Binary64 => 11,
        }
    }

    /// The exponent bias, `2^(exponent_bits - 1) - 1`.
    pub open spec fn bias_spec(self) -> int {
        match self {
            FloatFormat::Binary32 => 127,
            FloatFormat::Binary64 => 1023,
        }
    }

    /// Width of the stored significand field.
    pub fn mantissa_bits(self) -> (r: u32)
        ensures
            r == self.mantissa_bits_spec(),
    {
        match self {
            FloatFormat::Binary32 => 23,
            FloatFormat::Binary64 => 52,
        }
    }

    /// Width of the biased exponent field.
    pub fn exponent_bits(self) -> (r: u32)
        ensures
            r == self.exponent_bits_spec(),
    {
        match self {
            FloatFormat::Binary32 => 8,
            FloatFormat::Binary64 => 11,
        }
    }

    /// `2^mantissa_bits`: the implicit leading bit of a normal significand.
    pub fn hidden_bit(self) -> (r: u64)
        ensures
            r == pow2(self.mantissa_bits_spec()),
    {
        proof {
            vstd::arithmetic::power2::lemma2_to64();
        }
        match self {
            FloatFormat::Binary32 => {
                assert(pow2(23) == 0x80_0000);
                0x80_0000
            },
            FloatFormat::Binary64 => {
                proof {
                    vstd::arithmetic::power2::lemma2_to64_rest();
                }
                assert(pow2(52) == 0x10_0000_0000_0000);
                0x10_0000_0000_0000
            },
        }
    }

    /// `2^exponent_bits`: one more than the largest biased exponent.
    pub fn exponent_range(self) -> (r: u32)
        ensures
            r == pow2(self.exponent_bits_spec()),
    {
        proof {
            vstd::arithmetic::power2::lemma2_to64();
        }
        match self {
            FloatFormat::Binary32 => 0x100,
            FloatFormat::Binary64 => 0x800,
        }
    }

    /// The exponent bias.
    pub fn bias(self) -> (r: i32)
        ensures
            r == self.bias_spec(),
    {
        match self {
            FloatFormat::Binary32 => 127,
            FloatFormat::Binary64 => 1023,
        }
    }
}

/// A decimal `mantissa * 10^exponent`.
#[derive(Clone, Copy)]
pub struct FloatingDecimal64 {
    pub mantissa: u64,
    pub exponent: i32,
}

/// The full significand `m2`: the implicit leading bit is restored for normals.
pub open spec fn binary_m2(fmt: FloatFormat, ieee_mantissa: nat, ieee_exponent: nat) -> nat {
    if ieee_exponent == 0 {
        ieee_mantissa
    } else {
        ieee_mantissa + pow2(fmt.mantissa_bits_spec())
    }
}

/// The binary exponent `e2`, lowered by 2 so that the value is `4 * m2 * 2^e2`
/// and the midpoints to the neighbouring floats are integers.
pub open spec fn binary_e2(fmt: FloatFormat, ieee_exponent: nat) -> int {
    if ieee_exponent == 0 {
        1 - fmt.bias_spec() - fmt.mantissa_bits_spec() - 2
    } else {
        ieee_exponent - fmt.bias_spec() - fmt.mantissa_bits_spec() - 2
    }
}

} // verus!

verus! {

/// The decimal that the generator assigns to a non-zero finite input.
pub open spec fn shortest_decimal(fmt: FloatFormat, ieee_mantissa: nat, ieee_exponent: nat) -> (int, int) {
    let iv = rounding_interval(fmt, ieee_mantissa, ieee_exponent);
    let r = choose|r: (nat, int)| r.1 >= iv.exp && is_shortest(iv, r.0, (r.1 - iv.exp) as nat);
    (r.0 as int, r.1)
}

} // verus!

verus! {

} // verus!

verus! {

/// The decimal `shortest_decimal` names has the properties of
/// `is_shortest`: it rounds to the float, none with a larger exponent does,
/// and it is nearest with ties to even.
pub open spec fn shortest_holds(fmt: FloatFormat, ieee_mantissa: nat, ieee_exponent: nat) -> bool {
    let iv = rounding_interval(fmt, ieee_mantissa, ieee_exponent);
    let d = shortest_decimal(fmt, ieee_mantissa, ieee_exponent);
    &&& d.1 >= iv.exp
    &&& d.0 >= 0
    &&& is_shortest(iv, d.0 as nat, (d.1 - iv.exp) as nat)
}

/// The shortest-round-trip generator: the decimal `mantissa * 10^exponent`
/// with the fewest digits inside the rounding interval of the non-zero finite
/// float with fields `ieee_mantissa` and `ieee_exponent`, nearest to it,
/// ties to even (see `is_shortest`).
pub fn d2d(fmt: FloatFormat, ieee_mantissa: u64, ieee_exponent: u32) -> (r: FloatingDecimal64)
    requires
        ieee_mantissa < pow2(fmt.mantissa_bits_spec()),
        ieee_exponent < pow2(fmt.exponent_bits_spec()),
        ieee_mantissa != 0 || ieee_exponent != 0,
    ensures
        ({
            let iv = rounding_interval(fmt, ieee_mantissa as nat, ieee_exponent as nat);
            &&& r.exponent >= iv.exp
            &&& is_shortest(iv, r.mantissa as nat, (r.exponent - iv.exp) as nat)
        }),
        (r.mantissa as int, r.exponent as int) == shortest_decimal(fmt, ieee_mantissa as nat, ieee_exponent as nat),
        shortest_holds(fmt, ieee_mantissa as nat, ieee_exponent as nat),
        r.mantissa >= 1,
        -1100 < r.exponent < 320,
        fmt == FloatFormat::Binary64 ==> r.mantissa < 100000000000000000,
        fmt == FloatFormat::Binary32 ==> r.mantissa < 1000000000,
        -999 <= r.exponent + decimal_len(r.mantissa as nat) - 1 <= 999,
        fmt == FloatFormat::Binary32 ==> -99 <= r.exponent + decimal_len(r.mantissa as nat) - 1 <= 99,
{
    let (q, e) = generate(fmt, ieee_mantissa, ieee_exponent);
    proof {
        let iv = rounding_interval(fmt, ieee_mantissa as nat, ieee_exponent as nat);
        let w = (q as nat, e as int);
        let c = choose|r: (nat, int)| r.1 >= iv.exp && is_shortest(iv, r.0, (r.1 - iv.exp) as nat);
        assert(w.1 >= iv.exp && is_shortest(iv, w.0, (w.1 - iv.exp) as nat));
        lemma_shortest_unique(iv, w.0, (w.1 - iv.exp) as nat, c.0, (c.1 - iv.exp) as nat);
    }
    FloatingDecimal64 { mantissa: q, exponent: e }
}

} // verus!

verus! {

/// ASCII `-`.
pub const MINUS: u8 = 45;
/// ASCII `.`.
pub const DOT: u8 = 46;
/// ASCII `0`.
pub const ZERO: u8 = 48;
/// ASCII `E`.
pub const UPPER_E: u8 = 69;

/// Returns the number of decimal digits of `v`.
pub fn decimal_length(v: u64) -> (r: u32)
    ensures
        r == decimal_len(v as nat),
        1 <= r <= 20,
{
    let ghost v0 = v as nat;
    let mut v: u64 = v;
    let mut n: u32 = 1;
    proof {
        lemma_digits_len(v0);
        lemma_decimal_len_bound(v0);
    }
    while v >= 10
        invariant
            n + decimal_len(v as nat) == 1 + decimal_len(v0),
            decimal_len(v0) <= 20,
            n >= 1,
        decreases v,
    {
        v /= 10;
        n += 1;
    }
    n
}

proof fn lemma_decimal_len_bound(v: nat)
    requires
        v <= u64::MAX,
    ensures
        decimal_len(v) <= 20,
{
    reveal_with_fuel(decimal_len, 21);
}

/// The biased exponent field of `bits`.
pub open spec fn ieee_exponent_of(fmt: FloatFormat, bits: nat) -> nat {
    (bits / pow2(fmt.mantissa_bits_spec())) % pow2(fmt.exponent_bits_spec())
}

/// The stored significand field of `bits`.
pub open spec fn ieee_mantissa_of(fmt: FloatFormat, bits: nat) -> nat {
    bits % pow2(fmt.mantissa_bits_spec())
}

/// The sign bit of `bits`.
pub open spec fn sign_of(fmt: FloatFormat, bits: nat) -> bool {
    (bits / pow2(fmt.mantissa_bits_spec()) / pow2(fmt.exponent_bits_spec())) % 2 == 1
}

/// The bit patterns of a format: `1 + exponent_bits + mantissa_bits` bits.
pub open spec fn fits_format(fmt: FloatFormat, bits: nat) -> bool {
    bits < 2 * pow2(fmt.mantissa_bits_spec()) * pow2(fmt.exponent_bits_spec())
}

/// Splits raw bits into sign, significand field and biased exponent.
pub fn decode(fmt: FloatFormat, bits: u64) -> (r: (bool, u64, u32))
    requires
        fits_format(fmt, bits as nat),
    ensures
        r.0 == sign_of(fmt, bits as nat),
        r.1 == ieee_mantissa_of(fmt, bits as nat),
        r.2 == ieee_exponent_of(fmt, bits as nat),
        r.1 < pow2(fmt.mantissa_bits_spec()),
        r.2 < pow2(fmt.exponent_bits_spec()),
{
    let hidden = fmt.hidden_bit();
    let range = fmt.exponent_range();
    proof {
        vstd::arithmetic::power2::lemma2_to64();
        vstd::arithmetic::power2::lemma2_to64_rest();
    }
    let ieee_mantissa = bits % hidden;
    let ieee_exponent = ((bits / hidden) % range as u64) as u32;
    let sign = (bits / hidden / range as u64) % 2 == 1;
    (sign, ieee_mantissa, ieee_exponent)
}

/// Every `u64` is a binary64 bit pattern.
pub proof fn lemma_fits_binary64(bits: u64)
    ensures
        fits_format(FloatFormat::Binary64, bits as nat),
{
    vstd::arithmetic::power2::lemma2_to64();
    vstd::arithmetic::power2::lemma2_to64_rest();
    assert(2 * pow2(52) * pow2(11) == 0x1_0000_0000_0000_0000);
}

/// Every `u32` is a binary32 bit pattern.
pub proof fn lemma_fits_binary32(bits: u32)
    ensures
        fits_format(FloatFormat::Binary32, bits as nat),
{
    vstd::arithmetic::power2::lemma2_to64();
    assert(2 * pow2(23) * pow2(8) == 0x1_0000_0000);
}

/// A finite non-zero bit pattern.
pub open spec fn finite_nonzero(fmt: FloatFormat, bits: nat) -> bool {
    let e = ieee_exponent_of(fmt, bits);
    e + 1 != pow2(fmt.exponent_bits_spec()) && !(e == 0 && ieee_mantissa_of(fmt, bits) == 0)
}

/// A leading minus sign for negative values.
pub open spec fn sign_text(sign: bool) -> Seq<u8> {
    if sign {
        seq![MINUS]
    } else {
        seq![]
    }
}

/// `e` in decimal, with a minus sign when negative.
pub open spec fn signed_digits(e: int) -> Seq<u8> {
    if e < 0 {
        seq![MINUS] + digits((-e) as nat)
    } else {
        digits(e as nat)
    }
}

/// `m * 10^e` in scientific notation: one digit, the remaining digits after a
/// point (none if there are none), `E` and the decimal exponent.
pub open spec fn scientific_text(sign: bool, m: nat, e: int) -> Seq<u8> {
    let d = digits(m);
    sign_text(sign) + d.subrange(0, 1) + (if d.len() > 1 {
        seq![DOT] + d.subrange(1, d.len() as int)
    } else {
        seq![]
    }) + seq![UPPER_E] + signed_digits(e + d.len() - 1)
}

/// Appends `e` in decimal, with a minus sign when negative.
pub fn append_signed(out: &mut Vec<u8>, e: i32)
    requires
        e > i32::MIN,
    ensures
        final(out)@ == old(out)@ + signed_digits(e as int),
{
    if e < 0 {
        out.push(MINUS);
        append_decimal(out, (-e) as u64);
        assert(final(out)@ =~= old(out)@ + signed_digits(e as int));
    } else {
        append_decimal(out, e as u64);
    }
}

/// Writes `±mantissa * 10^exponent` in scientific notation.
pub fn write_scientific(v: FloatingDecimal64, sign: bool, result: &mut Vec<u8>) -> (n: usize)
    requires
        -1100 < v.exponent < 320,
    ensures
        final(result)@ == old(result)@ + scientific_text(sign, v.mantissa as nat, v.exponent as int),
        n == scientific_text(sign, v.mantissa as nat, v.exponent as int).len(),
        n <= 28,
        v.mantissa < 100000000000000000 && -999 <= v.exponent + decimal_len(v.mantissa as nat) - 1 <= 999 ==> n <= 24,
        v.mantissa < 1000000000 && -99 <= v.exponent + decimal_len(v.mantissa as nat) - 1 <= 99 ==> n <= 15,
{
    let start = result.len();
    if sign {
        result.push(MINUS);
    }
    let d = decimal_digits(v.mantissa);
    proof {
        lemma_digits_len(v.mantissa as nat);
        lemma_decimal_len_bound(v.mantissa as nat);
    }
    let olength = d.len();
    result.push(d[0]);
    if olength > 1 {
        result.push(DOT);
        append_slice(result, &d, 1, olength);
    }
    result.push(UPPER_E);
    append_signed(result, v.exponent + olength as i32 - 1);
    let ghost s = scientific_text(sign, v.mantissa as nat, v.exponent as int);
    assert(result@ =~= old(result)@ + s);
    proof {
        let e = v.exponent + olength - 1;
        let a: nat = if e < 0 { (-e) as nat } else { e as nat };
        lemma_digits_len(a);
        crate::common::lemma_decimal_len_small(a);
        crate::common::lemma_decimal_len_small(v.mantissa as nat);
        assert(signed_digits(e).len() == (if e < 0 { 1int } else { 0int }) + decimal_len(a));
        assert(s.len() == (if sign { 1int } else { 0int }) + 1 + (if olength > 1 { olength as int } else { 0 }) + 1
            + signed_digits(e).len());
    }
    result.len() - start
}

/// Writes the scientific form of a binary64 given by its bits: `NaN`,
/// `Infinity` or `-Infinity` for the non-finite values, `0E0` or `-0E0` for
/// zero. Returns the number of bytes written.
pub fn d2s_buffered_n(f: u64, result: &mut Vec<u8>) -> (n: usize)
    ensures
        final(result)@ == old(result)@ + d2s_text(f as nat),
        n == d2s_text(f as nat).len(),
        n <= 24,
        finite_nonzero(FloatFormat::Binary64, f as nat) ==> shortest_holds(
            FloatFormat::Binary64,
            ieee_mantissa_of(FloatFormat::Binary64, f as nat),
            ieee_exponent_of(FloatFormat::Binary64, f as nat),
        ),
{
    proof {
        vstd::arithmetic::power2::lemma2_to64();
        vstd::arithmetic::power2::lemma2_to64_rest();
    }
    special_or_scientific(FloatFormat::Binary64, f, result)
}

/// The scientific form of the float with bits `bits`.
pub open spec fn scientific_of(fmt: FloatFormat, bits: nat) -> Seq<u8> {
    let sign = sign_of(fmt, bits);
    let m = ieee_mantissa_of(fmt, bits);
    let e = ieee_exponent_of(fmt, bits);
    if e + 1 == pow2(fmt.exponent_bits_spec()) {
        if m != 0 {
            seq![78u8, 97u8, 78u8]
        } else {
            sign_text(sign) + seq![73u8, 110u8, 102u8, 105u8, 110u8, 105u8, 116u8, 121u8]
        }
    } else if e == 0 && m == 0 {
        sign_text(sign) + seq![ZERO, UPPER_E, ZERO]
    } else {
        let d = shortest_decimal(fmt, m, e);
        scientific_text(sign, d.0 as nat, d.1)
    }
}

/// What `d2s_buffered_n` writes.
pub open spec fn d2s_text(bits: nat) -> Seq<u8> {
    scientific_of(FloatFormat::Binary64, bits)
}

pub(crate) fn special_or_scientific(fmt: FloatFormat, bits: u64, result: &mut Vec<u8>) -> (n: usize)
    requires
        fits_format(fmt, bits as nat),
    ensures
        final(result)@ == old(result)@ + scientific_of(fmt, bits as nat),
        n == scientific_of(fmt, bits as nat).len(),
        fmt == FloatFormat::Binary64 ==> n <= 24,
        fmt == FloatFormat::Binary32 ==> n <= 15,
        finite_nonzero(fmt, bits as nat) ==> shortest_holds(
            fmt,
            ieee_mantissa_of(fmt, bits as nat),
            ieee_exponent_of(fmt, bits as nat),
        ),
{
    let (sign, ieee_mantissa, ieee_exponent) = decode(fmt, bits);
    proof {
        vstd::arithmetic::power2::lemma2_to64();
    }
    let start = result.len();
    if ieee_exponent + 1 == fmt.exponent_range() {
        if ieee_mantissa != 0 {
            result.push(78u8);
            result.push(97u8);
            result.push(78u8);
        } else {
            if sign {
                result.push(MINUS);
            }
            result.push(73u8);
            result.push(110u8);
            result.push(102u8);
            result.push(105u8);
            result.push(110u8);
            result.push(105u8);
            result.push(116u8);
            result.push(121u8);
        }
        assert(result@ =~= old(result)@ + scientific_of(fmt, bits as nat));
        return result.len() - start;
    }
    if ieee_exponent == 0 && ieee_mantissa == 0 {
        if sign {
            result.push(MINUS);
        }
        result.push(ZERO);
        result.push(UPPER_E);
        result.push(ZERO);
        assert(result@ =~= old(result)@ + scientific_of(fmt, bits as nat));
        return result.len() - start;
    }
    let v = d2d(fmt, ieee_mantissa, ieee_exponent);
    write_scientific(v, sign, result)
}

} // verus!
