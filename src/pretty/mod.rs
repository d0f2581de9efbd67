use vstd::prelude::*;
use crate::common::{
    decimal_len, append_decimal, append_slice, append_zeros, decimal_digits, digits, lemma_decimal_len_small, lemma_digits_len, zeros,
};
use crate::d2s::{
    d2d, decode, fits_format, shortest_holds, ieee_exponent_of, ieee_mantissa_of, shortest_decimal, sign_of, sign_text,
    lemma_fits_binary32, lemma_fits_binary64, FloatFormat, FloatingDecimal64, DOT, MINUS, ZERO,
};

pub mod to_fixed;

verus! {

/// ASCII `e`.
pub const LOWER_E: u8 = 101;
/// ASCII `+`.
pub const PLUS: u8 = 43;

/// The two layouts of the notation selector.
#[derive(Clone, Copy, PartialEq, Eq, Structural)]
pub enum Notation {
    /// Integers keep a `.0` suffix and exponents carry no `+`.
    Human,
    /// Exactly ECMAScript's `Number::toString`.
    Ecmascript,
}

/// The exponent of the exponential form: `e`, a sign (`+` only for
/// ECMAScript) and the digits.
pub open spec fn exponent_text(e: int, notation: Notation) -> Seq<u8> {
    seq![LOWER_E] + if e < 0 {
        seq![MINUS] + digits((-e) as nat)
    } else if notation == Notation::Ecmascript {
        seq![PLUS] + digits(e as nat)
    } else {
        digits(e as nat)
    }
}

/// `±m * 10^k` laid out as ECMAScript's `Number::toString` does, with
/// `kk = digits + k` the position of the decimal point:
/// a plain integer for `0 <= k` and `kk <= 21`, a point inside the digits for
/// `0 < kk <= 21`, a `0.` and zeros in front for `-6 < kk <= 0`, else the
/// exponential form with exponent `kk - 1`.
pub open spec fn notation_text(sign: bool, m: nat, k: int, notation: Notation) -> Seq<u8> {
    sign_text(sign) + layout_text(digits(m), k, notation)
}

/// The layout of the digits `d` of `d * 10^k`.
pub open spec fn layout_text(d: Seq<u8>, k: int, notation: Notation) -> Seq<u8> {
    let kk = d.len() + k;
    if 0 <= k && kk <= 21 {
        integer_text(d, kk, notation)
    } else if 0 < kk <= 21 {
        inner_point_text(d, kk)
    } else if -6 < kk <= 0 {
        leading_zeros_text(d, kk)
    } else {
        exponential_text(d, kk, notation)
    }
}

/// `1234e7 -> 12340000000`: the digits, zeros up to position `kk`, and `.0`
/// in the human layout.
pub open spec fn integer_text(d: Seq<u8>, kk: int, notation: Notation) -> Seq<u8> {
    d + zeros((kk - d.len()) as nat) + if notation == Notation::Human {
        seq![DOT, ZERO]
    } else {
        seq![]
    }
}

/// `1234e-2 -> 12.34`: the point after `kk` digits.
pub open spec fn inner_point_text(d: Seq<u8>, kk: int) -> Seq<u8> {
    d.subrange(0, kk) + seq![DOT] + d.subrange(kk, d.len() as int)
}

/// `1234e-6 -> 0.001234`: `0.`, `-kk` zeros, the digits.
pub open spec fn leading_zeros_text(d: Seq<u8>, kk: int) -> Seq<u8> {
    seq![ZERO, DOT] + zeros((-kk) as nat) + d
}

/// `1234e30 -> 1.234e33`: one digit, the others after a point, the exponent
/// `kk - 1`.
pub open spec fn exponential_text(d: Seq<u8>, kk: int, notation: Notation) -> Seq<u8> {
    d.subrange(0, 1) + (if d.len() > 1 {
        seq![DOT] + d.subrange(1, d.len() as int)
    } else {
        seq![]
    }) + exponent_text(kk - 1, notation)
}

/// The notation of a finite float given by its bits; zero is `0` in the
/// ECMAScript layout (whatever its sign) and `0.0` or `-0.0` in the human one.
pub open spec fn pretty_of(fmt: FloatFormat, bits: nat, notation: Notation) -> Seq<u8> {
    let sign = sign_of(fmt, bits);
    let m = ieee_mantissa_of(fmt, bits);
    let e = ieee_exponent_of(fmt, bits);
    if e == 0 && m == 0 {
        if notation == Notation::Ecmascript {
            seq![ZERO]
        } else {
            sign_text(sign) + seq![ZERO, DOT, ZERO]
        }
    } else {
        let d = shortest_decimal(fmt, m, e);
        notation_text(sign, d.0 as nat, d.1, notation)
    }
}

/// No layout of a 64-bit mantissa with an exponent in the generator's range
/// takes more than 30 bytes.
pub proof fn lemma_notation_len(sign: bool, m: nat, k: int, notation: Notation)
    requires
        m <= 0xffff_ffff_ffff_ffff,
        -1100 < k < 320,
    ensures
        notation_text(sign, m, k, notation).len() <= 30,
        m < 100000000000000000 && -999 <= k + decimal_len(m) - 1 <= 999 ==> notation_text(sign, m, k, notation).len() <= 25,
{
    let d = digits(m);
    lemma_digits_len(m);
    lemma_decimal_len_small(m);
    let kk = d.len() + k;
    let e = kk - 1;
    if !(0 <= k && kk <= 21) && !(0 < kk <= 21) && !(-6 < kk <= 0) {
        let a: nat = if e < 0 { (-e) as nat } else { e as nat };
        lemma_digits_len(a);
        lemma_decimal_len_small(a);
        assert(exponent_text(e, notation).len() <= 6);
        if -999 <= e <= 999 {
            assert(exponent_text(e, notation).len() <= 5);
        }
    }
}

/// Appends the exponent of the exponential form.
fn append_exponent(result: &mut Vec<u8>, e: i32, notation: Notation)
    requires
        e > i32::MIN,
    ensures
        final(result)@ == old(result)@ + exponent_text(e as int, notation),
{
    result.push(LOWER_E);
    if e < 0 {
        result.push(MINUS);
        append_decimal(result, (-e) as u64);
    } else {
        if notation == Notation::Ecmascript {
            result.push(PLUS);
        }
        append_decimal(result, e as u64);
    }
    assert(result@ =~= old(result)@ + exponent_text(e as int, notation));
}

fn write_integer(d: &Vec<u8>, kk: i32, notation: Notation, result: &mut Vec<u8>)
    requires
        d@.len() <= kk <= 21,
    ensures
        final(result)@ == old(result)@ + integer_text(d@, kk as int, notation),
{
    append_slice(result, d, 0, d.len());
    append_zeros(result, (kk - d.len() as i32) as usize);
    if notation == Notation::Human {
        result.push(DOT);
        result.push(ZERO);
    }
    assert(result@ =~= old(result)@ + integer_text(d@, kk as int, notation));
}

fn write_inner_point(d: &Vec<u8>, kk: i32, result: &mut Vec<u8>)
    requires
        0 < kk <= d@.len(),
    ensures
        final(result)@ == old(result)@ + inner_point_text(d@, kk as int),
{
    append_slice(result, d, 0, kk as usize);
    result.push(DOT);
    append_slice(result, d, kk as usize, d.len());
    assert(result@ =~= old(result)@ + inner_point_text(d@, kk as int));
}

fn write_leading_zeros(d: &Vec<u8>, kk: i32, result: &mut Vec<u8>)
    requires
        -6 < kk <= 0,
    ensures
        final(result)@ == old(result)@ + leading_zeros_text(d@, kk as int),
{
    result.push(ZERO);
    result.push(DOT);
    append_zeros(result, (-kk) as usize);
    append_slice(result, d, 0, d.len());
    assert(result@ =~= old(result)@ + leading_zeros_text(d@, kk as int));
}

fn write_exponential(d: &Vec<u8>, kk: i32, notation: Notation, result: &mut Vec<u8>)
    requires
        d@.len() >= 1,
        kk > i32::MIN + 1,
    ensures
        final(result)@ == old(result)@ + exponential_text(d@, kk as int, notation),
{
    result.push(d[0]);
    if d.len() > 1 {
        result.push(DOT);
        append_slice(result, d, 1, d.len());
    }
    append_exponent(result, kk - 1, notation);
    assert(result@ =~= old(result)@ + exponential_text(d@, kk as int, notation));
}

/// The notation selector: writes `±mantissa * 10^exponent` in the chosen
/// layout and returns the number of bytes written.
pub fn write_pretty(v: FloatingDecimal64, sign: bool, notation: Notation, result: &mut Vec<u8>) -> (n: usize)
    requires
        -1100 < v.exponent < 320,
    ensures
        final(result)@ == old(result)@ + notation_text(sign, v.mantissa as nat, v.exponent as int, notation),
        n == notation_text(sign, v.mantissa as nat, v.exponent as int, notation).len(),
        n <= 30,
        v.mantissa < 100000000000000000 && -999 <= v.exponent + decimal_len(v.mantissa as nat) - 1 <= 999 ==> n <= 25,
{
    proof {
        lemma_notation_len(sign, v.mantissa as nat, v.exponent as int, notation);
    }
    let start = result.len();
    if sign {
        result.push(MINUS);
    }
    let ghost mid = result@;
    let d = decimal_digits(v.mantissa);
    proof {
        lemma_digits_len(v.mantissa as nat);
        reveal_with_fuel(crate::common::decimal_len, 21);
    }
    let length = d.len() as i32;
    let k = v.exponent;
    let kk = length + k;
    if 0 <= k && kk <= 21 {
        write_integer(&d, kk, notation, result);
    } else if 0 < kk && kk <= 21 {
        write_inner_point(&d, kk, result);
    } else if -6 < kk && kk <= 0 {
        write_leading_zeros(&d, kk, result);
    } else {
        write_exponential(&d, kk, notation, result);
    }
    assert(result@ == mid + layout_text(d@, k as int, notation));
    assert(result@ =~= old(result)@ + notation_text(sign, v.mantissa as nat, v.exponent as int, notation));
    result.len() - start
}

/// Writes the notation of the float with bits `bits`.
fn write_float(fmt: FloatFormat, bits: u64, notation: Notation, result: &mut Vec<u8>) -> (n: usize)
    requires
        fits_format(fmt, bits as nat),
    ensures
        final(result)@ == old(result)@ + pretty_of(fmt, bits as nat, notation),
        n == pretty_of(fmt, bits as nat, notation).len(),
        n <= 25,
        !(ieee_exponent_of(fmt, bits as nat) == 0 && ieee_mantissa_of(fmt, bits as nat) == 0) ==> shortest_holds(
            fmt,
            ieee_mantissa_of(fmt, bits as nat),
            ieee_exponent_of(fmt, bits as nat),
        ),
{
    let (sign, ieee_mantissa, ieee_exponent) = decode(fmt, bits);
    let start = result.len();
    if ieee_exponent == 0 && ieee_mantissa == 0 {
        if notation == Notation::Ecmascript {
            result.push(ZERO);
        } else {
            if sign {
                result.push(MINUS);
            }
            result.push(ZERO);
            result.push(DOT);
            result.push(ZERO);
        }
        assert(result@ =~= old(result)@ + pretty_of(fmt, bits as nat, notation));
        return result.len() - start;
    }
    let v = d2d(fmt, ieee_mantissa, ieee_exponent);
    write_pretty(v, sign, notation, result)
}

/// Writes a binary64, given by its bits, in the human layout (`1.0`,
/// `1.5e-7`, `1e21`); returns the number of bytes written.
pub fn d2s_buffered_n(f: u64, result: &mut Vec<u8>) -> (n: usize)
    ensures
        final(result)@ == old(result)@ + pretty_of(FloatFormat::Binary64, f as nat, Notation::Human),
        n == pretty_of(FloatFormat::Binary64, f as nat, Notation::Human).len(),
        n <= 25,
        !(ieee_exponent_of(FloatFormat::Binary64, f as nat) == 0 && ieee_mantissa_of(FloatFormat::Binary64, f as nat) == 0)
            ==> shortest_holds(
            FloatFormat::Binary64,
            ieee_mantissa_of(FloatFormat::Binary64, f as nat),
            ieee_exponent_of(FloatFormat::Binary64, f as nat),
        ),
{
    proof {
        lemma_fits_binary64(f);
    }
    write_float(FloatFormat::Binary64, f, Notation::Human, result)
}

/// Writes a binary32, given by its bits, in the human layout; returns the
/// number of bytes written.
pub fn f2s_buffered_n(f: u32, result: &mut Vec<u8>) -> (n: usize)
    ensures
        final(result)@ == old(result)@ + pretty_of(FloatFormat::Binary32, f as nat, Notation::Human),
        n == pretty_of(FloatFormat::Binary32, f as nat, Notation::Human).len(),
        n <= 25,
        !(ieee_exponent_of(FloatFormat::Binary32, f as nat) == 0 && ieee_mantissa_of(FloatFormat::Binary32, f as nat) == 0)
            ==> shortest_holds(
            FloatFormat::Binary32,
            ieee_mantissa_of(FloatFormat::Binary32, f as nat),
            ieee_exponent_of(FloatFormat::Binary32, f as nat),
        ),
{
    proof {
        lemma_fits_binary32(f);
    }
    write_float(FloatFormat::Binary32, f as u64, Notation::Human, result)
}

/// Writes a binary64, given by its bits, as ECMAScript's `Number::toString`
/// does for finite values; returns the number of bytes written.
pub fn format64(f: u64, result: &mut Vec<u8>) -> (n: usize)
    ensures
        final(result)@ == old(result)@ + pretty_of(FloatFormat::Binary64, f as nat, Notation::Ecmascript),
        n == pretty_of(FloatFormat::Binary64, f as nat, Notation::Ecmascript).len(),
        n <= 25,
        !(ieee_exponent_of(FloatFormat::Binary64, f as nat) == 0 && ieee_mantissa_of(FloatFormat::Binary64, f as nat) == 0)
            ==> shortest_holds(
            FloatFormat::Binary64,
            ieee_mantissa_of(FloatFormat::Binary64, f as nat),
            ieee_exponent_of(FloatFormat::Binary64, f as nat),
        ),
{
    proof {
        lemma_fits_binary64(f);
    }
    write_float(FloatFormat::Binary64, f, Notation::Ecmascript, result)
}

/// Writes a binary32, given by its bits, as ECMAScript's `Number::toString`
/// does for finite values; returns the number of bytes written.
pub fn format32(f: u32, result: &mut Vec<u8>) -> (n: usize)
    ensures
        final(result)@ == old(result)@ + pretty_of(FloatFormat::Binary32, f as nat, Notation::Ecmascript),
        n == pretty_of(FloatFormat::Binary32, f as nat, Notation::Ecmascript).len(),
        n <= 25,
        !(ieee_exponent_of(FloatFormat::Binary32, f as nat) == 0 && ieee_mantissa_of(FloatFormat::Binary32, f as nat) == 0)
            ==> shortest_holds(
            FloatFormat::Binary32,
            ieee_mantissa_of(FloatFormat::Binary32, f as nat),
            ieee_exponent_of(FloatFormat::Binary32, f as nat),
        ),
{
    proof {
        lemma_fits_binary32(f);
    }
    write_float(FloatFormat::Binary32, f as u64, Notation::Ecmascript, result)
}

} // verus!
