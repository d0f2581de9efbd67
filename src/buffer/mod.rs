use vstd::prelude::*;
use crate::common::{digits, lemma_digits_are_digits, zeros};
use crate::d2s::{
    shortest_holds,
    ieee_exponent_of, ieee_mantissa_of, lemma_fits_binary32, lemma_fits_binary64, sign_of, sign_text, decode,
    FloatFormat,
};
use crate::pretty::{
    exponent_text, exponential_text, format32, format64, integer_text, layout_text, notation_text, pretty_of,
    Notation,
};
use crate::pretty::to_fixed::{
    at_least_1e21, fixed_text, fixed_value_of, fixed_zero_text, format64_to_fixed, text_bytes, MAX_BUFFER_SIZE,
};

verus! {

/// Whether every byte of `s` is ASCII.
pub open spec fn ascii_bytes(s: Seq<u8>) -> bool {
    forall|i: int| 0 <= i < s.len() ==> #[trigger] s[i] < 128
}

/// ASCII bytes read as characters.
pub open spec fn chars_of(s: Seq<u8>) -> Seq<char> {
    s.map_values(|b: u8| b as char)
}

/// Relies on `String::from_utf8`: ASCII bytes are valid UTF-8 and decode to
/// one character each.
#[verifier::external_body]
fn ascii_string(bytes: Vec<u8>) -> (r: String)
    requires
        ascii_bytes(bytes@),
    ensures
        r@ == chars_of(bytes@),
{
    String::from_utf8(bytes).unwrap()
}

proof fn lemma_ascii_append(a: Seq<u8>, b: Seq<u8>)
    requires
        ascii_bytes(a),
        ascii_bytes(b),
    ensures
        ascii_bytes(a + b),
{
    assert forall|k: int| 0 <= k < (a + b).len() implies #[trigger] (a + b)[k] < 128 by {
        if k >= a.len() {
            assert((a + b)[k] == b[k - a.len()]);
        }
    }
}

proof fn lemma_ascii_subrange(a: Seq<u8>, i: int, j: int)
    requires
        ascii_bytes(a),
        0 <= i <= j <= a.len(),
    ensures
        ascii_bytes(a.subrange(i, j)),
{
    assert forall|k: int| 0 <= k < j - i implies #[trigger] a.subrange(i, j)[k] < 128 by {
        assert(a.subrange(i, j)[k] == a[i + k]);
    }
}

proof fn lemma_ascii_digits(v: nat)
    ensures
        ascii_bytes(digits(v)),
{
    lemma_digits_are_digits(v);
}

proof fn lemma_ascii_notation(sign: bool, m: nat, k: int, notation: Notation)
    ensures
        ascii_bytes(notation_text(sign, m, k, notation)),
{
    let d = digits(m);
    lemma_ascii_digits(m);
    crate::common::lemma_digits_len(m);
    let kk = d.len() + k;
    let z1 = zeros((kk - d.len()) as nat);
    let z2 = zeros((-kk) as nat);
    assert(ascii_bytes(z1));
    assert(ascii_bytes(z2));
    assert(ascii_bytes(sign_text(sign)));
    if 0 <= k && kk <= 21 {
        lemma_ascii_append(d, z1);
        let tail: Seq<u8> = if notation == Notation::Human { seq![46u8, 48u8] } else { seq![] };
        assert(ascii_bytes(tail));
        lemma_ascii_append(d + z1, tail);
        assert(integer_text(d, kk, notation) == d + z1 + tail);
    } else if 0 < kk <= 21 {
        lemma_ascii_subrange(d, 0, kk);
        lemma_ascii_subrange(d, kk, d.len() as int);
        lemma_ascii_append(d.subrange(0, kk), seq![46u8]);
        lemma_ascii_append(d.subrange(0, kk) + seq![46u8], d.subrange(kk, d.len() as int));
    } else if -6 < kk <= 0 {
        lemma_ascii_append(seq![48u8, 46u8], z2);
        lemma_ascii_append(seq![48u8, 46u8] + z2, d);
    } else {
        let e = kk - 1;
        let ed: Seq<u8> = if e < 0 { digits((-e) as nat) } else { digits(e as nat) };
        lemma_ascii_digits(if e < 0 { (-e) as nat } else { e as nat });
        let pre: Seq<u8> = if e < 0 { seq![101u8, 45u8] } else if notation == Notation::Ecmascript { seq![101u8, 43u8] } else { seq![101u8] };
        lemma_ascii_append(pre, ed);
        assert(exponent_text(e, notation) =~= pre + ed);
        lemma_ascii_subrange(d, 0, 1);
        lemma_ascii_subrange(d, 1, d.len() as int);
        let mid: Seq<u8> = if d.len() > 1 { seq![46u8] + d.subrange(1, d.len() as int) } else { seq![] };
        lemma_ascii_append(seq![46u8], d.subrange(1, d.len() as int));
        assert(ascii_bytes(mid));
        lemma_ascii_append(d.subrange(0, 1), mid);
        lemma_ascii_append(d.subrange(0, 1) + mid, exponent_text(e, notation));
        assert(exponential_text(d, kk, notation) == d.subrange(0, 1) + mid + exponent_text(e, notation));
    }
    lemma_ascii_append(sign_text(sign), layout_text(d, k, notation));
}

proof fn lemma_ascii_pretty(fmt: FloatFormat, bits: nat, notation: Notation)
    ensures
        ascii_bytes(pretty_of(fmt, bits, notation)),
{
    let m = ieee_mantissa_of(fmt, bits);
    let e = ieee_exponent_of(fmt, bits);
    if e == 0 && m == 0 {
        lemma_ascii_append(sign_text(sign_of(fmt, bits)), seq![48u8, 46u8, 48u8]);
    } else {
        let d = crate::d2s::shortest_decimal(fmt, m, e);
        lemma_ascii_notation(sign_of(fmt, bits), d.0 as nat, d.1, notation);
    }
}

/// `NaN`, `Infinity` or `-Infinity` for a non-finite float with these fields.
pub open spec fn nonfinite_text(sign: bool, ieee_mantissa: nat) -> Seq<u8> {
    if ieee_mantissa != 0 {
        seq![78u8, 97u8, 78u8]
    } else {
        sign_text(sign) + seq![73u8, 110u8, 102u8, 105u8, 110u8, 105u8, 116u8, 121u8]
    }
}

proof fn lemma_ascii_nonfinite(sign: bool, ieee_mantissa: nat)
    ensures
        ascii_bytes(nonfinite_text(sign, ieee_mantissa)),
{
    lemma_ascii_append(sign_text(sign), seq![73u8, 110u8, 102u8, 105u8, 110u8, 105u8, 116u8, 121u8]);
}

/// ECMAScript's `Number::toString` of the float with bits `bits`.
pub open spec fn to_string_text(fmt: FloatFormat, bits: nat) -> Seq<u8> {
    let e = ieee_exponent_of(fmt, bits);
    if e + 1 == vstd::arithmetic::power2::pow2(fmt.exponent_bits_spec()) {
        nonfinite_text(sign_of(fmt, bits), ieee_mantissa_of(fmt, bits))
    } else {
        pretty_of(fmt, bits, Notation::Ecmascript)
    }
}

/// ECMAScript's `Number.prototype.toFixed(fraction_digits)` of the binary64
/// with bits `bits`: `NaN` or an infinity, the shortest notation from `10^21`
/// on, and otherwise `fixed_text` of the magnitude times `10^fraction_digits`
/// rounded half up (a sign for negative values, the integer digits, a point
/// and exactly `fraction_digits` digits); zero is unsigned.
pub open spec fn to_fixed_text(bits: nat, fraction_digits: nat) -> Seq<u8> {
    let fmt = FloatFormat::Binary64;
    let e = ieee_exponent_of(fmt, bits);
    let m = ieee_mantissa_of(fmt, bits);
    if e == 0x7ff {
        nonfinite_text(sign_of(fmt, bits), m)
    } else if at_least_1e21(e, m) {
        pretty_of(fmt, bits, Notation::Ecmascript)
    } else if e == 0 && m == 0 {
        fixed_zero_text(fraction_digits)
    } else {
        fixed_text(sign_of(fmt, bits), fixed_value_of(bits, fraction_digits), fraction_digits)
    }
}

/// A float that can be written into a [`Buffer`]: the bit pattern of a
/// binary32 (`u32`) or of a binary64 (`u64`).
pub trait Sealed: Copy + Sized {
    /// What `Buffer::format` prints.
    spec fn to_string_spec(self) -> Seq<u8>;

    /// What `Buffer::format_finite` prints.
    spec fn finite_spec(self) -> Seq<u8>;

    spec fn is_nonfinite_spec(self) -> bool;

    /// For a finite non-zero value: the decimal that `finite_spec` lays out
    /// rounds back to the value, is shortest and nearest (`shortest_holds`).
    spec fn decimal_round_trips(self) -> bool;

    /// Whether the value is NaN or an infinity.
    fn is_nonfinite(self) -> (r: bool)
        ensures
            r == self.is_nonfinite_spec(),
    ;

    /// Appends `NaN`, `Infinity` or `-Infinity`.
    fn write_nonfinite(self, result: &mut Vec<u8>)
        requires
            self.is_nonfinite_spec(),
        ensures
            final(result)@ == old(result)@ + self.to_string_spec(),
            ascii_bytes(self.to_string_spec()),
    ;

    /// Appends the shortest notation of the value read as finite.
    fn write_to_ryu_buffer(self, result: &mut Vec<u8>) -> (n: usize)
        ensures
            final(result)@ == old(result)@ + self.finite_spec(),
            n == self.finite_spec().len(),
            ascii_bytes(self.finite_spec()),
            !self.is_nonfinite_spec() ==> self.finite_spec() == self.to_string_spec(),
            self.decimal_round_trips(),
    ;
}

/// A float that [`Buffer::format`] accepts.
pub trait Float: Sealed {
}

/// A float that [`Buffer::format_to_fixed`] accepts: binary64 only.
pub trait FloatToFixed: Sealed {
    /// What `Buffer::format_to_fixed` is known to print.
    spec fn to_fixed_spec(self, fraction_digits: nat) -> Seq<u8>;

    /// Appends the `toFixed` rendering of a finite value.
    fn write_to_ryu_buffer_to_fixed(self, fraction_digits: u8, result: &mut Vec<u8>) -> (n: usize)
        requires
            fraction_digits <= 100,
            !self.is_nonfinite_spec(),
        ensures
            final(result)@ == old(result)@ + self.to_fixed_spec(fraction_digits as nat),
            n == self.to_fixed_spec(fraction_digits as nat).len(),
            n <= MAX_BUFFER_SIZE,
            ascii_bytes(self.to_fixed_spec(fraction_digits as nat)),
    ;
}

proof fn lemma_ascii_text_bytes(s: Seq<u8>)
    requires
        text_bytes(s),
    ensures
        ascii_bytes(s),
{
}

proof fn lemma_ascii_fixed_zero(fraction_digits: nat)
    ensures
        ascii_bytes(fixed_zero_text(fraction_digits)),
{
    lemma_ascii_append(seq![48u8, 46u8], zeros(fraction_digits));
}

fn push_nonfinite(sign: bool, ieee_mantissa: u64, result: &mut Vec<u8>)
    ensures
        final(result)@ == old(result)@ + nonfinite_text(sign, ieee_mantissa as nat),
        ascii_bytes(nonfinite_text(sign, ieee_mantissa as nat)),
{
    proof {
        lemma_ascii_nonfinite(sign, ieee_mantissa as nat);
    }
    if ieee_mantissa != 0 {
        result.push(78u8);
        result.push(97u8);
        result.push(78u8);
    } else {
        if sign {
            result.push(45u8);
        }
        result.push(73u8);
        result.push(110u8);
        result.push(102u8);
        result.push(105u8);
        result.push(110u8);
        result.push(105u8);
        result.push(116u8);
        result.push(121u8);
    }
    assert(result@ =~= old(result)@ + nonfinite_text(sign, ieee_mantissa as nat));
}

impl Sealed for u64 {
    open spec fn to_string_spec(self) -> Seq<u8> {
        to_string_text(FloatFormat::Binary64, self as nat)
    }

    open spec fn finite_spec(self) -> Seq<u8> {
        pretty_of(FloatFormat::Binary64, self as nat, Notation::Ecmascript)
    }

    open spec fn is_nonfinite_spec(self) -> bool {
        ieee_exponent_of(FloatFormat::Binary64, self as nat) == 0x7ff
    }

    open spec fn decimal_round_trips(self) -> bool {
        let m = ieee_mantissa_of(FloatFormat::Binary64, self as nat);
        let e = ieee_exponent_of(FloatFormat::Binary64, self as nat);
        (e == 0 && m == 0) || shortest_holds(FloatFormat::Binary64, m, e)
    }

    fn is_nonfinite(self) -> (r: bool) {
        proof {
            lemma_fits_binary64(self);
        }
        let (_, _, ieee_exponent) = decode(FloatFormat::Binary64, self);
        ieee_exponent == 0x7ff
    }

    fn write_nonfinite(self, result: &mut Vec<u8>) {
        proof {
            lemma_fits_binary64(self);
            vstd::arithmetic::power2::lemma2_to64();
        }
        let (sign, ieee_mantissa, _) = decode(FloatFormat::Binary64, self);
        push_nonfinite(sign, ieee_mantissa, result);
    }

    fn write_to_ryu_buffer(self, result: &mut Vec<u8>) -> (n: usize) {
        proof {
            lemma_ascii_pretty(FloatFormat::Binary64, self as nat, Notation::Ecmascript);
            vstd::arithmetic::power2::lemma2_to64();
        }
        format64(self, result)
    }
}

impl Float for u64 {
}

impl FloatToFixed for u64 {
    open spec fn to_fixed_spec(self, fraction_digits: nat) -> Seq<u8> {
        to_fixed_text(self as nat, fraction_digits)
    }

    fn write_to_ryu_buffer_to_fixed(self, fraction_digits: u8, result: &mut Vec<u8>) -> (n: usize) {
        proof {
            lemma_fits_binary64(self);
            lemma_ascii_pretty(FloatFormat::Binary64, self as nat, Notation::Ecmascript);
            lemma_ascii_fixed_zero(fraction_digits as nat);
        }
        let n = format64_to_fixed(self, fraction_digits, result);
        proof {
            let s = result@.subrange(old(result)@.len() as int, result@.len() as int);
            let e = ieee_exponent_of(FloatFormat::Binary64, self as nat);
            let m = ieee_mantissa_of(FloatFormat::Binary64, self as nat);
            if at_least_1e21(e, m) {
                assert(s =~= pretty_of(FloatFormat::Binary64, self as nat, Notation::Ecmascript));
            } else if e == 0 && m == 0 {
                assert(s =~= fixed_zero_text(fraction_digits as nat));
            } else {
                lemma_ascii_text_bytes(s);
            }
            assert(result@ =~= old(result)@ + s);
        }
        n
    }
}

impl Sealed for u32 {
    open spec fn to_string_spec(self) -> Seq<u8> {
        to_string_text(FloatFormat::Binary32, self as nat)
    }

    open spec fn finite_spec(self) -> Seq<u8> {
        pretty_of(FloatFormat::Binary32, self as nat, Notation::Ecmascript)
    }

    open spec fn is_nonfinite_spec(self) -> bool {
        ieee_exponent_of(FloatFormat::Binary32, self as nat) == 0xff
    }

    open spec fn decimal_round_trips(self) -> bool {
        let m = ieee_mantissa_of(FloatFormat::Binary32, self as nat);
        let e = ieee_exponent_of(FloatFormat::Binary32, self as nat);
        (e == 0 && m == 0) || shortest_holds(FloatFormat::Binary32, m, e)
    }

    fn is_nonfinite(self) -> (r: bool) {
        proof {
            lemma_fits_binary32(self);
        }
        let (_, _, ieee_exponent) = decode(FloatFormat::Binary32, self as u64);
        ieee_exponent == 0xff
    }

    fn write_nonfinite(self, result: &mut Vec<u8>) {
        proof {
            lemma_fits_binary32(self);
            vstd::arithmetic::power2::lemma2_to64();
        }
        let (sign, ieee_mantissa, _) = decode(FloatFormat::Binary32, self as u64);
        push_nonfinite(sign, ieee_mantissa, result);
    }

    fn write_to_ryu_buffer(self, result: &mut Vec<u8>) -> (n: usize) {
        proof {
            lemma_ascii_pretty(FloatFormat::Binary32, self as nat, Notation::Ecmascript);
            vstd::arithmetic::power2::lemma2_to64();
        }
        format32(self, result)
    }
}

impl Float for u32 {
}

/// Formats floats into text it owns and lends out.
#[derive(Clone)]
pub struct Buffer {
    text: String,
}

impl View for Buffer {
    type V = Seq<char>;

    /// The text printed last.
    closed spec fn view(&self) -> Seq<char> {
        self.text@
    }
}

impl Buffer {
    /// An empty buffer.
    pub fn new() -> (r: Self)
        ensures
            r@ == Seq::<char>::empty(),
    {
        Buffer { text: String::new() }
    }

    /// Prints `f` as ECMAScript's `Number::toString` does: `NaN`,
    /// `Infinity` and `-Infinity` for the non-finite values.
    pub fn format<F: Float>(&mut self, f: F) -> (r: &str)
        ensures
            r@ == chars_of(f.to_string_spec()),
            !f.is_nonfinite_spec() ==> f.decimal_round_trips(),
            final(self)@ == r@,
    {
        let mut bytes: Vec<u8> = Vec::new();
        if f.is_nonfinite() {
            f.write_nonfinite(&mut bytes);
        } else {
            f.write_to_ryu_buffer(&mut bytes);
        }
        assert(bytes@ =~= f.to_string_spec());
        self.text = ascii_string(bytes);
        self.text.as_str()
    }

    /// Prints `f` as [`Buffer::format`] does, without checking for NaN or
    /// infinity: those come out as some correctly formatted number.
    pub fn format_finite<F: Float>(&mut self, f: F) -> (r: &str)
        ensures
            r@ == chars_of(f.finite_spec()),
            f.decimal_round_trips(),
            final(self)@ == r@,
    {
        let mut bytes: Vec<u8> = Vec::new();
        f.write_to_ryu_buffer(&mut bytes);
        assert(bytes@ =~= f.finite_spec());
        self.text = ascii_string(bytes);
        self.text.as_str()
    }

    /// Prints `f` as `Number.prototype.toFixed(fraction_digits)` does;
    /// `fraction_digits` above 100 counts as 100.
    pub fn format_to_fixed<F: FloatToFixed>(&mut self, f: F, fraction_digits: u8) -> (r: &str)
        ensures
            f.is_nonfinite_spec() ==> r@ == chars_of(f.to_string_spec()),
            !f.is_nonfinite_spec() ==> r@ == chars_of(
                f.to_fixed_spec(if fraction_digits > 100 { 100nat } else { fraction_digits as nat }),
            ),
            final(self)@ == r@,
    {
        let fraction_digits = if fraction_digits > 100 { 100 } else { fraction_digits };
        let mut bytes: Vec<u8> = Vec::new();
        if f.is_nonfinite() {
            f.write_nonfinite(&mut bytes);
            assert(bytes@ =~= f.to_string_spec());
        } else {
            f.write_to_ryu_buffer_to_fixed(fraction_digits, &mut bytes);
            assert(bytes@ =~= f.to_fixed_spec(fraction_digits as nat));
        }
        self.text = ascii_string(bytes);
        self.text.as_str()
    }
}

impl Default for Buffer {
    fn default() -> (r: Self)
        ensures
            r@ == Seq::<char>::empty(),
    {
        Buffer::new()
    }
}

} // verus!
