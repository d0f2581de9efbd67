use vstd::prelude::*;
use crate::common::{pow10, zeros};
use crate::d2s::{
    binary_m2, decode, ieee_exponent_of, ieee_mantissa_of, lemma_fits_binary64, sign_of, FloatFormat, DOT, MINUS,
    ZERO,
};
use crate::pretty::{format64, pretty_of, Notation};
use crate::d2s::sign_text;

pub mod decimal;

use self::decimal::{exact_scaled, fixed_value, le_value, small_digits};

verus! {

/// Most bytes a `toFixed` rendering of a binary64 takes: a sign, 22 integer
/// digits, a point, 100 fraction digits and one carry digit fit.
pub const MAX_BUFFER_SIZE: usize = 132;

/// ASCII `1`.
pub const ONE: u8 = 49;
/// ASCII `9`.
pub const NINE: u8 = 57;

/// Bytes of fixed-point text: digits, `.` and `-` are all at most `9`.
pub open spec fn text_bytes(s: Seq<u8>) -> bool {
    forall|i: int| 0 <= i < s.len() ==> #[trigger] s[i] <= NINE
}

/// A write cursor over a byte buffer of fixed capacity.
pub struct Cursor {
    buffer: Vec<u8>,
    len: usize,
}

impl View for Cursor {
    type V = Seq<u8>;

    closed spec fn view(&self) -> Seq<u8> {
        self.buffer@
    }
}

impl Cursor {
    /// The capacity given at creation.
    pub closed spec fn capacity(&self) -> nat {
        self.len as nat
    }

    /// An empty cursor over `len` bytes.
    pub fn new(len: usize) -> (r: Self)
        ensures
            r@ == Seq::<u8>::empty(),
            r.capacity() == len,
    {
        Cursor { buffer: Vec::new(), len }
    }

    /// Appends one byte.
    fn append_byte(&mut self, c: u8)
        requires
            old(self)@.len() + 1 <= old(self).capacity(),
        ensures
            final(self)@ == old(self)@.push(c),
            final(self).capacity() == old(self).capacity(),
    {
        self.buffer.push(c);
    }

    /// Appends `count` copies of `c`.
    fn append_bytes(&mut self, c: u8, count: usize)
        requires
            old(self)@.len() + count <= old(self).capacity(),
        ensures
            final(self)@ == old(self)@ + Seq::new(count as nat, |i: int| c),
            final(self).capacity() == old(self).capacity(),
    {
        let mut i: usize = 0;
        while i < count
            invariant
                i <= count,
                self@ == old(self)@ + Seq::new(i as nat, |k: int| c),
                self.capacity() == old(self).capacity(),
            decreases count - i,
        {
            self.buffer.push(c);
            i += 1;
            assert(self@ =~= old(self)@ + Seq::new(i as nat, |k: int| c));
        }
    }

    /// The number of bytes written so far.
    fn index(&self) -> (r: usize)
        ensures
            r == self@.len(),
    {
        self.buffer.len()
    }

    /// The byte at `i`.
    fn get(&self, i: usize) -> (r: u8)
        requires
            i < self@.len(),
        ensures
            r == self@[i as int],
    {
        self.buffer[i]
    }

    /// Replaces the byte at `i`.
    fn set(&mut self, i: usize, c: u8)
        requires
            i < old(self)@.len(),
        ensures
            final(self)@ == old(self)@.update(i as int, c),
            final(self).capacity() == old(self).capacity(),
    {
        self.buffer.set(i, c);
    }

    /// Inserts `c` at `i`, moving the bytes from `i` on one place up.
    fn insert(&mut self, i: usize, c: u8)
        requires
            i <= old(self)@.len(),
            old(self)@.len() + 1 <= old(self).capacity(),
        ensures
            final(self)@ == old(self)@.insert(i as int, c),
            final(self).capacity() == old(self).capacity(),
    {
        self.buffer.insert(i, c);
    }

    /// Moves the written bytes out.
    fn into_bytes(self) -> (r: Vec<u8>)
        ensures
            r@ == self@,
    {
        self.buffer
    }
}

/// Inputs whose magnitude is at least `10^21` (bit pattern of `1e21`) fall
/// back to the shortest notation.
pub const BITS_1E21: u64 = 0x444b_1ae4_d6e2_ef50;

/// Mask of everything but the sign bit of a binary64.
pub const MAGNITUDE_MASK: u64 = 0x7fff_ffff_ffff_ffff;

/// Largest biased exponent below the `10^21` fallback.
pub const MAX_EXPONENT: u32 = 0b100_0100_0100;

/// The `toFixed` rendering of zero: `0`, then a point and zeros when digits
/// are asked for.
pub open spec fn fixed_zero_text(fraction_digits: nat) -> Seq<u8> {
    if fraction_digits == 0 {
        seq![ZERO]
    } else {
        seq![ZERO, DOT] + zeros(fraction_digits)
    }
}

/// An ASCII decimal digit.
pub open spec fn is_digit(b: u8) -> bool {
    ZERO <= b <= NINE
}

/// The `toFixed` layout: a `-` first exactly for negative values, at least
/// one integer digit, and, when fraction digits are asked for, a point
/// followed by exactly `fraction_digits` digits.
pub open spec fn fixed_layout(s: Seq<u8>, negative: bool, fraction_digits: nat) -> bool {
    let start: int = if negative { 1 } else { 0 };
    let dot: int = if fraction_digits > 0 { s.len() - fraction_digits - 1 } else { s.len() as int };
    &&& start < dot
    &&& (negative ==> s[0] == MINUS)
    &&& forall|i: int| start <= i < s.len() && i != dot ==> is_digit(#[trigger] s[i])
    &&& (fraction_digits > 0 ==> s[dot] == DOT)
}

/// The value of a digit byte.
pub open spec fn digit_value(b: u8) -> nat {
    (b - ZERO) as nat
}

/// How many digit bytes `s` holds.
pub open spec fn digit_count(s: Seq<u8>) -> nat
    decreases s.len(),
{
    if s.len() == 0 {
        0
    } else {
        digit_count(s.drop_last()) + if is_digit(s.last()) { 1nat } else { 0nat }
    }
}

/// The digits of `s` read as one decimal integer, skipping any other byte
/// (the sign and the point): `-12.05` reads as `1205`.
pub open spec fn decimal_value(s: Seq<u8>) -> nat
    decreases s.len(),
{
    if s.len() == 0 {
        0
    } else if is_digit(s.last()) {
        decimal_value(s.drop_last()) * 10 + digit_value(s.last())
    } else {
        decimal_value(s.drop_last())
    }
}

/// Replacing the digit at `i` by the digit `b` changes the value by the
/// difference times the place value of `i`.
proof fn lemma_value_update(s: Seq<u8>, i: int, b: u8)
    requires
        0 <= i < s.len(),
        is_digit(s[i]),
        is_digit(b),
    ensures
        decimal_value(s.update(i, b)) + digit_value(s[i]) * pow10(digit_count(s.subrange(i + 1, s.len() as int)))
            == decimal_value(s) + digit_value(b) * pow10(digit_count(s.subrange(i + 1, s.len() as int))),
    decreases s.len(),
{
    let u = s.update(i, b);
    let tail = s.subrange(i + 1, s.len() as int);
    let s1 = s.drop_last();
    assert(u.drop_last() =~= if i == s.len() - 1 { s1 } else { s1.update(i, b) });
    if i == s.len() - 1 {
        assert(u.last() == b);
        assert(s.last() == s[i]);
        assert(tail.len() == 0);
        assert(digit_count(tail) == 0);
        assert(pow10(0) == 1);
        assert(decimal_value(u) == decimal_value(s1) * 10 + digit_value(b));
        assert(decimal_value(s) == decimal_value(s1) * 10 + digit_value(s[i]));
        assert(pow10(digit_count(tail)) == 1);
        let one = pow10(digit_count(tail));
        assert(digit_value(s[i]) * one == digit_value(s[i])) by (nonlinear_arith)
            requires one == 1;
        assert(digit_value(b) * one == digit_value(b)) by (nonlinear_arith)
            requires one == 1;
    } else {
        lemma_value_update(s1, i, b);
        let u1 = s1.update(i, b);
        assert(u.last() == s.last());
        let tail1 = s1.subrange(i + 1, s1.len() as int);
        assert(tail.drop_last() =~= tail1);
        assert(tail.last() == s.last());
        assert(tail.len() > 0);
        let p = pow10(digit_count(tail1));
        let vi = digit_value(s[i]);
        let vb = digit_value(b);
        assert(decimal_value(u1) + vi * p == decimal_value(s1) + vb * p);
        if is_digit(s.last()) {
            let d = digit_value(s.last());
            assert(digit_count(tail) == digit_count(tail1) + 1);
            assert(pow10(digit_count(tail)) == 10 * p);
            assert(decimal_value(u) == decimal_value(u1) * 10 + d);
            assert(decimal_value(s) == decimal_value(s1) * 10 + d);
            assert(decimal_value(u) + vi * (10 * p) == decimal_value(s) + vb * (10 * p)) by (nonlinear_arith)
                requires
                    decimal_value(u1) + vi * p == decimal_value(s1) + vb * p,
                    decimal_value(u) == decimal_value(u1) * 10 + d,
                    decimal_value(s) == decimal_value(s1) * 10 + d;
            assert(vi * pow10(digit_count(tail)) == vi * (10 * p));
            assert(vb * pow10(digit_count(tail)) == vb * (10 * p));
        } else {
            assert(digit_count(tail) == digit_count(tail1));
            assert(decimal_value(u) == decimal_value(u1));
            assert(decimal_value(s) == decimal_value(s1));
            assert(vi * pow10(digit_count(tail)) == vi * p);
            assert(vb * pow10(digit_count(tail)) == vb * p);
        }
    }
}

/// A byte put in front adds its place value when it is a digit.
proof fn lemma_value_front(b: u8, s: Seq<u8>)
    ensures
        decimal_value(seq![b] + s) == (if is_digit(b) { digit_value(b) * pow10(digit_count(s)) } else { 0 })
            + decimal_value(s),
        digit_count(seq![b] + s) == digit_count(s) + if is_digit(b) { 1nat } else { 0nat },
    decreases s.len(),
{
    let t = seq![b] + s;
    if s.len() == 0 {
        assert(t.drop_last() =~= Seq::<u8>::empty());
        assert(t.last() == b);
        assert(pow10(0) == 1);
        assert(digit_count(s) == 0);
        assert(decimal_value(s) == 0);
        assert(digit_count(Seq::<u8>::empty()) == 0);
        assert(decimal_value(Seq::<u8>::empty()) == 0);
    } else {
        let s1 = s.drop_last();
        lemma_value_front(b, s1);
        assert(t.drop_last() =~= seq![b] + s1);
        assert(t.last() == s.last());
        let c: nat = if is_digit(b) { digit_value(b) * pow10(digit_count(s1)) } else { 0 };
        assert(decimal_value(seq![b] + s1) == c + decimal_value(s1));
        if is_digit(s.last()) {
            let d = digit_value(s.last());
            let p = pow10(digit_count(s1));
            assert(digit_count(s) == digit_count(s1) + 1);
            assert(pow10(digit_count(s)) == 10 * p);
            assert(decimal_value(t) == decimal_value(seq![b] + s1) * 10 + d);
            assert(decimal_value(s) == decimal_value(s1) * 10 + d);
            if is_digit(b) {
                assert(decimal_value(t) == digit_value(b) * (10 * p) + decimal_value(s)) by (nonlinear_arith)
                    requires
                        decimal_value(t) == decimal_value(seq![b] + s1) * 10 + d,
                        decimal_value(seq![b] + s1) == digit_value(b) * p + decimal_value(s1),
                        decimal_value(s) == decimal_value(s1) * 10 + d;
            }
        } else {
            assert(digit_count(s) == digit_count(s1));
            assert(decimal_value(t) == decimal_value(seq![b] + s1));
            assert(decimal_value(s) == decimal_value(s1));
        }
    }
}

/// A trailing nine turned to zero: the carry moves one digit up.
proof fn lemma_round_nine(pre: Seq<u8>, r: int, target: nat)
    requires
        0 <= r < pre.len(),
        pre[r] == NINE,
        decimal_value(pre) + pow10(digit_count(pre.subrange(r + 1, pre.len() as int))) == target,
    ensures
        ({
            let u = pre.update(r, ZERO);
            decimal_value(u) + pow10(digit_count(u.subrange(r, u.len() as int))) == target
        }),
{
    let u = pre.update(r, ZERO);
    let rest = pre.subrange(r + 1, pre.len() as int);
    lemma_value_update(pre, r, ZERO);
    assert(u.subrange(r, u.len() as int) =~= seq![ZERO] + rest);
    lemma_value_front(ZERO, rest);
    let p = pow10(digit_count(rest));
    assert(pow10(digit_count(rest) + 1) == 10 * p);
    assert(digit_value(NINE) * p == 9 * p);
    assert(digit_value(ZERO) * p == 0) by (nonlinear_arith)
        requires digit_value(ZERO) == 0;
    assert(digit_value(pre[r]) * p == 9 * p);
    assert(decimal_value(u) + 9 * p == decimal_value(pre));
    assert(digit_count(u.subrange(r, u.len() as int)) == digit_count(rest) + 1);
    assert(pow10(digit_count(u.subrange(r, u.len() as int))) == 10 * p);
    assert(decimal_value(pre) + p == target);
    assert(decimal_value(u) + 10 * p == target) by (nonlinear_arith)
        requires
            decimal_value(u) + 9 * p == decimal_value(pre),
            decimal_value(pre) + p == target;
}

/// A digit below nine goes up by one and takes the carry.
proof fn lemma_round_digit(pre: Seq<u8>, r: int, target: nat)
    requires
        0 <= r < pre.len(),
        is_digit(pre[r]),
        pre[r] != NINE,
        decimal_value(pre) + pow10(digit_count(pre.subrange(r + 1, pre.len() as int))) == target,
    ensures
        decimal_value(pre.update(r, (pre[r] + 1) as u8)) == target,
{
    let c = pre[r];
    lemma_value_update(pre, r, (c + 1) as u8);
    let p = pow10(digit_count(pre.subrange(r + 1, pre.len() as int)));
    let vc = digit_value(c);
    assert(digit_value((c + 1) as u8) == vc + 1);
    assert((vc + 1) * p == vc * p + p) by (nonlinear_arith);
}

/// All digits were nines and have become zeros: a `1` in front takes the carry.
proof fn lemma_round_front(pre: Seq<u8>, target: nat)
    requires
        decimal_value(pre) + pow10(digit_count(pre.subrange(0, pre.len() as int))) == target,
    ensures
        decimal_value(seq![ONE] + pre) == target,
{
    assert(pre.subrange(0, pre.len() as int) =~= pre);
    lemma_value_front(ONE, pre);
    let q = pow10(digit_count(pre));
    assert(digit_value(ONE) == 1);
    assert(digit_value(ONE) * q == q) by (nonlinear_arith)
        requires digit_value(ONE) == 1;
}

/// As above behind a minus sign.
proof fn lemma_round_after_sign(pre: Seq<u8>, target: nat)
    requires
        pre.len() >= 1,
        pre[0] == MINUS,
        decimal_value(pre) + pow10(digit_count(pre.subrange(1, pre.len() as int))) == target,
    ensures
        decimal_value(pre.insert(1, ONE)) == target,
{
    let rest = pre.subrange(1, pre.len() as int);
    assert(pre =~= seq![MINUS] + rest);
    assert(pre.insert(1, ONE) =~= seq![MINUS] + (seq![ONE] + rest));
    lemma_value_front(MINUS, rest);
    lemma_value_front(ONE, rest);
    lemma_value_front(MINUS, seq![ONE] + rest);
    let q = pow10(digit_count(rest));
    assert(digit_value(ONE) == 1);
    assert(digit_value(ONE) * q == q) by (nonlinear_arith)
        requires digit_value(ONE) == 1;
}

/// The last `n` decimal digits of `v`, with leading zeros.
pub open spec fn padded(v: nat, n: nat) -> Seq<u8>
    decreases n,
{
    if n == 0 {
        seq![]
    } else {
        padded(v / 10, (n - 1) as nat).push((48 + v % 10) as u8)
    }
}

/// The `toFixed` text of the integer `v` with `d` fraction digits: a sign,
/// the digits of `v / 10^d`, then a point and the last `d` digits of `v`.
pub open spec fn fixed_text(negative: bool, v: nat, d: nat) -> Seq<u8> {
    sign_text(negative) + crate::common::digits(v / pow10(d)) + if d > 0 {
        seq![DOT] + padded(v % pow10(d), d)
    } else {
        seq![]
    }
}

/// Whether every byte of `s` is a digit.
pub open spec fn all_digit_bytes(s: Seq<u8>) -> bool {
    forall|i: int| 0 <= i < s.len() ==> is_digit(#[trigger] s[i])
}

/// Reading `a + b` shifts `a` by the digits of `b`.
proof fn lemma_value_concat(a: Seq<u8>, b: Seq<u8>)
    ensures
        decimal_value(a + b) == decimal_value(a) * pow10(digit_count(b)) + decimal_value(b),
    decreases b.len(),
{
    if b.len() == 0 {
        assert(a + b =~= a);
        assert(pow10(0) == 1);
        assert(decimal_value(a) * 1 == decimal_value(a));
    } else {
        let b1 = b.drop_last();
        lemma_value_concat(a, b1);
        assert((a + b).drop_last() =~= a + b1);
        assert((a + b).last() == b.last());
        let p = pow10(digit_count(b1));
        if is_digit(b.last()) {
            assert(pow10(digit_count(b)) == 10 * p);
            assert((decimal_value(a) * p + decimal_value(b1)) * 10 == decimal_value(a) * (10 * p) + decimal_value(b1) * 10)
                by (nonlinear_arith);
        }
    }
}

/// Digits of a fixed count are the padded form of their value.
proof fn lemma_digits_padded(f: Seq<u8>)
    requires
        all_digit_bytes(f),
    ensures
        f == padded(decimal_value(f), f.len()),
        decimal_value(f) < pow10(f.len()),
        digit_count(f) == f.len(),
    decreases f.len(),
{
    if f.len() == 0 {
        assert(f =~= Seq::<u8>::empty());
        assert(pow10(0) == 1);
    } else {
        let f1 = f.drop_last();
        assert(all_digit_bytes(f1)) by {
            assert forall|i: int| 0 <= i < f1.len() implies is_digit(#[trigger] f1[i]) by {
                assert(f1[i] == f[i]);
            }
        }
        lemma_digits_padded(f1);
        let x = digit_value(f.last());
        assert(is_digit(f[f.len() - 1]));
        let v = decimal_value(f);
        assert(v == decimal_value(f1) * 10 + x);
        assert(v % 10 == x && v / 10 == decimal_value(f1));
        assert(f =~= f1.push((48 + v % 10) as u8));
        assert(pow10(f.len()) == 10 * pow10(f1.len()));
    }
}

/// Digits without a leading zero are the digits of their value.
proof fn lemma_digits_canonical(g: Seq<u8>)
    requires
        g.len() >= 1,
        all_digit_bytes(g),
        g[0] != ZERO || g.len() == 1,
    ensures
        g == crate::common::digits(decimal_value(g)),
        g.len() > 1 ==> decimal_value(g) >= 10,
    decreases g.len(),
{
    let g1 = g.drop_last();
    let x = digit_value(g.last());
    assert(is_digit(g[g.len() - 1]));
    let v = decimal_value(g);
    assert(v == decimal_value(g1) * 10 + x);
    if g.len() == 1 {
        assert(g1 =~= Seq::<u8>::empty());
        assert(v == x);
        assert(g =~= seq![(48 + v) as u8]);
    } else {
        assert(all_digit_bytes(g1)) by {
            assert forall|i: int| 0 <= i < g1.len() implies is_digit(#[trigger] g1[i]) by {
                assert(g1[i] == g[i]);
            }
        }
        assert(g1[0] == g[0]);
        lemma_digits_canonical(g1);
        if g1.len() == 1 {
            assert(decimal_value(g1) == digit_value(g1[0])) by {
                reveal_with_fuel(decimal_value, 2);
                assert(g1.drop_last() =~= Seq::<u8>::empty());
                assert(g1.last() == g1[0]);
                assert(is_digit(g1[0]));
            }
            assert(decimal_value(g1) >= 1);
        }
        assert(v >= 10);
        assert(v % 10 == x && v / 10 == decimal_value(g1));
        assert(g =~= g1.push((48 + v % 10) as u8));
    }
}

/// The layout, the absence of a leading zero and the value fix the text.
pub proof fn lemma_fixed_text_unique(s: Seq<u8>, negative: bool, d: nat)
    requires
        fixed_layout(s, negative, d),
        no_leading_zero(s, negative, d),
    ensures
        s == fixed_text(negative, decimal_value(s), d),
{
    let start: int = if negative { 1 } else { 0 };
    let dot: int = if d > 0 { s.len() - d - 1 } else { s.len() as int };
    let g = s.subrange(start, dot);
    let f: Seq<u8> = if d > 0 { s.subrange(dot + 1, s.len() as int) } else { Seq::<u8>::empty() };
    let tail: Seq<u8> = if d > 0 { seq![DOT] + f } else { Seq::<u8>::empty() };
    assert(s.subrange(0, start) =~= sign_text(negative)) by {
        if negative {
            assert(s[0] == MINUS);
        }
    }
    assert(s =~= sign_text(negative) + g + tail) by {
        if d > 0 {
            assert(s[dot] == DOT);
        }
    }
    assert(all_digit_bytes(g)) by {
        assert forall|i: int| 0 <= i < g.len() implies is_digit(#[trigger] g[i]) by {
            assert(g[i] == s[start + i]);
        }
    }
    assert(all_digit_bytes(f)) by {
        assert forall|i: int| 0 <= i < f.len() implies is_digit(#[trigger] f[i]) by {
            assert(f[i] == s[dot + 1 + i]);
        }
    }
    assert(g[0] == s[start]);
    lemma_digits_canonical(g);
    lemma_digits_padded(f);
    // The value: sign, integer digits, point, fraction digits.
    lemma_value_concat(sign_text(negative) + g, tail);
    lemma_value_concat(sign_text(negative), g);
    lemma_value_front(DOT, f);
    assert(decimal_value(sign_text(negative)) == 0) by {
        reveal_with_fuel(decimal_value, 2);
        if negative {
            assert(sign_text(negative).drop_last() =~= Seq::<u8>::empty());
        }
    }
    assert(decimal_value(Seq::<u8>::empty()) == 0);
    assert(digit_count(Seq::<u8>::empty()) == 0);
    let vi = decimal_value(g);
    let vf = decimal_value(f);
    let p = pow10(d);
    assert(digit_count(tail) == d);
    assert(decimal_value(tail) == vf);
    assert(decimal_value(sign_text(negative) + g) == vi) by {
        assert(0 * pow10(digit_count(g)) == 0);
    }
    let v = decimal_value(s);
    assert(v == vi * p + vf);
    crate::pretty::to_fixed::decimal::lemma_pow10_pos(d);
    assert(vf < p);
    vstd::arithmetic::div_mod::lemma_div_multiples_vanish_fancy(vi as int, vf as int, p as int);
    assert(v / p == vi) by (nonlinear_arith)
        requires v == vi * p + vf, (p * vi + vf) / p == vi;
    vstd::arithmetic::div_mod::lemma_fundamental_div_mod(v as int, p as int);
    let q = v / p;
    assert(p * q == vi * p) by (nonlinear_arith)
        requires q == vi;
    assert(v % p == vf);
    if d == 0 {
        assert(p == 1);
    }
}

/// Adds one unit in the last place to the written digits: trailing nines
/// become zeros, the digit before them goes up by one, and a `1` is inserted
/// in front (after a sign) when every digit was a nine.
fn round_up_digits(result: &mut Cursor, negative: bool, fraction_digits: u32)
    requires
        old(result)@.len() + 1 <= old(result).capacity(),
        fixed_layout(old(result)@, negative, fraction_digits as nat),
        no_leading_zero(old(result)@, negative, fraction_digits as nat),
    ensures
        final(result).capacity() == old(result).capacity(),
        fixed_layout(final(result)@, negative, fraction_digits as nat),
        no_leading_zero(final(result)@, negative, fraction_digits as nat),
        final(result)@.len() <= old(result)@.len() + 1,
        decimal_value(final(result)@) == decimal_value(old(result)@) + 1,
{
    let ghost start: int = if negative { 1 } else { 0 };
    let mut round_index: usize = result.index();
    proof {
        assert(result@.subrange(round_index as int, result@.len() as int) =~= Seq::<u8>::empty());
        assert(pow10(0) == 1);
    }
    loop
        invariant_except_break
            round_index <= result@.len() == old(result)@.len(),
            result@.len() + 1 <= result.capacity(),
            negative ==> round_index >= 1,
            decimal_value(result@) + pow10(digit_count(result@.subrange(round_index as int, result@.len() as int)))
                == decimal_value(old(result)@) + 1,
            round_index > start ==> result@[start] == old(result)@[start],
            start == (if negative { 1int } else { 0int }),
            no_leading_zero(old(result)@, negative, fraction_digits as nat),
        invariant
            result.capacity() == old(result).capacity(),
            fixed_layout(result@, negative, fraction_digits as nat),
        ensures
            result@.len() <= old(result)@.len() + 1,
            decimal_value(result@) == decimal_value(old(result)@) + 1,
            no_leading_zero(result@, negative, fraction_digits as nat),
        decreases round_index,
    {
        let ghost pre = result@;
        let ghost dot: int = if fraction_digits > 0 { pre.len() - fraction_digits - 1 } else { pre.len() as int };
        if round_index == 0 {
            // Every digit was a nine: 999.9 -> 000.0 -> 1000.0
            result.insert(0, ONE);
            proof {
                assert forall|i: int| 0 <= i < result@.len() && i != dot + 1 implies is_digit(#[trigger] result@[i]) by {
                    if i > 0 {
                        assert(result@[i] == pre[i - 1]);
                    }
                }
                if fraction_digits > 0 {
                    assert(result@[dot + 1] == pre[dot]);
                }
                assert(result@ =~= seq![ONE] + pre);
                lemma_round_front(pre, (decimal_value(old(result)@) + 1) as nat);
                assert(result@[0] == ONE);
            }
            break;
        }
        round_index -= 1;
        let c = result.get(round_index);
        let ghost r = round_index as int;
        let ghost rest = pre.subrange(r + 1, pre.len() as int);
        if c == MINUS {
            // Every digit was a nine: -99.9 -> -00.0 -> -100.0
            proof {
                if !negative || round_index != 0 {
                    assert(is_digit(pre[round_index as int]) || round_index as int == dot);
                }
            }
            result.insert(round_index + 1, ONE);
            proof {
                assert(negative && round_index == 0);
                assert forall|i: int| 1 <= i < result@.len() && i != dot + 1 implies is_digit(#[trigger] result@[i]) by {
                    if i > 1 {
                        assert(result@[i] == pre[i - 1]);
                    }
                }
                assert(result@[0] == pre[0]);
                if fraction_digits > 0 {
                    assert(result@[dot + 1] == pre[dot]);
                }
                lemma_round_after_sign(pre, (decimal_value(old(result)@) + 1) as nat);
                assert(result@[1] == ONE);
            }
            break;
        }
        if c == DOT {
            proof {
                assert(pre.subrange(r, pre.len() as int) =~= seq![c] + rest);
                lemma_value_front(c, rest);
            }
            continue;
        }
        proof {
            if !negative || round_index != 0 {
                assert(is_digit(pre[round_index as int]) || round_index as int == dot);
            }
            if fraction_digits > 0 && round_index as int == dot {
                assert(c == DOT);
            }
        }
        if c == NINE {
            result.set(round_index, ZERO);
            proof {
                lemma_round_nine(pre, r, (decimal_value(old(result)@) + 1) as nat);
                if r > start {
                    assert(result@[start] == pre[start]);
                }
            }
            continue;
        }
        result.set(round_index, c + 1);
        proof {
            lemma_round_digit(pre, r, (decimal_value(old(result)@) + 1) as nat);
            if r > start {
                assert(result@[start] == pre[start]);
            } else {
                assert(result@[start] == (c + 1) as u8);
            }
        }
        break;
    }
}

proof fn lemma_layout_text_bytes(s: Seq<u8>, negative: bool, fraction_digits: nat)
    requires
        fixed_layout(s, negative, fraction_digits),
    ensures
        text_bytes(s),
{
    let start: int = if negative { 1 } else { 0 };
    let dot: int = if fraction_digits > 0 { s.len() - fraction_digits - 1 } else { s.len() as int };
    assert forall|i: int| 0 <= i < s.len() implies #[trigger] s[i] <= NINE by {
        if i >= start && i != dot {
            assert(is_digit(s[i]));
        }
    }
}

/// The binary exponent of a binary64's fields: its value is
/// `binary_m2 * 2^fixed_e2`.
pub open spec fn fixed_e2(ieee_exponent: nat) -> int {
    if ieee_exponent == 0 {
        -1074
    } else {
        ieee_exponent - 1075
    }
}

/// The `toFixed` digits of the binary64 with bits `bits`, read as one
/// integer: its magnitude times `10^d`, rounded half up.
pub open spec fn fixed_value_of(bits: nat, d: nat) -> nat {
    let m = ieee_mantissa_of(FloatFormat::Binary64, bits);
    let e = ieee_exponent_of(FloatFormat::Binary64, bits);
    fixed_value(binary_m2(FloatFormat::Binary64, m, e), fixed_e2(e), d)
}

/// Whether a binary64 with these fields has magnitude at least `10^21`.
pub open spec fn at_least_1e21(ieee_exponent: nat, ieee_mantissa: nat) -> bool {
    ieee_exponent > MAX_EXPONENT || (ieee_exponent == MAX_EXPONENT && ieee_mantissa >= 0xb_1ae4_d6e2_ef50)
}

/// No superfluous leading zero: the first digit is not `0` unless it is the
/// only integer digit.
pub open spec fn no_leading_zero(s: Seq<u8>, negative: bool, fraction_digits: nat) -> bool {
    let start: int = if negative { 1 } else { 0 };
    let dot: int = if fraction_digits > 0 { s.len() - fraction_digits - 1 } else { s.len() as int };
    s[start] != ZERO || dot == start + 1
}

proof fn lemma_push_digit(out: Seq<u8>, n: Seq<u8>, i: int)
    requires
        1 <= i <= n.len(),
        n[i - 1] < 10,
    ensures
        decimal_value(out.push((48 + n[i - 1]) as u8))
            == decimal_value(out) * 10 + n[i - 1],
        le_value(n.subrange(i - 1, n.len() as int)) == n[i - 1] + 10 * le_value(n.subrange(i, n.len() as int)),
{
    assert(out.push((48 + n[i - 1]) as u8).drop_last() =~= out);
    assert(n.subrange(i - 1, n.len() as int).drop_first() =~= n.subrange(i, n.len() as int));
}

proof fn lemma_sign_value(sign: bool, s: Seq<u8>)
    requires
        s == (if sign { seq![MINUS] } else { Seq::<u8>::empty() }),
    ensures
        decimal_value(s) == 0,
{
    reveal_with_fuel(decimal_value, 2);
    if sign {
        assert(s.drop_last() =~= Seq::<u8>::empty());
    }
}

/// Appends digit `i - 1` of the little-endian digits `n`.
fn append_digit_at(out: &mut Vec<u8>, n: &Vec<u8>, i: usize)
    requires
        1 <= i <= n@.len(),
        small_digits(n@),
    ensures
        final(out)@ == old(out)@.push((48 + n@[i - 1]) as u8),
        is_digit((48 + n@[i - 1]) as u8),
        n@[i - 1] < 10,
        decimal_value(final(out)@) == decimal_value(old(out)@) * 10 + n@[i - 1],
        le_value(n@.subrange(i - 1, n@.len() as int)) == n@[i - 1] + 10 * le_value(n@.subrange(i as int, n@.len() as int)),
{
    proof {
        lemma_push_digit(old(out)@, n@, i as int);
        assert(n@[i - 1] < 10);
    }
    out.push(48 + n[i - 1]);
}

/// Appends the integer digits `n[top - 1] .. n[d]`.
fn push_integer_digits(out: &mut Vec<u8>, n: &Vec<u8>, d: usize, top: usize, sign: bool)
    requires
        d + 1 <= top <= n@.len(),
        top <= d + 23,
        small_digits(n@),
        old(out)@.len() == (if sign { 1int } else { 0int }),
        sign ==> old(out)@[0] == MINUS,
        decimal_value(old(out)@) == le_value(n@.subrange(top as int, n@.len() as int)),
        top > d + 1 ==> n@[top - 1] != 0,
    ensures
        final(out)@.len() == old(out)@.len() + (top - d),
        sign ==> final(out)@[0] == MINUS,
        forall|x: int| old(out)@.len() <= x < final(out)@.len() ==> is_digit(#[trigger] final(out)@[x]),
        decimal_value(final(out)@) == le_value(n@.subrange(d as int, n@.len() as int)),
        final(out)@[old(out)@.len() as int] != ZERO || top == d + 1,
{
    let ghost start = old(out)@.len() as int;
    let mut i: usize = top;
    while i > d
        invariant
            d <= i <= top <= n@.len(),
            top >= d + 1,
            small_digits(n@),
            start == old(out)@.len(),
            start == (if sign { 1int } else { 0int }),
            out@.len() == start + (top - i),
            sign ==> out@[0] == MINUS,
            forall|x: int| start <= x < out@.len() ==> is_digit(#[trigger] out@[x]),
            decimal_value(out@) == le_value(n@.subrange(i as int, n@.len() as int)),
            i < top ==> (out@[start] != ZERO || top == d + 1),
            top > d + 1 ==> n@[top - 1] != 0,
        decreases i,
    {
        let ghost before = out@;
        append_digit_at(out, n, i);
        proof {
            assert forall|x: int| start <= x < out@.len() implies is_digit(#[trigger] out@[x]) by {
                if x < before.len() {
                    assert(out@[x] == before[x]);
                }
            }
            if sign {
                assert(out@[0] == before[0]);
            }
            if before.len() > start {
                assert(out@[start] == before[start]);
            } else {
                assert(out@[start] == (48 + n@[i - 1]) as u8);
            }
        }
        i -= 1;
    }
}

/// Appends the fraction digits `n[d - 1] .. n[0]`.
fn push_fraction_digits(out: &mut Vec<u8>, n: &Vec<u8>, d: usize, dot: usize, sign: bool, top: usize)
    requires
        d <= n@.len(),
        small_digits(n@),
        dot == old(out)@.len() - (if d > 0 { 1int } else { 0int }),
        dot > (if sign { 1int } else { 0int }),
        sign ==> old(out)@[0] == MINUS,
        forall|x: int| (if sign { 1int } else { 0int }) <= x < old(out)@.len() && x != dot ==> is_digit(#[trigger] old(out)@[x]),
        d > 0 ==> old(out)@[dot as int] == DOT,
        old(out)@[(if sign { 1int } else { 0int })] != ZERO || top == d + 1,
        decimal_value(old(out)@) == le_value(n@.subrange(d as int, n@.len() as int)),
    ensures
        final(out)@.len() == old(out)@.len() + d,
        sign ==> final(out)@[0] == MINUS,
        forall|x: int| (if sign { 1int } else { 0int }) <= x < final(out)@.len() && x != dot ==> is_digit(#[trigger] final(out)@[x]),
        d > 0 ==> final(out)@[dot as int] == DOT,
        final(out)@[(if sign { 1int } else { 0int })] != ZERO || top == d + 1,
        decimal_value(final(out)@) == le_value(n@),
{
    let ghost start: int = if sign { 1 } else { 0 };
    let mut i: usize = d;
    while i > 0
        invariant
            i <= d <= n@.len(),
            small_digits(n@),
            out@.len() == old(out)@.len() + (d - i),
            dot < old(out)@.len() || d == 0,
            dot == old(out)@.len() - (if d > 0 { 1int } else { 0int }),
            start == (if sign { 1int } else { 0int }),
            start < dot,
            start < old(out)@.len(),
            sign ==> out@[0] == MINUS,
            forall|x: int| start <= x < out@.len() && x != dot ==> is_digit(#[trigger] out@[x]),
            d > 0 ==> out@[dot as int] == DOT,
            out@[start] != ZERO || top == d + 1,
            decimal_value(out@) == le_value(n@.subrange(i as int, n@.len() as int)),
        decreases i,
    {
        let ghost before = out@;
        append_digit_at(out, n, i);
        proof {
            assert forall|x: int| start <= x < out@.len() && x != dot implies is_digit(#[trigger] out@[x]) by {
                if x < before.len() {
                    assert(out@[x] == before[x]);
                }
            }
            if sign {
                assert(out@[0] == before[0]);
            }
            assert(out@[start] == before[start]);
            if d > 0 {
                assert(out@[dot as int] == before[dot as int]);
            }
        }
        i -= 1;
    }
    proof {
        assert(n@.subrange(0, n@.len() as int) =~= n@);
    }
}

/// Writes the little-endian digits `n` as `toFixed` text: a sign, the
/// integer digits without leading zeros, and a point before the last
/// `d` digits.
fn write_fixed(sign: bool, n: &Vec<u8>, d: usize) -> (r: Vec<u8>)
    requires
        small_digits(n@),
        n@.len() >= d + 1,
        d <= 100,
        le_value(n@) < pow10((d + 22) as nat),
    ensures
        fixed_layout(r@, sign, d as nat),
        no_leading_zero(r@, sign, d as nat),
        decimal_value(r@) == le_value(n@),
        r@.len() <= d + 24,
{
    let mut out: Vec<u8> = Vec::new();
    if sign {
        out.push(MINUS);
    }
    let ghost start: int = if sign { 1 } else { 0 };
    let mut i: usize = n.len();
    proof {
        lemma_sign_value(sign, out@);
        assert(n@.subrange(i as int, n@.len() as int) =~= Seq::<u8>::empty());
        decimal::lemma_le_short(n@.subrange(i as int, n@.len() as int));
    }
    // Leading zeros of the integer part.
    while i > d + 1 && n[i - 1] == 0
        invariant
            d + 1 <= i <= n@.len(),
            le_value(n@.subrange(i as int, n@.len() as int)) == 0,
        decreases i,
    {
        proof {
            lemma_push_digit(Seq::<u8>::empty(), n@, i as int);
        }
        i -= 1;
    }
    let top = i;
    proof {
        if top > d + 1 {
            assert(n@[top - 1] != 0);
            decimal::lemma_le_at_least(n@, top - 1);
            decimal::lemma_le_split(n@, top as int);
            if top > d + 23 {
                decimal::lemma_pow10_le((d + 22) as nat, (top - 1) as nat);
            }
        }
        assert(out@.len() == start);
    }
    push_integer_digits(&mut out, n, d, top, sign);
    let dot = out.len();
    let ghost before_dot = out@;
    if d > 0 {
        out.push(DOT);
        proof {
            assert(out@.drop_last() =~= before_dot);
            assert(out@[start] == before_dot[start]);
            if sign {
                assert(out@[0] == before_dot[0]);
            }
            assert forall|x: int| start <= x < out@.len() && x != dot implies is_digit(#[trigger] out@[x]) by {
                assert(out@[x] == before_dot[x]);
            }
        }
    }
    push_fraction_digits(&mut out, n, d, dot, sign, top);
    proof {
        assert(n@.subrange(0, n@.len() as int) =~= n@);
    }
    out
}

/// The fixed-point digits of a non-zero binary64 below `10^21` in magnitude.
fn fixed_digits(sign: bool, m2: u64, e2: i32, fraction_digits: u32) -> (r: Vec<u8>)
    requires
        1 <= m2 < 0x20_0000_0000_0000,
        -1074 <= e2 <= 17,
        fraction_digits <= 100,
    ensures
        r@.len() <= MAX_BUFFER_SIZE,
        fixed_layout(r@, sign, fraction_digits as nat),
        no_leading_zero(r@, sign, fraction_digits as nat),
        decimal_value(r@) == fixed_value(m2 as nat, e2 as int, fraction_digits as nat),
        text_bytes(r@),
{
    let (n, round) = exact_scaled(m2, e2, fraction_digits);
    proof {
        decimal::lemma_fixed_bound(m2 as nat, e2 as int, fraction_digits as nat);
    }
    let bytes = write_fixed(sign, &n, fraction_digits as usize);
    let mut cursor = Cursor { buffer: bytes, len: MAX_BUFFER_SIZE };
    if round {
        round_up_digits(&mut cursor, sign, fraction_digits);
    }
    proof {
        lemma_layout_text_bytes(cursor@, sign, fraction_digits as nat);
    }
    cursor.into_bytes()
}

/// Writes a binary64, given by its bits, as ECMAScript's
/// `Number.prototype.toFixed(fraction_digits)` does for finite values: the
/// exact decimal expansion rounded half up to `fraction_digits` places, or
/// the shortest notation when the magnitude is at least `10^21`. Returns the
/// number of bytes written.
pub fn format64_to_fixed(f: u64, fraction_digits: u8, result: &mut Vec<u8>) -> (n: usize)
    requires
        fraction_digits <= 100,
    ensures
        n == final(result)@.len() - old(result)@.len(),
        n <= MAX_BUFFER_SIZE,
        old(result)@ == final(result)@.subrange(0, old(result)@.len() as int),
        ({
            let e = ieee_exponent_of(FloatFormat::Binary64, f as nat);
            let m = ieee_mantissa_of(FloatFormat::Binary64, f as nat);
            if at_least_1e21(e, m) {
                final(result)@ == old(result)@ + pretty_of(FloatFormat::Binary64, f as nat, Notation::Ecmascript)
            } else if e == 0 && m == 0 {
                final(result)@ == old(result)@ + fixed_zero_text(fraction_digits as nat)
            } else {
                &&& fixed_layout(
                    final(result)@.subrange(old(result)@.len() as int, final(result)@.len() as int),
                    sign_of(FloatFormat::Binary64, f as nat),
                    fraction_digits as nat,
                )
                &&& no_leading_zero(
                    final(result)@.subrange(old(result)@.len() as int, final(result)@.len() as int),
                    sign_of(FloatFormat::Binary64, f as nat),
                    fraction_digits as nat,
                )
                &&& decimal_value(final(result)@.subrange(old(result)@.len() as int, final(result)@.len() as int))
                    == fixed_value_of(f as nat, fraction_digits as nat)
                &&& final(result)@.subrange(old(result)@.len() as int, final(result)@.len() as int) == fixed_text(
                    sign_of(FloatFormat::Binary64, f as nat),
                    fixed_value_of(f as nat, fraction_digits as nat),
                    fraction_digits as nat,
                )
                &&& text_bytes(final(result)@.subrange(old(result)@.len() as int, final(result)@.len() as int))
            }
        }),
{
    proof {
        lemma_fits_binary64(f);
    }
    let (sign, ieee_mantissa, ieee_exponent) = decode(FloatFormat::Binary64, f);
    if ieee_exponent > MAX_EXPONENT || (ieee_exponent == MAX_EXPONENT && ieee_mantissa >= 0xb_1ae4_d6e2_ef50) {
        // ToString: the value is at least 10^21 in magnitude.
        let n = format64(f, result);
        assert(old(result)@ =~= result@.subrange(0, old(result)@.len() as int));
        return n;
    }
    let mut cursor = Cursor::new(MAX_BUFFER_SIZE);
    if ieee_exponent == 0 && ieee_mantissa == 0 {
        // Zero of either sign.
        cursor.append_byte(ZERO);
        if fraction_digits != 0 {
            cursor.append_byte(DOT);
            cursor.append_bytes(ZERO, fraction_digits as usize);
        }
        let bytes = cursor.into_bytes();
        crate::common::append_slice(result, &bytes, 0, bytes.len());
        assert(bytes@ =~= fixed_zero_text(fraction_digits as nat));
        assert(old(result)@ =~= result@.subrange(0, old(result)@.len() as int));
        return bytes.len();
    }
    proof {
        vstd::arithmetic::power2::lemma2_to64_rest();
    }
    let e2: i32;
    let m2: u64;
    if ieee_exponent == 0 {
        e2 = 1 - 1023 - 52;
        m2 = ieee_mantissa;
    } else {
        e2 = ieee_exponent as i32 - 1023 - 52;
        m2 = 0x10_0000_0000_0000 + ieee_mantissa;
    }
    let bytes = fixed_digits(sign, m2, e2, fraction_digits as u32);
    proof {
        lemma_fixed_text_unique(bytes@, sign, fraction_digits as nat);
    }
    crate::common::append_slice(result, &bytes, 0, bytes.len());
    assert(old(result)@ =~= result@.subrange(0, old(result)@.len() as int));
    assert(bytes@ =~= result@.subrange(old(result)@.len() as int, result@.len() as int));
    bytes.len()
}

} // verus!
