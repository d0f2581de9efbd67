use vstd::prelude::*;
use vstd::arithmetic::power2::pow2;
use crate::common::{decimal_len, pow10};
use crate::d2s::{binary_e2, binary_m2, FloatFormat};
use crate::pretty::to_fixed::decimal::{
    dec_one, highest_diff, le_value, lemma_half_digit_pub, lemma_le_div, lemma_le_top, lemma_pow10_pos,
    lemma_pow5_pos, pad_to, pow5, read_u64, small_digits, times_power,
};

verus! {

/// `1` when the boundary below the float is twice as close as usual: every
/// float but the smallest normal power of two of an exponent has it.
pub open spec fn mm_shift_of(ieee_mantissa: nat, ieee_exponent: nat) -> nat {
    if ieee_mantissa != 0 || ieee_exponent <= 1 { 1 } else { 0 }
}

/// Exact scale of the rounding interval: `2^e2` for `e2 >= 0`, else `5^-e2`
/// (then values are counted in units of `10^e2`, since `2^e2 = 5^-e2 * 10^e2`).
pub open spec fn unit_scale(e2: int) -> nat {
    if e2 >= 0 { pow2(e2 as nat) } else { pow5((-e2) as nat) }
}

/// The decimal exponent of one unit: `0` for `e2 >= 0`, else `e2`.
pub open spec fn unit_exp(e2: int) -> int {
    if e2 >= 0 { 0 } else { e2 }
}

/// The rounding interval of a non-zero finite float in units of
/// `10^exp`: the float is `value`, the reals between `lo` and `hi` round to
/// it, and the ends belong to it exactly when the significand is even.
pub struct RoundingInterval {
    pub lo: nat,
    pub value: nat,
    pub hi: nat,
    pub inclusive: bool,
    pub exp: int,
}

pub open spec fn rounding_interval(fmt: FloatFormat, ieee_mantissa: nat, ieee_exponent: nat) -> RoundingInterval {
    let m2 = binary_m2(fmt, ieee_mantissa, ieee_exponent);
    let e2 = binary_e2(fmt, ieee_exponent);
    let s = unit_scale(e2);
    RoundingInterval {
        lo: ((4 * m2 - 1 - mm_shift_of(ieee_mantissa, ieee_exponent)) * s) as nat,
        value: 4 * m2 * s,
        hi: (4 * m2 + 2) * s,
        inclusive: m2 % 2 == 0,
        exp: unit_exp(e2),
    }
}

/// Whether `x` units lie in the rounding interval.
pub open spec fn within(iv: RoundingInterval, x: nat) -> bool {
    if iv.inclusive { iv.lo <= x <= iv.hi } else { iv.lo < x < iv.hi }
}

/// `|x - v|`.
pub open spec fn gap(x: nat, v: nat) -> nat {
    if x >= v { (x - v) as nat } else { (v - x) as nat }
}

/// The properties asked of the shortest decimal `q * 10^(iv.exp + t)`:
/// it rounds to the float; no decimal with a larger exponent does, and `q`
/// has no trailing zero (so none has fewer digits); among decimals with
/// its exponent it is nearest to the float, an exact tie going to an even `q`.
pub open spec fn is_shortest(iv: RoundingInterval, q: nat, t: nat) -> bool {
    &&& within(iv, q * pow10(t))
    &&& q % 10 != 0
    &&& forall|c: nat| !within(iv, #[trigger] (c * pow10(t + 1)))
    &&& forall|c: nat| within(iv, #[trigger] (c * pow10(t))) ==> gap(q * pow10(t), iv.value) <= gap(c * pow10(t), iv.value)
    &&& forall|c: nat| within(iv, #[trigger] (c * pow10(t))) && c != q && gap(q * pow10(t), iv.value) == gap(c * pow10(t), iv.value)
        ==> q % 2 == 0
}

} // verus!

verus! {

/// The nearest integer multiple of `p` to `v`, measured in multiples: `w`
/// or `w + 1`, ties to even.
proof fn lemma_nearest(v: nat, p: nat, w: nat, rem: nat, cand: nat, c: nat)
    requires
        p >= 1,
        v == w * p + rem,
        rem < p,
        cand == w + if 2 * rem > p || (2 * rem == p && w % 2 == 1) { 1nat } else { 0nat },
    ensures
        gap(cand * p, v) <= gap(c * p, v),
        c != cand && gap(cand * p, v) == gap(c * p, v) ==> cand % 2 == 0,
        c >= w + 1 ==> gap(c * p, v) == (c - w) * p - rem,
        c <= w ==> gap(c * p, v) == (w - c) * p + rem,
{
    if c >= w + 1 {
        assert(c * p == (c - w) * p + w * p) by (nonlinear_arith) requires c >= w + 1;
        assert((c - w) * p >= p) by (nonlinear_arith) requires c >= w + 1, p >= 1;
    } else {
        assert(c * p + (w - c) * p == w * p) by (nonlinear_arith) requires c <= w;
        assert((w - c) * p >= 0) by (nonlinear_arith) requires c <= w;
    }
    if 2 * rem > p || (2 * rem == p && w % 2 == 1) {
        assert(cand * p == w * p + p) by (nonlinear_arith) requires cand == w + 1;
        if c >= w + 2 {
            assert((c - w) * p >= 2 * p) by (nonlinear_arith) requires c >= w + 2, p >= 1;
        }
        if c + 1 <= w {
            assert((w - c) * p >= p) by (nonlinear_arith) requires c + 1 <= w, p >= 1;
        }
    } else {
        if c >= w + 2 {
            assert((c - w) * p >= 2 * p) by (nonlinear_arith) requires c >= w + 2, p >= 1;
        }
        if c + 1 <= w {
            assert((w - c) * p >= p) by (nonlinear_arith) requires c + 1 <= w, p >= 1;
        }
    }
}

/// Equal quotients by `10p` keep `B - A` below `10p`, which bounds `B / p`.
proof fn lemma_width(av: nat, bv: nat, p: nat, g: nat)
    requires
        p >= 1,
        av / (10 * p) == bv / (10 * p),
        av < bv,
        bv <= g,
        g < 0x0400_0000_0000_0000 * (bv - av),
    ensures
        bv / p < 0x2800_0000_0000_0000,
        bv - av < 10 * p,
{
    let tp = 10 * p;
    vstd::arithmetic::div_mod::lemma_fundamental_div_mod(av as int, tp as int);
    vstd::arithmetic::div_mod::lemma_fundamental_div_mod(bv as int, tp as int);
    let x = av / tp;
    assert(av == tp * x + av % tp && bv == tp * x + bv % tp);
    assert(bv - av < tp);
    vstd::arithmetic::div_mod::lemma_fundamental_div_mod(bv as int, p as int);
    let qb = bv / p;
    assert(qb * p <= bv) by (nonlinear_arith)
        requires bv == p * qb + bv % p, bv % p >= 0;
    assert(qb < 0x2800_0000_0000_0000) by (nonlinear_arith)
        requires
            qb * p <= bv,
            bv <= g,
            g < 0x0400_0000_0000_0000 * (bv - av),
            bv - av < 10 * p,
            p >= 1;
}

/// The chosen multiple lies in the range.
proof fn lemma_pick_range(av: nat, bv: nat, p: nat, qa: nat, qb: nat, q: nat)
    requires
        p >= 1,
        qa == av / p + 1,
        qb == bv / p,
        qa <= q <= qb,
    ensures
        av < q * p <= bv,
{
    vstd::arithmetic::div_mod::lemma_fundamental_div_mod(av as int, p as int);
    vstd::arithmetic::div_mod::lemma_fundamental_div_mod(bv as int, p as int);
    let xa = av / p;
    let xb = bv / p;
    let ra = av % p;
    let rb = bv % p;
    assert(av == p * xa + ra && bv == p * xb + rb);
    assert(av < q * p) by (nonlinear_arith)
        requires av == p * xa + ra, ra < p, q >= xa + 1;
    assert(q * p <= bv) by (nonlinear_arith)
        requires bv == p * xb + rb, rb >= 0, q <= xb;
}

/// Every multiple of `p` in `(av, bv]` has its multiplier between
/// `av / p + 1` and `bv / p`.
proof fn lemma_multiplier_range(av: nat, bv: nat, p: nat, c: nat)
    requires
        p >= 1,
        av < c * p <= bv,
    ensures
        av / p + 1 <= c <= bv / p,
{
    vstd::arithmetic::div_mod::lemma_fundamental_div_mod(av as int, p as int);
    vstd::arithmetic::div_mod::lemma_fundamental_div_mod(bv as int, p as int);
    let xa = av / p;
    let xb = bv / p;
    let ra = av % p;
    let rb = bv % p;
    assert(c >= xa + 1) by (nonlinear_arith)
        requires av == p * xa + ra, ra >= 0, av < c * p, p >= 1;
    assert(c <= xb) by (nonlinear_arith)
        requires bv == p * xb + rb, rb < p, c * p <= bv, p >= 1;
}

/// When `av` and `bv` have one quotient by `tp`, no multiple of `tp` lies in
/// `(av, bv]`.
proof fn lemma_no_multiple(av: nat, bv: nat, tp: nat, c: nat)
    requires
        tp >= 1,
        av / tp == bv / tp,
    ensures
        !(av < c * tp && c * tp <= bv),
{
    if av < c * tp && c * tp <= bv {
        lemma_multiplier_range(av, bv, tp, c);
    }
}

/// Among the multiples of `p` in range, `q` (the nearest integer multiple,
/// clamped into the range) is nearest to `v`, ties to even.
proof fn lemma_pick_nearest(v: nat, p: nat, w: nat, rem: nat, cand: nat, qa: nat, qb: nat, q: nat, c: nat)
    requires
        p >= 1,
        v == w * p + rem,
        rem < p,
        cand == w + if 2 * rem > p || (2 * rem == p && w % 2 == 1) { 1nat } else { 0nat },
        qa <= qb,
        q == if cand < qa { qa } else if cand > qb { qb } else { cand },
        qa <= c <= qb,
        qa <= w + 1,
        w <= qb,
    ensures
        gap(q * p, v) <= gap(c * p, v),
        c != q && gap(q * p, v) == gap(c * p, v) ==> q % 2 == 0,
{
    lemma_nearest(v, p, w, rem, cand, c);
    lemma_nearest(v, p, w, rem, cand, q);
    if cand < qa {
        assert((c - w) * p >= (q - w) * p) by (nonlinear_arith) requires c >= q, q >= w + 1;
        if c != q {
            assert((c - w) * p > (q - w) * p) by (nonlinear_arith) requires c > q, q >= w + 1, p >= 1;
        }
    } else if cand > qb {
        assert((w - c) * p >= (w - q) * p) by (nonlinear_arith) requires c <= q, q <= w;
        if c != q {
            assert((w - c) * p > (w - q) * p) by (nonlinear_arith) requires c < q, q <= w, p >= 1;
        }
    }
}

/// Picks, from the integers in `(A, B]` (little-endian digits `a`, `b`) and
/// the value `V` in that range, the multiple of the largest power of ten
/// that lies in the range, nearest to `V`, ties to even.
fn pick(a: &Vec<u8>, val: &Vec<u8>, b: &Vec<u8>, ghost_bound: Ghost<nat>) -> (r: (u64, usize))
    requires
        small_digits(a@),
        small_digits(val@),
        small_digits(b@),
        a@.len() == val@.len() == b@.len(),
        le_value(a@) < le_value(val@) <= le_value(b@),
        le_value(b@) <= ghost_bound@,
        ghost_bound@ < 0x0400_0000_0000_0000 * (le_value(b@) - le_value(a@)),
    ensures
        ({
            let (q, t) = (r.0 as nat, r.1 as nat);
            let (av, vv, bv) = (le_value(a@), le_value(val@), le_value(b@));
            &&& av < q * pow10(t) <= bv
            &&& q % 10 != 0
            &&& q >= 1
            &&& r.1 < a@.len()
            &&& forall|c: nat| !(av < #[trigger] (c * pow10(t + 1)) && c * pow10(t + 1) <= bv)
            &&& forall|c: nat| av < #[trigger] (c * pow10(t)) && c * pow10(t) <= bv
                ==> gap(q * pow10(t), vv) <= gap(c * pow10(t), vv)
            &&& forall|c: nat| av < #[trigger] (c * pow10(t)) && c * pow10(t) <= bv && c != q
                && gap(q * pow10(t), vv) == gap(c * pow10(t), vv) ==> q % 2 == 0
            &&& q * pow10(t) <= bv
            &&& bv - av < 10 * pow10(t)
        }),
{
    let ghost av = le_value(a@);
    let ghost vv = le_value(val@);
    let ghost bv = le_value(b@);
    let t = highest_diff(a, b);
    let ghost p = pow10(t as nat);
    proof {
        lemma_pow10_pos(t as nat);
        lemma_le_div(a@, t as int);
        lemma_le_div(b@, t as int);
        lemma_le_div(val@, t as int);
        lemma_le_div(a@, t + 1);
        lemma_le_div(b@, t + 1);
        lemma_le_top(a@, t as int);
        lemma_le_top(b@, t as int);
        assert(pow10((t + 1) as nat) == 10 * p);
    }
    let ghost big = le_value(a@.subrange(t + 1, a@.len() as int));
    proof {
        assert(a@[t as int] < 10 && b@[t as int] < 10);
        // The digit at t decides the order of A and B.
        vstd::arithmetic::div_mod::lemma_div_is_ordered(av as int, bv as int, p as int);
        assert(a@[t as int] < b@[t as int]);
        // B - A < 10p, so the quotient by p is bounded.
        lemma_width(av, bv, p, ghost_bound@);
        vstd::arithmetic::div_mod::lemma_div_is_ordered(vv as int, bv as int, p as int);
        vstd::arithmetic::div_mod::lemma_div_is_ordered(av as int, vv as int, p as int);
    }
    let w = read_u64(val, t);
    let qa = read_u64(a, t) + 1;
    let qb = read_u64(b, t);
    let ghost rem = le_value(val@.subrange(0, t as int));
    let mut up = false;
    if t > 0 {
        let d = val[t - 1];
        let mut nonzero = false;
        let mut j: usize = 0;
        while j < t - 1
            invariant
                j <= t - 1,
                t - 1 < val@.len(),
                nonzero == exists|k: int| 0 <= k < j && val@[k] != 0,
            decreases t - 1 - j,
        {
            if val[j] != 0 {
                nonzero = true;
            }
            j += 1;
        }
        proof {
            lemma_half_digit_pub(val@, t as int, nonzero);
        }
        up = d > 5 || (d == 5 && (nonzero || w % 2 == 1));
    }
    proof {
        if t == 0 {
            assert(p == 1);
            assert(rem == vv % 1);
        }
        assert(up == (2 * rem > p || (2 * rem == p && w % 2 == 1)));
        assert(vv == w * p + rem) by {
            vstd::arithmetic::div_mod::lemma_fundamental_div_mod(vv as int, p as int);
            assert(p * w == w * p) by (nonlinear_arith);
        }
    }
    let cand: u64 = if up { w + 1 } else { w };
    let q: u64 = if cand < qa { qa } else if cand > qb { qb } else { cand };
    proof {
        let qv = q as nat;
        let tn = t as nat;
        lemma_pick_range(av, bv, p, qa as nat, qb as nat, qv);
        assert(qv % 10 != 0);
        assert forall|c: nat| !(av < #[trigger] (c * pow10(tn + 1)) && c * pow10(tn + 1) <= bv) by {
            lemma_no_multiple(av, bv, pow10(tn + 1), c);
        }
        assert forall|c: nat| av < #[trigger] (c * pow10(tn)) && c * pow10(tn) <= bv implies
            gap(qv * pow10(tn), vv) <= gap(c * pow10(tn), vv)
            && (c != qv && gap(qv * pow10(tn), vv) == gap(c * pow10(tn), vv) ==> qv % 2 == 0) by {
            lemma_multiplier_range(av, bv, p, c);
            lemma_pick_nearest(vv, p, w as nat, rem, cand as nat, qa as nat, qb as nat, qv, c);
        }
    }
    (q, t)
}

} // verus!

verus! {

proof fn lemma_pow2_33(j: nat)
    requires
        j >= 1,
    ensures
        pow2(33 * j) < pow10(10 * j),
    decreases j,
{
    vstd::arithmetic::power2::lemma2_to64();
    vstd::arithmetic::power2::lemma2_to64_rest();
    reveal_with_fuel(pow10, 11);
    assert(pow10(10) == 10000000000);
    if j > 1 {
        lemma_pow2_33((j - 1) as nat);
        vstd::arithmetic::power2::lemma_pow2_adds(33 * (j - 1) as nat, 33);
        crate::pretty::to_fixed::decimal::lemma_pow10_adds(10 * (j - 1) as nat, 10);
        assert(33 * (j - 1) as nat + 33 == 33 * j);
        assert(10 * (j - 1) as nat + 10 == 10 * j);
        let a = pow2(33 * (j - 1) as nat);
        let b = pow10(10 * (j - 1) as nat);
        assert(a * pow2(33) < b * pow10(10)) by (nonlinear_arith)
            requires a < b, pow2(33) < pow10(10), a >= 0;
    }
}

/// `10^t` fits below the upper end of the interval, which bounds `t`.
proof fn lemma_t_bound(mp: nat, k: nat, nonneg: bool, tn: nat)
    requires
        mp < 0x0080_0000_0000_0000,
        pow10(tn) <= mp * (if nonneg { pow2(k) } else { pow5(k) }),
        nonneg ==> k <= 970,
    ensures
        nonneg ==> tn < 320,
        !nonneg ==> tn < 17 + k,
{
    vstd::arithmetic::power2::lemma2_to64();
    vstd::arithmetic::power2::lemma2_to64_rest();
    if nonneg {
        let s = pow2(k);
        vstd::arithmetic::power2::lemma_pow2_pos(k);
        vstd::arithmetic::power2::lemma_pow2_adds(k, 55);
        vstd::arithmetic::power2::lemma_pow2_strictly_increases(k + 55, 1056);
        lemma_pow2_33(32);
        assert(pow2(55) == 0x0080_0000_0000_0000);
        assert(mp * s < pow2(55) * s) by (nonlinear_arith)
            requires mp < pow2(55), s >= 1;
        lemma_pow10_lt(tn, 320);
    } else {
        let s = pow5(k);
        lemma_pow5_pos(k);
        crate::pretty::to_fixed::decimal::lemma_pow10_split(k);
        crate::pretty::to_fixed::decimal::lemma_pow10_adds(17, k);
        vstd::arithmetic::power2::lemma_pow2_pos(k);
        reveal_with_fuel(pow10, 18);
        assert(pow10(17) == 100000000000000000);
        let t2 = pow2(k);
        let big = pow10(17);
        assert(mp * s < big * s) by (nonlinear_arith)
            requires s >= 1, mp < 0x0080_0000_0000_0000, big == 100000000000000000;
        assert(big * s <= big * (t2 * s)) by (nonlinear_arith)
            requires t2 >= 1, big >= 0, s >= 0;
        assert(pow10(17 + k) == big * (t2 * s)) by (nonlinear_arith)
            requires pow10(17 + k) == big * pow10(k), pow10(k) == t2 * s;
        lemma_pow10_lt(tn, 17 + k);
    }
}

/// The width `(mp - mm) * s` of the interval is at most `10^(t+1)`.
proof fn lemma_width_bound(q: nat, p: nat, s: nat, mp: nat, mm: nat, av: nat, bv: nat)
    requires
        q * p <= bv,
        bv <= mp * s,
        bv - av < 10 * p,
        bv - av + 1 >= (mp - mm) * s,
        mm < mp,
        s >= 1,
        p >= 1,
    ensures
        q * (mp - mm) <= 10 * mp,
{
    let w = (mp - mm) as nat;
    assert(w * s <= 10 * p);
    lemma_mantissa_bound(q, p, s, mp, w, bv);
}

/// From `q * (3 + mm_shift) <= 10 * (4 * m2 + 2)`: at most 17 digits for
/// binary64, 9 for binary32.
proof fn lemma_q_bound(fmt: FloatFormat, q: nat, m2: nat, mm_shift: nat, ieee_mantissa: nat, ieee_exponent: nat)
    requires
        q * (3 + mm_shift) <= 10 * (4 * m2 + 2),
        mm_shift == mm_shift_of(ieee_mantissa, ieee_exponent),
        m2 == binary_m2(fmt, ieee_mantissa, ieee_exponent),
        ieee_mantissa < pow2(fmt.mantissa_bits_spec()),
    ensures
        fmt == FloatFormat::Binary64 ==> q < 100000000000000000,
        fmt == FloatFormat::Binary32 ==> q < 1000000000,
{
    vstd::arithmetic::power2::lemma2_to64();
    vstd::arithmetic::power2::lemma2_to64_rest();
    if mm_shift == 0 {
        assert(q * (3 + mm_shift) == 3 * q) by (nonlinear_arith) requires mm_shift == 0;
    } else {
        assert(mm_shift == 1);
        assert(q * (3 + mm_shift) == 4 * q) by (nonlinear_arith) requires mm_shift == 1;
    }
    if fmt == FloatFormat::Binary64 {
        assert(m2 < 0x20_0000_0000_0000);
        if mm_shift == 0 {
            assert(m2 == 0x10_0000_0000_0000);
        }
    } else {
        assert(m2 < 0x100_0000);
    }
}

/// `q * 10^t <= B <= mp * s` and a width `w * s <= 10^(t+1)` give `q * w <= 10 * mp`.
proof fn lemma_mantissa_bound(q: nat, p: nat, s: nat, mp: nat, w: nat, bv: nat)
    requires
        q * p <= bv,
        bv <= mp * s,
        w * s <= 10 * p,
        s >= 1,
        p >= 1,
    ensures
        q * w <= 10 * mp,
{
    assert(q * w * s <= q * (10 * p)) by (nonlinear_arith)
        requires w * s <= 10 * p;
    assert(q * (10 * p) <= 10 * mp * s) by (nonlinear_arith)
        requires q * p <= bv, bv <= mp * s;
    assert(q * w <= 10 * mp) by (nonlinear_arith)
        requires q * w * s <= 10 * mp * s, s >= 1;
}

/// `q` has `decimal_len(q)` digits: `10^(len - 1) <= q < 10^len`.
pub proof fn lemma_len_pow(q: nat)
    requires
        q >= 1,
    ensures
        pow10((decimal_len(q) - 1) as nat) <= q < pow10(decimal_len(q)),
        decimal_len(q) >= 1,
    decreases q,
{
    if q < 10 {
        reveal_with_fuel(pow10, 2);
    } else {
        lemma_len_pow(q / 10);
        let l = decimal_len(q / 10);
        assert(decimal_len(q) == 1 + l);
        assert(pow10(l) == 10 * pow10((l - 1) as nat));
        assert(pow10(l + 1) == 10 * pow10(l));
    }
}

/// `5^(2j) >= 10^j`.
proof fn lemma_pow5_half(j: nat)
    ensures
        pow5(2 * j) >= pow10(j),
    decreases j,
{
    if j > 0 {
        lemma_pow5_half((j - 1) as nat);
        assert(pow5(2 * j) == 25 * pow5(2 * (j - 1) as nat)) by {
            reveal_with_fuel(pow5, 3);
            assert(pow5(2 * j) == 5 * pow5((2 * j - 1) as nat));
            assert(pow5((2 * j - 1) as nat) == 5 * pow5((2 * j - 2) as nat));
            assert((2 * j - 2) as nat == 2 * (j - 1) as nat);
        }
    }
}

/// The decimal exponent of the leading digit, `P = exponent + digits - 1`,
/// from `10^P <= q * 10^t <= B <= mp * s` and `q * 10^t > A >= lo - 1`.
proof fn lemma_printed_bounds(small: bool, nonneg: bool, q: nat, tn: nat, k: nat, mp: nat, mm: nat, av: nat, bv: nat)
    requires
        q >= 1,
        av < q * pow10(tn) <= bv,
        bv <= mp * (if nonneg { pow2(k) } else { pow5(k) }),
        av + 1 >= mm * (if nonneg { pow2(k) } else { pow5(k) }),
        mm >= 1,
        mp < 0x0080_0000_0000_0000,
        small ==> mp < 0x400_0000,
        nonneg ==> k <= 970,
        nonneg && small ==> k <= 103,
        !nonneg ==> 1 <= k <= 1076,
        !nonneg && small ==> k <= 151,
    ensures
        ({
            let e: int = if nonneg { tn as int } else { tn - k };
            let pe = e + decimal_len(q) - 1;
            &&& small ==> -99 <= pe <= 99
            &&& -999 <= pe <= 999
        }),
{
    lemma_len_pow(q);
    let len = decimal_len(q);
    let u = (tn + len - 1) as nat;
    crate::pretty::to_fixed::decimal::lemma_pow10_adds((len - 1) as nat, tn);
    crate::pretty::to_fixed::decimal::lemma_pow10_adds(len, tn);
    lemma_pow10_pos(tn);
    assert(pow10(u) <= q * pow10(tn)) by (nonlinear_arith)
        requires pow10(u) == pow10((len - 1) as nat) * pow10(tn), pow10((len - 1) as nat) <= q;
    assert(q * pow10(tn) < pow10(len + tn)) by (nonlinear_arith)
        requires pow10(len + tn) == pow10(len) * pow10(tn), q < pow10(len), pow10(tn) >= 1;
    lemma_t_bound(mp, k, nonneg, u);
    if nonneg && small {
        vstd::arithmetic::power2::lemma2_to64();
        vstd::arithmetic::power2::lemma_pow2_pos(k);
        vstd::arithmetic::power2::lemma_pow2_adds(k, 26);
        vstd::arithmetic::power2::lemma_pow2_strictly_increases(k + 26, 132);
        lemma_pow2_33(4);
        assert(mp * pow2(k) < pow2(26) * pow2(k)) by (nonlinear_arith)
            requires mp < pow2(26), pow2(k) >= 1;
        lemma_pow10_lt(u, 40);
    }
    if !nonneg {
        let h = k / 2;
        lemma_pow5_half(h);
        lemma_pow5_pos(k);
        crate::pretty::to_fixed::decimal::lemma_pow10_split(k);
        if 2 * h < k {
            assert(pow5(k) == 5 * pow5(2 * h)) by {
                assert(k == 2 * h + 1);
            }
        }
        assert(pow5(k) >= pow5(2 * h));
        assert(mm * pow5(k) >= pow5(k)) by (nonlinear_arith) requires mm >= 1, pow5(k) >= 0;
        lemma_pow10_lt(h, len + tn);
        if small {
            vstd::arithmetic::power2::lemma2_to64();
            lemma_t_bound(mp, k, nonneg, u);
        }
    }
}

/// `10^a < 10^b` forces `a < b`.
proof fn lemma_pow10_lt(a: nat, b: nat)
    requires
        pow10(a) < pow10(b),
    ensures
        a < b,
{
    if a >= b {
        crate::pretty::to_fixed::decimal::lemma_pow10_le(b, a);
    }
}

/// The exact shortest-decimal generator: the decimal `q * 10^exponent` with
/// the fewest digits that rounds to the non-zero finite float with fields
/// `ieee_mantissa` and `ieee_exponent`, nearest to it, ties to even.
#[verifier::rlimit(60)]
pub fn generate(fmt: FloatFormat, ieee_mantissa: u64, ieee_exponent: u32) -> (r: (u64, i32))
    requires
        ieee_mantissa < pow2(fmt.mantissa_bits_spec()),
        ieee_exponent < pow2(fmt.exponent_bits_spec()),
        ieee_mantissa != 0 || ieee_exponent != 0,
    ensures
        ({
            let iv = rounding_interval(fmt, ieee_mantissa as nat, ieee_exponent as nat);
            &&& r.1 >= iv.exp
            &&& is_shortest(iv, r.0 as nat, (r.1 - iv.exp) as nat)
        }),
        -1100 < r.1 < 320,
        r.0 >= 1,
        fmt == FloatFormat::Binary64 ==> r.0 < 100000000000000000,
        fmt == FloatFormat::Binary32 ==> r.0 < 1000000000,
        -999 <= r.1 + decimal_len(r.0 as nat) - 1 <= 999,
        fmt == FloatFormat::Binary32 ==> -99 <= r.1 + decimal_len(r.0 as nat) - 1 <= 99,
{
    proof {
        vstd::arithmetic::power2::lemma2_to64();
        vstd::arithmetic::power2::lemma2_to64_rest();
    }
    let mantissa_bits = fmt.mantissa_bits();
    let bias = fmt.bias();
    let e2: i32;
    let m2: u64;
    if ieee_exponent == 0 {
        e2 = 1 - bias - mantissa_bits as i32 - 2;
        m2 = ieee_mantissa;
    } else {
        e2 = ieee_exponent as i32 - bias - mantissa_bits as i32 - 2;
        m2 = fmt.hidden_bit() + ieee_mantissa;
    }
    let mm_shift: u64 = if ieee_mantissa != 0 || ieee_exponent <= 1 { 1 } else { 0 };
    let mv = 4 * m2;
    let mm = mv - 1 - mm_shift;
    let mp = mv + 2;
    let accept = m2 % 2 == 0;
    let c: u8 = if e2 >= 0 { 2 } else { 5 };
    let k: u32 = if e2 >= 0 { e2 as u32 } else { (-e2) as u32 };
    let ghost iv = rounding_interval(fmt, ieee_mantissa as nat, ieee_exponent as nat);
    let ghost s = unit_scale(e2 as int);
    proof {
        assert(binary_m2(fmt, ieee_mantissa as nat, ieee_exponent as nat) == m2);
        assert(binary_e2(fmt, ieee_exponent as nat) == e2);
        assert(s == if c == 2 { pow2(k as nat) } else { pow5(k as nat) });
        vstd::arithmetic::power2::lemma_pow2_pos(k as nat);
        lemma_pow5_pos(k as nat);
        assert(s >= 1);
    }
    let lo = times_power(mm, c, k);
    let val = times_power(mv, c, k);
    let hi = times_power(mp, c, k);
    proof {
        assert(le_value(lo@) == iv.lo);
        assert(le_value(val@) == iv.value);
        assert(le_value(hi@) == iv.hi);
        assert(mm * s >= 1) by (nonlinear_arith) requires mm >= 1, s >= 1;
        assert(mm * s < mv * s) by (nonlinear_arith) requires mm < mv, s >= 1;
        assert(mv * s < mp * s) by (nonlinear_arith) requires mv < mp, s >= 1;
        assert((mp - mm) * s >= 3 * s) by (nonlinear_arith) requires mp - mm >= 3, s >= 1;
        assert(mp * s - mm * s == (mp - mm) * s) by (nonlinear_arith);
    }
    let mut a = lo;
    if accept {
        a = dec_one(&a);
    }
    let mut b = hi;
    if !accept {
        b = dec_one(&b);
    }
    let mut v = val;
    let mut n = a.len();
    if b.len() > n {
        n = b.len();
    }
    if v.len() > n {
        n = v.len();
    }
    pad_to(&mut a, n);
    pad_to(&mut b, n);
    pad_to(&mut v, n);
    let ghost av = le_value(a@);
    let ghost bv = le_value(b@);
    let ghost g: nat = (mp * s) as nat;
    proof {
        assert(forall|x: nat| within(iv, x) <==> (av < x && x <= bv));
        assert(g < 0x0400_0000_0000_0000 * (bv - av)) by (nonlinear_arith)
            requires g == mp * s, bv - av >= 2 * s, mp < 0x0200_0000_0000_0000, s >= 1;
    }
    let (q, t) = pick(&a, &v, &b, Ghost(g));
    let ghost tn = t as nat;
    proof {
        // Bounding t through 10^t <= q * 10^t <= B <= mp * s.
        lemma_pow10_pos(tn);
        assert(pow10(tn) <= q * pow10(tn)) by (nonlinear_arith) requires q >= 1;
        assert(pow10(tn) <= mp * s);
        lemma_t_bound(mp as nat, k as nat, e2 >= 0, tn);
        // The mantissa: q (mp - mm) <= 10 mp, since 10^(t+1) exceeds the width.
        lemma_width_bound(q as nat, pow10(tn), s, mp as nat, mm as nat, av, bv);
        lemma_q_bound(fmt, q as nat, m2 as nat, mm_shift as nat, ieee_mantissa as nat, ieee_exponent as nat);
        lemma_printed_bounds(fmt == FloatFormat::Binary32, e2 >= 0, q as nat, tn, k as nat, mp as nat, mm as nat, av, bv);
        assert(forall|x: nat| within(iv, x) <==> (av < x && x <= bv));
    }
    let exponent: i32 = if e2 >= 0 { t as i32 } else { e2 + t as i32 };
    proof {
        assert(exponent - iv.exp == tn);
    }
    (q, exponent)
}

} // verus!

verus! {

/// Only one decimal has the properties of `is_shortest`.
pub proof fn lemma_shortest_unique(iv: RoundingInterval, q1: nat, t1: nat, q2: nat, t2: nat)
    requires
        is_shortest(iv, q1, t1),
        is_shortest(iv, q2, t2),
    ensures
        q1 == q2 && t1 == t2,
{
    if t1 < t2 {
        lemma_coarser(iv, q1, t1, q2, t2);
    } else if t2 < t1 {
        lemma_coarser(iv, q2, t2, q1, t1);
    } else {
        if q1 < q2 {
            lemma_same_exponent(iv, q1, q2, t1);
        } else if q2 < q1 {
            lemma_same_exponent(iv, q2, q1, t1);
        }
    }
}

/// Past the exponent of a shortest decimal, nothing rounds to the float.
proof fn lemma_coarser(iv: RoundingInterval, q1: nat, t1: nat, q2: nat, t2: nat)
    requires
        is_shortest(iv, q1, t1),
        t1 < t2,
    ensures
        !within(iv, q2 * pow10(t2)),
{
    let d = (t2 - t1 - 1) as nat;
    crate::pretty::to_fixed::decimal::lemma_pow10_adds(d, t1 + 1);
    assert(d + (t1 + 1) == t2);
    let c = q2 * pow10(d);
    assert(q2 * pow10(t2) == c * pow10(t1 + 1)) by (nonlinear_arith)
        requires pow10(t2) == pow10(d) * pow10(t1 + 1), c == q2 * pow10(d);
    assert(!within(iv, c * pow10(t1 + 1)));
}

/// Two decimals with one exponent cannot both be the nearest, ties to even.
proof fn lemma_same_exponent(iv: RoundingInterval, q1: nat, q2: nat, t: nat)
    requires
        is_shortest(iv, q1, t),
        q1 < q2,
    ensures
        !is_shortest(iv, q2, t),
{
    if is_shortest(iv, q2, t) {
        lemma_same_exponent_tie(iv, q1, q2, t);
    }
}

proof fn lemma_same_exponent_tie(iv: RoundingInterval, q1: nat, q2: nat, t: nat)
    requires
        is_shortest(iv, q1, t),
        is_shortest(iv, q2, t),
        q1 < q2,
    ensures
        q1 == q2,
{
    let p = pow10(t);
    lemma_pow10_pos(t);
    let x1 = q1 * p;
    let x2 = q2 * p;
    assert(within(iv, x2));
    assert(gap(x1, iv.value) == gap(x2, iv.value));
    assert(q1 % 2 == 0 && q2 % 2 == 0);
    let c = q1 + 1;
    let xc = c * p;
    assert(xc == x1 + p) by (nonlinear_arith) requires xc == (q1 + 1) * p, x1 == q1 * p;
    if c == q2 {
        assert(false);
    } else {
        assert(x2 >= xc + p) by (nonlinear_arith) requires x2 == q2 * p, xc == c * p, q2 >= c + 1;
        assert(within(iv, xc));
        assert(gap(x1, iv.value) <= gap(xc, iv.value));
    }
}

} // verus!

verus! {

/// Shortest-ness in digits: no decimal `c * 10^(iv.exp + j)` with fewer
/// digits than `q` rounds to the float.
pub proof fn lemma_fewest_digits(iv: RoundingInterval, q: nat, t: nat, c: nat, j: nat)
    requires
        is_shortest(iv, q, t),
        c >= 1,
        within(iv, c * pow10(j)),
    ensures
        decimal_len(c) >= decimal_len(q),
{
    if decimal_len(c) < decimal_len(q) {
        if j > t {
            lemma_coarser(iv, q, t, c, j);
        } else {
            lemma_len_pow(c);
            lemma_len_pow(q);
            lemma_pow10_pos(j);
            lemma_pow10_pos(t);
            let lc = decimal_len(c);
            let lq = decimal_len(q);
            assert(lq >= 2);
            let y = (lq - 1 + t) as nat;
            // c * 10^j < 10^(lc + j) <= 10^y <= q * 10^t.
            crate::pretty::to_fixed::decimal::lemma_pow10_adds(lc, j);
            crate::pretty::to_fixed::decimal::lemma_pow10_adds((lq - 1) as nat, t);
            assert(c * pow10(j) < pow10(lc + j)) by (nonlinear_arith)
                requires c < pow10(lc), pow10(j) >= 1, pow10(lc + j) == pow10(lc) * pow10(j);
            crate::pretty::to_fixed::decimal::lemma_pow10_le(lc + j, y);
            assert(pow10(y) <= q * pow10(t)) by (nonlinear_arith)
                requires pow10(y) == pow10((lq - 1) as nat) * pow10(t), pow10((lq - 1) as nat) <= q, pow10(t) >= 1;
            assert(within(iv, pow10(y)));
            // 10^y is a multiple of 10^(t + 1).
            crate::pretty::to_fixed::decimal::lemma_pow10_adds((lq - 2) as nat, t + 1);
            assert((lq - 2) as nat + (t + 1) == y);
            let m = pow10((lq - 2) as nat);
            assert(pow10(y) == m * pow10(t + 1));
            assert(!within(iv, m * pow10(t + 1)));
        }
    }
}

} // verus!
