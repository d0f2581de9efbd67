use vstd::prelude::*;
use vstd::arithmetic::power2::pow2;
use crate::common::pow10;

verus! {

/// Decimal digits stored least significant first, read as a number.
pub open spec fn le_value(s: Seq<u8>) -> nat
    decreases s.len(),
{
    if s.len() == 0 {
        0
    } else {
        (s[0] + 10 * le_value(s.drop_first())) as nat
    }
}

/// Every entry is a decimal digit value.
pub open spec fn small_digits(s: Seq<u8>) -> bool {
    forall|i: int| 0 <= i < s.len() ==> #[trigger] s[i] < 10
}

/// `5^n`.
pub open spec fn pow5(n: nat) -> nat
    decreases n,
{
    if n == 0 {
        1
    } else {
        5 * pow5((n - 1) as nat)
    }
}

/// An empty vector reads as zero; one digit reads as itself.
pub proof fn lemma_le_short(s: Seq<u8>)
    ensures
        s.len() == 0 ==> le_value(s) == 0,
        s.len() == 1 ==> le_value(s) == s[0],
{
    reveal_with_fuel(le_value, 2);
    if s.len() == 1 {
        assert(s.drop_first().len() == 0);
    }
}

/// Splitting a digit vector at `i` splits its value at `10^i`.
pub proof fn lemma_le_split(s: Seq<u8>, i: int)
    requires
        0 <= i <= s.len(),
    ensures
        le_value(s) == le_value(s.subrange(0, i)) + pow10(i as nat) * le_value(s.subrange(i, s.len() as int)),
    decreases i,
{
    if i == 0 {
        assert(s.subrange(0, 0) =~= Seq::<u8>::empty());
        assert(s.subrange(0, s.len() as int) =~= s);
        assert(pow10(0) == 1);
        lemma_le_short(s.subrange(0, 0));
        assert(pow10(0) * le_value(s) == le_value(s));
    } else {
        let t = s.drop_first();
        lemma_le_split(t, i - 1);
        let a = le_value(t.subrange(0, i - 1));
        let b = le_value(t.subrange(i - 1, t.len() as int));
        let p = pow10((i - 1) as nat);
        assert(t.subrange(i - 1, t.len() as int) =~= s.subrange(i, s.len() as int));
        assert(s.subrange(0, i).drop_first() =~= t.subrange(0, i - 1));
        assert(s.subrange(0, i)[0] == s[0]);
        assert(le_value(s.subrange(0, i)) == s[0] + 10 * a);
        assert(pow10(i as nat) == 10 * p);
        assert(le_value(s) == s[0] + 10 * (a + p * b));
        assert(10 * (a + p * b) == 10 * a + (10 * p) * b) by (nonlinear_arith);
    }
}

/// A digit pushed on top adds its value times `10^len`.
pub proof fn lemma_le_push(s: Seq<u8>, x: u8)
    ensures
        le_value(s.push(x)) == le_value(s) + x * pow10(s.len()),
{
    let t = s.push(x);
    lemma_le_split(t, s.len() as int);
    assert(t.subrange(0, s.len() as int) =~= s);
    let top = t.subrange(s.len() as int, t.len() as int);
    assert(top.drop_first() =~= Seq::<u8>::empty());
    assert(top[0] == x);
    lemma_le_short(top);
    assert(le_value(top) == x);
    assert(pow10(s.len()) * le_value(top) == x * pow10(s.len())) by (nonlinear_arith)
        requires le_value(top) == x;
}

/// Digits below ten make a value below `10^len`.
pub proof fn lemma_le_bound(s: Seq<u8>)
    requires
        small_digits(s),
    ensures
        le_value(s) < pow10(s.len()),
    decreases s.len(),
{
    lemma_le_short(s);
    if s.len() > 0 {
        let t = s.drop_first();
        assert(small_digits(t)) by {
            assert forall|i: int| 0 <= i < t.len() implies #[trigger] t[i] < 10 by {
                assert(t[i] == s[i + 1]);
            }
        }
        lemma_le_bound(t);
        assert(s[0] < 10);
        assert(pow10(s.len()) == 10 * pow10(t.len()));
    } else {
        assert(pow10(0) == 1);
    }
}

/// Zeros read as zero.
pub proof fn lemma_le_zeros(n: nat)
    ensures
        le_value(Seq::new(n, |i: int| 0u8)) == 0,
    decreases n,
{
    lemma_le_short(Seq::new(n, |i: int| 0u8));
    if n > 0 {
        lemma_le_zeros((n - 1) as nat);
        assert(Seq::new(n, |i: int| 0u8).drop_first() =~= Seq::new((n - 1) as nat, |i: int| 0u8));
    }
}

/// The decimal digits of `v`, least significant first (none for zero).
pub fn digits_le(v: u64) -> (r: Vec<u8>)
    ensures
        le_value(r@) == v,
        small_digits(r@),
{
    let ghost v0 = v as nat;
    let mut out: Vec<u8> = Vec::new();
    let mut v: u64 = v;
    assert(pow10(0) == 1);
    proof {
        lemma_le_short(out@);
        let one = pow10(out@.len());
        assert(one * v == v) by (nonlinear_arith)
            requires one == 1;
    }
    while v > 0
        invariant
            le_value(out@) + pow10(out@.len()) * v == v0,
            small_digits(out@),
        decreases v,
    {
        let ghost before = out@;
        let ghost p = pow10(before.len());
        out.push((v % 10) as u8);
        proof {
            lemma_le_push(before, (v % 10) as u8);
            assert(pow10(out@.len()) == 10 * p);
            assert(p * v == (v % 10) as nat * p + (10 * p) * (v / 10) as nat) by (nonlinear_arith)
                requires v as nat == 10 * (v / 10) as nat + (v % 10) as nat;
        }
        v = v / 10;
    }
    out
}

/// `c` times the digit vector `l`, for `1 <= c <= 2^31`.
pub fn mul_small(l: &Vec<u8>, c: u64) -> (r: Vec<u8>)
    requires
        small_digits(l@),
        1 <= c <= 0x8000_0000,
    ensures
        le_value(r@) == c * le_value(l@),
        small_digits(r@),
{
    let mut out: Vec<u8> = Vec::new();
    let mut carry: u64 = 0;
    let mut i: usize = 0;
    assert(pow10(0) == 1);
    assert(l@.subrange(0, 0) =~= Seq::<u8>::empty());
    proof {
        lemma_le_short(out@);
        lemma_le_short(l@.subrange(0, 0));
    }
    while i < l.len()
        invariant
            i <= l@.len(),
            out@.len() == i,
            carry < c,
            1 <= c <= 0x8000_0000,
            small_digits(l@),
            small_digits(out@),
            le_value(out@) + pow10(i as nat) * carry == c * le_value(l@.subrange(0, i as int)),
        decreases l@.len() - i,
    {
        let ghost before = out@;
        let ghost p = pow10(i as nat);
        assert(l@[i as int] < 10);
        assert(l@[i as int] * c <= 9 * c) by (nonlinear_arith)
            requires l@[i as int] < 10, c >= 1;
        let t: u64 = l[i] as u64 * c + carry;
        out.push((t % 10) as u8);
        proof {
            lemma_le_push(before, (t % 10) as u8);
            lemma_le_push(l@.subrange(0, i as int), l@[i as int]);
            assert(l@.subrange(0, i as int).push(l@[i as int]) =~= l@.subrange(0, i + 1));
            assert(pow10((i + 1) as nat) == 10 * p);
            assert((t % 10) as nat * p + (10 * p) * (t / 10) as nat == p * t) by (nonlinear_arith)
                requires t as nat == 10 * (t / 10) as nat + (t % 10) as nat;
            assert(p * t == c * (l@[i as int] * p) + p * carry) by (nonlinear_arith)
                requires t == l@[i as int] * c + carry;
            let a = le_value(l@.subrange(0, i as int));
            let a1 = le_value(l@.subrange(0, i + 1));
            assert(a1 == a + l@[i as int] * p);
            assert(c * a1 == c * a + c * (l@[i as int] * p)) by (nonlinear_arith)
                requires a1 == a + l@[i as int] * p;
            assert(le_value(out@) + (10 * p) * (t / 10) as nat == c * a1);
        }
        carry = t / 10;
        i += 1;
    }
    assert(l@.subrange(0, l@.len() as int) =~= l@);
    while carry > 0
        invariant
            small_digits(out@),
            le_value(out@) + pow10(out@.len()) * carry == c * le_value(l@),
        decreases carry,
    {
        let ghost before = out@;
        let ghost p = pow10(before.len());
        out.push((carry % 10) as u8);
        proof {
            lemma_le_push(before, (carry % 10) as u8);
            assert(pow10(out@.len()) == 10 * p);
            assert(p * carry == (carry % 10) as nat * p + (10 * p) * (carry / 10) as nat) by (nonlinear_arith)
                requires carry as nat == 10 * (carry / 10) as nat + (carry % 10) as nat;
        }
        carry = carry / 10;
    }
    assert(pow10(out@.len()) * carry == 0) by (nonlinear_arith)
        requires carry == 0;
    out
}

} // verus!

verus! {

/// The `toFixed` digits of `m2 * 2^e2` with `d` fraction digits, read as one
/// integer: `m2 * 2^e2 * 10^d` rounded half up.
pub open spec fn fixed_value(m2: nat, e2: int, d: nat) -> nat {
    if e2 >= 0 {
        m2 * pow2(e2 as nat) * pow10(d)
    } else {
        (2 * m2 * pow10(d) + pow2((-e2) as nat)) / pow2((1 - e2) as nat)
    }
}

/// `10^n == 2^n * 5^n`.
pub proof fn lemma_pow10_split(n: nat)
    ensures
        pow10(n) == pow2(n) * pow5(n),
    decreases n,
{
    if n == 0 {
        vstd::arithmetic::power2::lemma2_to64();
        assert(pow10(0) == 1);
    } else {
        lemma_pow10_split((n - 1) as nat);
        vstd::arithmetic::power2::lemma_pow2_unfold(n);
        let a = pow2((n - 1) as nat);
        let b = pow5((n - 1) as nat);
        assert(10 * (a * b) == (2 * a) * (5 * b)) by (nonlinear_arith);
    }
}

/// `10^(a + b) == 10^a * 10^b`.
pub proof fn lemma_pow10_adds(a: nat, b: nat)
    ensures
        pow10(a + b) == pow10(a) * pow10(b),
    decreases a,
{
    if a == 0 {
        assert(pow10(0) == 1);
    } else {
        lemma_pow10_adds((a - 1) as nat, b);
        assert(pow10(a + b) == 10 * pow10((a - 1 + b) as nat));
        let x = pow10((a - 1) as nat);
        assert(10 * (x * pow10(b)) == (10 * x) * pow10(b)) by (nonlinear_arith);
    }
}

pub proof fn lemma_pow10_pos(n: nat)
    ensures
        pow10(n) >= 1,
    decreases n,
{
    if n > 0 {
        lemma_pow10_pos((n - 1) as nat);
    }
}

pub proof fn lemma_pow10_le(a: nat, b: nat)
    requires
        a <= b,
    ensures
        pow10(a) <= pow10(b),
    decreases b,
{
    if a < b {
        lemma_pow10_le(a, (b - 1) as nat);
        lemma_pow10_pos((b - 1) as nat);
    }
}

pub proof fn lemma_pow5_pos(n: nat)
    ensures
        pow5(n) >= 1,
    decreases n,
{
    if n > 0 {
        lemma_pow5_pos((n - 1) as nat);
    }
}

/// A non-zero digit at `i` makes the value at least `10^i`.
pub proof fn lemma_le_at_least(s: Seq<u8>, i: int)
    requires
        0 <= i < s.len(),
        s[i] >= 1,
    ensures
        le_value(s) >= pow10(i as nat),
{
    lemma_le_split(s, i);
    let t = s.subrange(i, s.len() as int);
    assert(t[0] == s[i]);
    assert(le_value(t) >= 1);
    let p = pow10(i as nat);
    assert(p * le_value(t) >= p) by (nonlinear_arith)
        requires le_value(t) >= 1, p >= 0;
}

/// Appending zeros on top keeps the value.
pub fn pad_to(l: &mut Vec<u8>, n: usize)
    requires
        small_digits(old(l)@),
    ensures
        le_value(final(l)@) == le_value(old(l)@),
        small_digits(final(l)@),
        final(l)@.len() >= n,
        final(l)@.len() >= old(l)@.len(),
        old(l)@.len() <= n ==> final(l)@.len() == n,
{
    while l.len() < n
        invariant
            le_value(l@) == le_value(old(l)@),
            small_digits(l@),
            l@.len() >= old(l)@.len(),
            old(l)@.len() <= n ==> l@.len() <= n,
        decreases n - l@.len(),
    {
        let ghost before = l@;
        l.push(0);
        proof {
            lemma_le_push(before, 0);
        }
    }
}

/// The digits of `10^k * l`: `k` zeros below `l`.
pub fn shift_up(l: &Vec<u8>, k: usize) -> (r: Vec<u8>)
    requires
        small_digits(l@),
    ensures
        le_value(r@) == pow10(k as nat) * le_value(l@),
        small_digits(r@),
        r@.len() == k + l@.len(),
{
    let mut out: Vec<u8> = Vec::new();
    let mut i: usize = 0;
    while i < k
        invariant
            i <= k,
            out@ =~= Seq::new(i as nat, |j: int| 0u8),
        decreases k - i,
    {
        out.push(0);
        i += 1;
    }
    let mut j: usize = 0;
    while j < l.len()
        invariant
            j <= l@.len(),
            out@ =~= Seq::new(k as nat, |x: int| 0u8) + l@.subrange(0, j as int),
        decreases l@.len() - j,
    {
        out.push(l[j]);
        j += 1;
    }
    proof {
        assert(l@.subrange(0, l@.len() as int) =~= l@);
        lemma_le_split(out@, k as int);
        assert(out@.subrange(0, k as int) =~= Seq::new(k as nat, |x: int| 0u8));
        assert(out@.subrange(k as int, out@.len() as int) =~= l@);
        lemma_le_zeros(k as nat);
        assert forall|x: int| 0 <= x < out@.len() implies #[trigger] out@[x] < 10 by {
            if x >= k {
                assert(out@[x] == l@[x - k]);
            }
        }
    }
    out
}

proof fn lemma_pow5_adds(a: nat, b: nat)
    ensures
        pow5(a + b) == pow5(a) * pow5(b),
    decreases a,
{
    if a > 0 {
        lemma_pow5_adds((a - 1) as nat, b);
        assert(pow5(a + b) == 5 * pow5((a - 1 + b) as nat));
        let x = pow5((a - 1) as nat);
        assert(5 * (x * pow5(b)) == (5 * x) * pow5(b)) by (nonlinear_arith);
    } else {
        assert(pow5(0) == 1);
        assert(a + b == b);
    }
}

/// The digits of `m2`, times `2^e` or `5^e`; the factor is applied in
/// chunks of up to `2^30` or `5^13`.
pub fn times_power(m2: u64, c: u8, e: u32) -> (r: Vec<u8>)
    requires
        c == 2 || c == 5,
    ensures
        le_value(r@) == m2 * (if c == 2 { pow2(e as nat) } else { pow5(e as nat) }),
        small_digits(r@),
{
    let mut l = digits_le(m2);
    let mut j: u32 = 0;
    proof {
        vstd::arithmetic::power2::lemma2_to64();
        reveal_with_fuel(pow5, 14);
    }
    let chunk: u32 = if c == 2 { 30 } else { 13 };
    let factor: u64 = if c == 2 { 0x4000_0000 } else { 1220703125 };
    assert(c == 2 ==> factor == pow2(chunk as nat));
    assert(c == 5 ==> factor == pow5(chunk as nat));
    while j < e
        invariant
            j <= e,
            c == 2 || c == 5,
            chunk >= 1,
            c == 2 ==> factor == pow2(chunk as nat),
            c == 5 ==> factor == pow5(chunk as nat),
            1 <= factor <= 0x8000_0000,
            small_digits(l@),
            le_value(l@) == m2 * (if c == 2 { pow2(j as nat) } else { pow5(j as nat) }),
        decreases e - j,
    {
        let step: u32;
        let mult: u64;
        if e - j >= chunk {
            step = chunk;
            mult = factor;
        } else {
            step = 1;
            mult = c as u64;
            proof {
                reveal_with_fuel(pow5, 2);
                vstd::arithmetic::power2::lemma2_to64();
            }
        }
        assert(c == 2 ==> mult == pow2(step as nat));
        assert(c == 5 ==> mult == pow5(step as nat));
        l = mul_small(&l, mult);
        proof {
            vstd::arithmetic::power2::lemma_pow2_adds(j as nat, step as nat);
            lemma_pow5_adds(j as nat, step as nat);
            let p: nat = if c == 2 { pow2(j as nat) } else { pow5(j as nat) };
            let p1: nat = if c == 2 { pow2((j + step) as nat) } else { pow5((j + step) as nat) };
            assert(p1 == p * mult);
            assert(mult * (m2 * p) == m2 * (p * mult)) by (nonlinear_arith);
        }
        j += step;
    }
    l
}

} // verus!

verus! {

/// Case `e2 < 0`, `d >= -e2`: the value is exact, `m2 * 5^k * 10^(d - k)`.
proof fn lemma_fixed_exact(m2: nat, k: nat, d: nat)
    requires
        k >= 1,
        d >= k,
    ensures
        fixed_value(m2, -(k as int), d) == pow10((d - k) as nat) * (m2 * pow5(k)),
{
    let x = m2 * pow5(k) * pow10((d - k) as nat);
    lemma_pow10_adds(k, (d - k) as nat);
    lemma_pow10_split(k);
    vstd::arithmetic::power2::lemma_pow2_unfold(k + 1);
    vstd::arithmetic::power2::lemma_pow2_pos(k);
    let pk = pow2(k);
    assert(pow10(d) == pk * pow5(k) * pow10((d - k) as nat));
    assert(2 * m2 * pow10(d) + pk == pk * (2 * x + 1)) by (nonlinear_arith)
        requires
            pow10(d) == pk * pow5(k) * pow10((d - k) as nat),
            x == m2 * pow5(k) * pow10((d - k) as nat);
    assert(pow2(k + 1) == pk * 2);
    vstd::arithmetic::div_mod::lemma_div_multiples_vanish_quotient(pk as int, (2 * x + 1) as int, 2);
    assert((2 * x + 1) / 2 == x);
    assert(fixed_value(m2, -(k as int), d) == (pk * (2 * x + 1)) / (pk * 2));
    assert(x == pow10((d - k) as nat) * (m2 * pow5(k))) by (nonlinear_arith)
        requires x == m2 * pow5(k) * pow10((d - k) as nat);
}

/// Case `e2 < 0`, `d < -e2`: with `M = m2 * 5^k` split at `s = k - d` into
/// `lo + 10^s * hi`, the result is `hi`, plus one when `lo >= 10^s / 2`.
proof fn lemma_fixed_rounded(m2: nat, k: nat, d: nat, lo: nat, hi: nat)
    requires
        d < k,
        m2 * pow5(k) == lo + pow10((k - d) as nat) * hi,
        lo < pow10((k - d) as nat),
    ensures
        fixed_value(m2, -(k as int), d) == hi + if 2 * lo >= pow10((k - d) as nat) { 1nat } else { 0nat },
{
    let s = (k - d) as nat;
    let ps = pow10(s);
    let pd = pow10(d);
    let mm = m2 * pow5(k);
    lemma_pow10_adds(d, s);
    lemma_pow10_split(k);
    lemma_pow10_pos(s);
    lemma_pow10_pos(d);
    lemma_pow5_pos(k);
    vstd::arithmetic::power2::lemma_pow2_unfold(k + 1);
    vstd::arithmetic::power2::lemma_pow2_pos(k);
    let pk = pow2(k);
    let p5 = pow5(k);
    let a = 2 * m2 * pd + pk;
    // Scale numerator and denominator by 5^k.
    vstd::arithmetic::div_mod::lemma_div_multiples_vanish_quotient(p5 as int, a as int, (pk * 2) as int);
    assert(p5 * a == pd * (2 * mm + ps)) by (nonlinear_arith)
        requires
            a == 2 * m2 * pd + pk,
            pk * p5 == pd * ps,
            mm == m2 * p5;
    assert(p5 * (pk * 2) == pd * (2 * ps)) by (nonlinear_arith)
        requires pk * p5 == pd * ps;
    assert(pow10(k) == pk * p5);
    assert(pow10(k) == pd * ps);
    // Cancel 10^d.
    vstd::arithmetic::div_mod::lemma_div_multiples_vanish_quotient(pd as int, (2 * mm + ps) as int, (2 * ps) as int);
    assert(fixed_value(m2, -(k as int), d) == (2 * mm + ps) / (2 * ps));
    // Take hi out.
    let b = 2 * lo + ps;
    assert(2 * mm + ps == b + hi * (2 * ps)) by (nonlinear_arith)
        requires mm == lo + ps * hi, b == 2 * lo + ps;
    vstd::arithmetic::div_mod::lemma_hoist_over_denominator(b as int, hi as int, (2 * ps) as nat);
    if 2 * lo >= ps {
        vstd::arithmetic::div_mod::lemma_div_multiples_vanish_fancy(1, (b - 2 * ps) as int, (2 * ps) as int);
        assert(b / (2 * ps) == 1);
    } else {
        vstd::arithmetic::div_mod::lemma_div_multiples_vanish_fancy(0, b as int, (2 * ps) as int);
        assert(b / (2 * ps) == 0);
    }
}

/// `2 * lo >= 10^s` exactly when the digit below `10^(s-1)` is 5 or more.
proof fn lemma_half_digit(l: Seq<u8>, s: int)
    requires
        1 <= s <= l.len(),
        small_digits(l),
    ensures
        (2 * le_value(l.subrange(0, s)) >= pow10(s as nat)) == (l[s - 1] >= 5),
        le_value(l.subrange(0, s)) < pow10(s as nat),
{
    let p = l.subrange(0, s);
    assert(small_digits(p)) by {
        assert forall|i: int| 0 <= i < p.len() implies #[trigger] p[i] < 10 by {
            assert(p[i] == l[i]);
        }
    }
    lemma_le_bound(p);
    lemma_le_split(p, s - 1);
    let low = p.subrange(0, s - 1);
    let top = p.subrange(s - 1, s);
    assert(small_digits(low)) by {
        assert forall|i: int| 0 <= i < low.len() implies #[trigger] low[i] < 10 by {
            assert(low[i] == l[i]);
        }
    }
    lemma_le_bound(low);
    lemma_le_short(top);
    assert(top[0] == l[s - 1]);
    let q = pow10((s - 1) as nat);
    assert(pow10(s as nat) == 10 * q);
    let dg = l[s - 1] as nat;
    assert(le_value(p) == le_value(low) + q * dg);
    assert(le_value(low) < q);
    if dg >= 5 {
        assert(q * dg >= 5 * q) by (nonlinear_arith)
            requires dg >= 5, q >= 0;
    } else {
        assert(q * dg <= 4 * q) by (nonlinear_arith)
            requires dg <= 4, q >= 0;
    }
}

/// Little-endian digits `n` and a round-up flag such that `n + round` is the
/// `toFixed` value of `m2 * 2^e2` with `d` fraction digits; `n` has at least
/// `d + 1` digits.
pub fn exact_scaled(m2: u64, e2: i32, d: u32) -> (r: (Vec<u8>, bool))
    requires
        1 <= m2,
        -1074 <= e2 <= 17,
        d <= 100,
    ensures
        small_digits(r.0@),
        r.0@.len() >= d + 1,
        le_value(r.0@) + (if r.1 { 1nat } else { 0nat }) == fixed_value(m2 as nat, e2 as int, d as nat),
        le_value(r.0@) <= fixed_value(m2 as nat, e2 as int, d as nat),
{
    if e2 >= 0 {
        let l = times_power(m2, 2, e2 as u32);
        let mut n = shift_up(&l, d as usize);
        pad_to(&mut n, d as usize + 1);
        proof {
            let p = pow2(e2 as nat);
            assert(pow10(d as nat) * (m2 * p) == m2 * p * pow10(d as nat)) by (nonlinear_arith);
        }
        return (n, false);
    }
    let k: u32 = (-e2) as u32;
    let mut l = times_power(m2, 5, k);
    if d >= k {
        let mut n = shift_up(&l, (d - k) as usize);
        pad_to(&mut n, d as usize + 1);
        proof {
            lemma_fixed_exact(m2 as nat, k as nat, d as nat);
        }
        return (n, false);
    }
    let s: usize = (k - d) as usize;
    pad_to(&mut l, k as usize + 1);
    let round = l[s - 1] >= 5;
    let mut n: Vec<u8> = Vec::new();
    let mut i: usize = s;
    while i < l.len()
        invariant
            s <= i <= l@.len(),
            n@ =~= l@.subrange(s as int, i as int),
        decreases l@.len() - i,
    {
        n.push(l[i]);
        i += 1;
    }
    proof {
        lemma_le_split(l@, s as int);
        lemma_half_digit(l@, s as int);
        let lo = le_value(l@.subrange(0, s as int));
        let hi = le_value(l@.subrange(s as int, l@.len() as int));
        lemma_fixed_rounded(m2 as nat, k as nat, d as nat, lo, hi);
        assert forall|x: int| 0 <= x < n@.len() implies #[trigger] n@[x] < 10 by {
            assert(n@[x] == l@[x + s]);
        }
    }
    (n, round)
}

} // verus!

verus! {

/// Every `toFixed` value of a float below `2^70` in magnitude has
/// at most 22 integer digits: `fixed_value < 10^(d + 22)`.
pub proof fn lemma_fixed_bound(m2: nat, e2: int, d: nat)
    requires
        1 <= m2 < 0x20_0000_0000_0000,
        -1074 <= e2 <= 17,
    ensures
        fixed_value(m2, e2, d) < pow10(d + 22),
{
    vstd::arithmetic::power2::lemma2_to64();
    vstd::arithmetic::power2::lemma2_to64_rest();
    lemma_pow10_adds(22, d);
    lemma_pow10_pos(d);
    reveal_with_fuel(pow10, 23);
    assert(pow10(22) == 10000000000000000000000);
    let pd = pow10(d);
    if e2 >= 0 {
        let p = pow2(e2 as nat);
        if e2 < 17 {
            vstd::arithmetic::power2::lemma_pow2_strictly_increases(e2 as nat, 17);
        }
        assert(pow2(17) == 0x2_0000);
        assert(m2 * p < 10000000000000000000000) by (nonlinear_arith)
            requires m2 < 0x20_0000_0000_0000, p <= 0x2_0000;
        assert(m2 * p * pd < 10000000000000000000000 * pd) by (nonlinear_arith)
            requires m2 * p < 10000000000000000000000, pd >= 1;
    } else {
        let k = (-e2) as nat;
        let a = m2 * pd;
        vstd::arithmetic::power2::lemma_pow2_unfold(k + 1);
        vstd::arithmetic::power2::lemma_pow2_pos(k);
        if k > 1 {
            vstd::arithmetic::power2::lemma_pow2_strictly_increases(1, k);
        }
        let pk = pow2(k);
        assert(pk >= 2);
        assert(a >= 1) by (nonlinear_arith)
            requires a == m2 * pd, m2 >= 1, pd >= 1;
        assert(2 * a + pk <= a * (pk * 2)) by (nonlinear_arith)
            requires a >= 1, pk >= 2;
        vstd::arithmetic::div_mod::lemma_div_is_ordered((2 * a + pk) as int, (a * (pk * 2)) as int, (pk * 2) as int);
        vstd::arithmetic::div_mod::lemma_div_multiples_vanish(a as int, (pk * 2) as int);
        assert((a * (pk * 2)) / (pk * 2) == a) by (nonlinear_arith)
            requires ((pk * 2) * a) / (pk * 2) == a;
        assert(a < 10000000000000000000000 * pd) by (nonlinear_arith)
            requires a == m2 * pd, m2 < 0x20_0000_0000_0000, pd >= 1;
        assert(2 * m2 * pd == 2 * a) by (nonlinear_arith)
            requires a == m2 * pd;
        assert(pow2((1 - e2) as nat) == pk * 2);
        assert(fixed_value(m2, e2, d) == (2 * a + pk) / (pk * 2));
        assert(fixed_value(m2, e2, d) <= a);
    }
    assert(pow10(d + 22) == 10000000000000000000000 * pd);
}

} // verus!

verus! {

/// One formula for both signs of `e2`: with `x = m2 * 2^(e2 + 1074)` the
/// value in units of the smallest subnormal, the result is
/// `(2 * x * 10^d + 2^1074) / 2^1075`, i.e. `x * 10^d / 2^1074` rounded half up.
pub proof fn lemma_fixed_value_uniform(m2: nat, e2: int, d: nat)
    requires
        e2 >= -1074,
    ensures
        fixed_value(m2, e2, d) == (2 * (m2 * pow2((e2 + 1074) as nat)) * pow10(d) + pow2(1074)) / pow2(1075),
{
    let x = m2 * pow2((e2 + 1074) as nat);
    let pd = pow10(d);
    vstd::arithmetic::power2::lemma_pow2_unfold(1075);
    vstd::arithmetic::power2::lemma_pow2_pos(1074);
    if e2 >= 0 {
        let y = m2 * pow2(e2 as nat) * pd;
        vstd::arithmetic::power2::lemma_pow2_adds(e2 as nat, 1074);
        let a = pow2(1074);
        assert(2 * x * pd + a == a * (2 * y + 1)) by (nonlinear_arith)
            requires
                x == m2 * pow2((e2 + 1074) as nat),
                pow2((e2 + 1074) as nat) == pow2(e2 as nat) * a,
                y == m2 * pow2(e2 as nat) * pd;
        vstd::arithmetic::div_mod::lemma_div_multiples_vanish_quotient(a as int, (2 * y + 1) as int, 2);
        assert(pow2(1075) == a * 2);
        assert((2 * y + 1) / 2 == y);
    } else {
        let k = (-e2) as nat;
        let c = pow2((1074 - k) as nat);
        vstd::arithmetic::power2::lemma_pow2_adds((1074 - k) as nat, k);
        vstd::arithmetic::power2::lemma_pow2_adds((1074 - k) as nat, k + 1);
        vstd::arithmetic::power2::lemma_pow2_pos((1074 - k) as nat);
        let num = 2 * m2 * pd + pow2(k);
        assert(c * num == 2 * x * pd + pow2(1074)) by (nonlinear_arith)
            requires
                num == 2 * m2 * pd + pow2(k),
                x == m2 * c,
                pow2(1074) == c * pow2(k);
        assert(c * pow2(k + 1) == pow2(1075));
        vstd::arithmetic::power2::lemma_pow2_pos(k + 1);
        vstd::arithmetic::div_mod::lemma_div_multiples_vanish_quotient(c as int, num as int, pow2(k + 1) as int);
        assert((1 - e2) as nat == k + 1);
    }
}

/// Rounding to `d` places keeps the order: a smaller value never gets larger
/// digits (values given as `m2 * 2^e2`).
pub proof fn lemma_fixed_value_monotone(ma: nat, ea: int, mb: nat, eb: int, d: nat)
    requires
        ea >= -1074,
        eb >= -1074,
        ma * pow2((ea + 1074) as nat) <= mb * pow2((eb + 1074) as nat),
    ensures
        fixed_value(ma, ea, d) <= fixed_value(mb, eb, d),
{
    lemma_fixed_value_uniform(ma, ea, d);
    lemma_fixed_value_uniform(mb, eb, d);
    let xa = ma * pow2((ea + 1074) as nat);
    let xb = mb * pow2((eb + 1074) as nat);
    let pd = pow10(d);
    assert(2 * xa * pd <= 2 * xb * pd) by (nonlinear_arith)
        requires xa <= xb;
    vstd::arithmetic::power2::lemma_pow2_pos(1075);
    vstd::arithmetic::div_mod::lemma_div_is_ordered(
        (2 * xa * pd + pow2(1074)) as int,
        (2 * xb * pd + pow2(1074)) as int,
        pow2(1075) as int,
    );
}

} // verus!

verus! {

/// Half up: with `x * 10^d = q * 2^1074 + r` (`x = m2 * 2^(e2 + 1074)`), the
/// result is `q`, plus one exactly when `r` is at least half of `2^1074`, so
/// an exact tie goes up.
pub proof fn lemma_fixed_value_half_up(m2: nat, e2: int, d: nat)
    requires
        e2 >= -1074,
    ensures
        ({
            let v = m2 * pow2((e2 + 1074) as nat) * pow10(d);
            let p = pow2(1074);
            fixed_value(m2, e2, d) == v / p + if 2 * (v % p) >= p { 1nat } else { 0nat }
        }),
{
    lemma_fixed_value_uniform(m2, e2, d);
    let x = m2 * pow2((e2 + 1074) as nat);
    let v = x * pow10(d);
    let p = pow2(1074);
    vstd::arithmetic::power2::lemma_pow2_pos(1074);
    vstd::arithmetic::power2::lemma_pow2_unfold(1075);
    vstd::arithmetic::div_mod::lemma_fundamental_div_mod(v as int, p as int);
    let q = v / p;
    let r = v % p;
    assert(2 * x * pow10(d) == 2 * v) by (nonlinear_arith)
        requires v == x * pow10(d);
    let b = 2 * r + p;
    assert(2 * v + p == b + q * (2 * p)) by (nonlinear_arith)
        requires v == p * q + r, b == 2 * r + p;
    vstd::arithmetic::div_mod::lemma_hoist_over_denominator(b as int, q as int, (2 * p) as nat);
    assert(pow2(1075) == 2 * p);
    if 2 * r >= p {
        vstd::arithmetic::div_mod::lemma_div_multiples_vanish_fancy(1, (b - 2 * p) as int, (2 * p) as int);
    } else {
        vstd::arithmetic::div_mod::lemma_div_multiples_vanish_fancy(0, b as int, (2 * p) as int);
    }
}

} // verus!

verus! {

/// Subtracting one from a positive digit vector, length kept.
pub fn dec_one(l: &Vec<u8>) -> (r: Vec<u8>)
    requires
        small_digits(l@),
        le_value(l@) >= 1,
    ensures
        le_value(r@) + 1 == le_value(l@),
        small_digits(r@),
        r@.len() == l@.len(),
{
    let mut out: Vec<u8> = Vec::new();
    let mut borrow: u8 = 1;
    let mut i: usize = 0;
    proof {
        lemma_le_short(out@);
        lemma_le_short(l@.subrange(0, 0));
        assert(l@.subrange(0, 0) =~= Seq::<u8>::empty());
        assert(pow10(0) == 1);
    }
    while i < l.len()
        invariant
            i <= l@.len(),
            out@.len() == i,
            borrow <= 1,
            small_digits(l@),
            small_digits(out@),
            le_value(out@) + 1 == le_value(l@.subrange(0, i as int)) + borrow * pow10(i as nat),
            borrow == 1 ==> le_value(l@.subrange(0, i as int)) == 0,
        decreases l@.len() - i,
    {
        let ghost before = out@;
        let ghost p = pow10(i as nat);
        let x = l[i];
        assert(x < 10);
        proof {
            lemma_le_push(l@.subrange(0, i as int), x);
            assert(l@.subrange(0, i as int).push(x) =~= l@.subrange(0, i + 1));
            assert(pow10((i + 1) as nat) == 10 * p);
        }
        if x >= borrow {
            out.push(x - borrow);
            proof {
                lemma_le_push(before, (x - borrow) as u8);
                assert((x - borrow) as nat * p + borrow * p == x * p) by (nonlinear_arith)
                    requires x >= borrow;
                assert(0 * pow10((i + 1) as nat) == 0);
            }
            borrow = 0;
        } else {
            out.push(9);
            proof {
                lemma_le_push(before, 9);
                assert(x == 0 && borrow == 1);
                assert(0 * p == 0);
                assert(1 * p == p);
                assert(1 * (10 * p) == 10 * p);
            }
        }
        i += 1;
    }
    proof {
        assert(l@.subrange(0, l@.len() as int) =~= l@);
        assert(borrow == 0);
        assert(0 * pow10(i as nat) == 0);
    }
    out
}

/// The digit at `t` and the ones above it.
pub proof fn lemma_le_top(x: Seq<u8>, t: int)
    requires
        0 <= t < x.len(),
    ensures
        le_value(x.subrange(t, x.len() as int)) == x[t] + 10 * le_value(x.subrange(t + 1, x.len() as int)),
{
    assert(x.subrange(t, x.len() as int).drop_first() =~= x.subrange(t + 1, x.len() as int));
}

/// Dropping the low `t` digits divides by `10^t`.
pub proof fn lemma_le_div(x: Seq<u8>, t: int)
    requires
        0 <= t <= x.len(),
        small_digits(x),
    ensures
        le_value(x) / pow10(t as nat) == le_value(x.subrange(t, x.len() as int)),
        le_value(x) % pow10(t as nat) == le_value(x.subrange(0, t)),
        le_value(x.subrange(0, t)) < pow10(t as nat),
{
    lemma_le_split(x, t);
    let low = x.subrange(0, t);
    assert(small_digits(low)) by {
        assert forall|i: int| 0 <= i < low.len() implies #[trigger] low[i] < 10 by {
            assert(low[i] == x[i]);
        }
    }
    lemma_le_bound(low);
    lemma_pow10_pos(t as nat);
    let p = pow10(t as nat);
    let hi = le_value(x.subrange(t, x.len() as int));
    vstd::arithmetic::div_mod::lemma_div_multiples_vanish_fancy(hi as int, le_value(low) as int, p as int);
    vstd::arithmetic::div_mod::lemma_fundamental_div_mod(le_value(x) as int, p as int);
    assert(p * hi + le_value(low) == le_value(x));
}

/// Reads the digits from `from` up as a machine integer.
pub fn read_u64(x: &Vec<u8>, from: usize) -> (r: u64)
    requires
        from <= x@.len(),
        small_digits(x@),
        le_value(x@.subrange(from as int, x@.len() as int)) <= u64::MAX,
    ensures
        r == le_value(x@.subrange(from as int, x@.len() as int)),
{
    let mut i: usize = x.len();
    let mut acc: u64 = 0;
    proof {
        assert(x@.subrange(i as int, x@.len() as int) =~= Seq::<u8>::empty());
        lemma_le_short(x@.subrange(i as int, x@.len() as int));
    }
    while i > from
        invariant
            from <= i <= x@.len(),
            small_digits(x@),
            acc == le_value(x@.subrange(i as int, x@.len() as int)),
            le_value(x@.subrange(from as int, x@.len() as int)) <= u64::MAX,
        decreases i,
    {
        proof {
            lemma_le_top(x@, i - 1);
            let s = x@.subrange(from as int, x@.len() as int);
            lemma_le_split(s, (i - 1 - from) as int);
            assert(s.subrange((i - 1 - from) as int, s.len() as int) =~= x@.subrange(i - 1, x@.len() as int));
            let p = pow10((i - 1 - from) as nat);
            lemma_pow10_pos((i - 1 - from) as nat);
            let v = le_value(x@.subrange(i - 1, x@.len() as int));
            assert(p * v >= v) by (nonlinear_arith)
                requires p >= 1;
            assert(x@[i - 1] < 10);
        }
        acc = acc * 10 + x[i - 1] as u64;
        i -= 1;
    }
    acc
}

/// The highest position where two digit vectors of one length differ.
pub fn highest_diff(a: &Vec<u8>, b: &Vec<u8>) -> (t: usize)
    requires
        a@.len() == b@.len(),
        a@ != b@,
    ensures
        t < a@.len(),
        a@[t as int] != b@[t as int],
        a@.subrange(t + 1, a@.len() as int) == b@.subrange(t + 1, b@.len() as int),
{
    let mut i: usize = a.len();
    proof {
        assert(a@.subrange(i as int, a@.len() as int) =~= b@.subrange(i as int, b@.len() as int));
    }
    while i > 0
        invariant
            i <= a@.len() == b@.len(),
            a@.subrange(i as int, a@.len() as int) == b@.subrange(i as int, b@.len() as int),
            a@ != b@,
        decreases i,
    {
        if a[i - 1] != b[i - 1] {
            return i - 1;
        }
        proof {
            assert(a@.subrange(i - 1, a@.len() as int) =~= b@.subrange(i - 1, b@.len() as int)) by {
                assert forall|j: int| 0 <= j < a@.len() - (i - 1) implies
                    #[trigger] a@.subrange(i - 1, a@.len() as int)[j] == b@.subrange(i - 1, b@.len() as int)[j] by {
                    if j > 0 {
                        assert(a@.subrange(i - 1, a@.len() as int)[j] == a@.subrange(i as int, a@.len() as int)[j - 1]);
                        assert(b@.subrange(i - 1, b@.len() as int)[j] == b@.subrange(i as int, b@.len() as int)[j - 1]);
                    }
                }
            }
        }
        i -= 1;
    }
    proof {
        assert(a@ =~= a@.subrange(0, a@.len() as int));
        assert(b@ =~= b@.subrange(0, b@.len() as int));
    }
    0
}

} // verus!

verus! {

/// Zero exactly when every digit is zero.
pub proof fn lemma_le_zero(s: Seq<u8>)
    ensures
        (le_value(s) == 0) == (forall|k: int| 0 <= k < s.len() ==> s[k] == 0),
    decreases s.len(),
{
    lemma_le_short(s);
    if s.len() > 0 {
        let t = s.drop_first();
        lemma_le_zero(t);
        if le_value(s) == 0 {
            assert forall|k: int| 0 <= k < s.len() implies s[k] == 0 by {
                if k > 0 {
                    assert(s[k] == t[k - 1]);
                }
            }
        }
        if forall|k: int| 0 <= k < s.len() ==> s[k] == 0 {
            assert forall|k: int| 0 <= k < t.len() implies t[k] == 0 by {
                assert(t[k] == s[k + 1]);
            }
            assert(s[0] == 0);
        }
    }
}

/// Comparing the low `t` digits with half of `10^t`: above half exactly when
/// digit `t - 1` is above 5, or is 5 with something non-zero below it; equal
/// to half exactly when it is 5 with zeros below.
pub proof fn lemma_half_digit_pub(l: Seq<u8>, t: int, nonzero: bool)
    requires
        1 <= t <= l.len(),
        small_digits(l),
        nonzero == exists|k: int| 0 <= k < t - 1 && l[k] != 0,
    ensures
        ({
            let rem = le_value(l.subrange(0, t));
            let p = pow10(t as nat);
            let d = l[t - 1];
            &&& (2 * rem > p) == (d > 5 || (d == 5 && nonzero))
            &&& (2 * rem == p) == (d == 5 && !nonzero)
        }),
{
    let p0 = l.subrange(0, t);
    assert(small_digits(p0)) by {
        assert forall|i: int| 0 <= i < p0.len() implies #[trigger] p0[i] < 10 by {
            assert(p0[i] == l[i]);
        }
    }
    lemma_le_split(p0, t - 1);
    let low = p0.subrange(0, t - 1);
    let top = p0.subrange(t - 1, t);
    assert(small_digits(low)) by {
        assert forall|i: int| 0 <= i < low.len() implies #[trigger] low[i] < 10 by {
            assert(low[i] == l[i]);
        }
    }
    lemma_le_bound(low);
    lemma_le_short(top);
    lemma_le_zero(low);
    assert(top[0] == l[t - 1]);
    let h = pow10((t - 1) as nat);
    lemma_pow10_pos((t - 1) as nat);
    assert(pow10(t as nat) == 10 * h);
    let dg = l[t - 1] as nat;
    let lv = le_value(low);
    assert(le_value(p0) == lv + h * dg);
    assert(nonzero == (lv != 0)) by {
        if nonzero {
            let k = choose|k: int| 0 <= k < t - 1 && l[k] != 0;
            assert(low[k] == l[k]);
        } else {
            assert forall|k: int| 0 <= k < low.len() implies low[k] == 0 by {
                assert(low[k] == l[k]);
            }
        }
    }
    if dg > 5 {
        assert(2 * (lv + h * dg) > 10 * h) by (nonlinear_arith) requires dg >= 6, h >= 1;
    } else if dg == 5 {
        assert(h * dg == 5 * h) by (nonlinear_arith) requires dg == 5;
    } else {
        assert(2 * (lv + h * dg) < 10 * h) by (nonlinear_arith) requires dg <= 4, lv < h;
    }
}

} // verus!
