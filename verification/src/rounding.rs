//! Rounding of exact quotients to IEEE 754 single precision, in integers.
//!
//! A finite single-precision magnitude is a whole number of units of 2^-149. Read as an
//! integer, the bit pattern of a magnitude is `s * 2^23 + k`, where `k` counts steps of
//! `2^s` units; that is what [`nearest`] states, with no case distinction between normal
//! and subnormal numbers.

use vstd::prelude::*;
use vstd::arithmetic::power2::*;

verus! {

/// 2^23, the number of bit patterns that share one exponent.
pub const HIDDEN_BIT: u32 = 0x80_0000;

/// 2^24, the first magnitude (in steps) that no longer fits the significand.
pub const SIGNIFICAND_LIMIT: u32 = 0x100_0000;

/// The bit pattern of positive infinity.
pub const INFINITY_BITS: u32 = 0x7f80_0000;

/// `a / b` rounded to the nearest integer, ties to the even one.
pub open spec fn round_half_even(a: nat, b: nat) -> nat {
    let q = a / b;
    let r = a % b;
    if 2 * r < b || (2 * r == b && q % 2 == 0) {
        q
    } else {
        q + 1
    }
}

/// The least `s` for which `n / d` is below 2^24 steps of `2^s`.
pub open spec fn coarseness(n: nat, d: nat) -> nat
    decreases n - d,
{
    if d == 0 || n < d * SIGNIFICAND_LIMIT {
        0
    } else {
        1 + coarseness(n, 2 * d)
    }
}

/// The bit pattern of the single-precision magnitude nearest to `n / d` units of 2^-149,
/// ties to the even pattern, infinity where the nearest one is out of range.
#[verifier::opaque]
pub open spec fn nearest(n: nat, d: nat) -> nat {
    let s = coarseness(n, d);
    let bits = s * HIDDEN_BIT as nat + round_half_even(n, d * pow2(s));
    if bits >= INFINITY_BITS {
        INFINITY_BITS as nat
    } else {
        bits
    }
}

/// The magnitude, in units of 2^-149, that a finite bit pattern without its sign stands for.
pub open spec fn units(magnitude: nat) -> nat {
    if magnitude < HIDDEN_BIT {
        magnitude
    } else {
        (magnitude % HIDDEN_BIT as nat + HIDDEN_BIT as nat) * pow2((magnitude / HIDDEN_BIT as nat - 1) as nat)
    }
}

pub proof fn lemma_coarseness(n: nat, d: nat, s: nat)
    requires
        d > 0,
        n < d * pow2(s + 24),
        s > 0 ==> n >= d * pow2((s + 23) as nat),
    ensures
        coarseness(n, d) == s,
    decreases s,
{
    lemma2_to64();
    if s == 0 {
    } else {
        let p = pow2((s + 23) as nat);
        lemma_pow2_unfold((s + 24) as nat);
        assert(pow2((s + 24) as nat) == 2 * p);
        if s == 1 {
        } else {
            lemma_pow2_strictly_increases(24, (s + 23) as nat);
        }
        assert(p >= SIGNIFICAND_LIMIT);
        assert(d * p >= d * SIGNIFICAND_LIMIT) by (nonlinear_arith)
            requires
                p >= SIGNIFICAND_LIMIT,
                d > 0,
        ;
        assert(n >= d * SIGNIFICAND_LIMIT);
        assert((2 * d) * p == d * (2 * p)) by (nonlinear_arith);
        if s > 1 {
            let h = pow2((s + 22) as nat);
            lemma_pow2_unfold((s + 23) as nat);
            assert((2 * d) * h == d * (2 * h)) by (nonlinear_arith);
        }
        lemma_coarseness(n, 2 * d, (s - 1) as nat);
    }
}

pub proof fn lemma_coarseness_at_least(n: nat, d: nat, s: nat)
    requires
        d > 0,
        s > 0,
        n >= d * pow2((s + 23) as nat),
    ensures
        coarseness(n, d) >= s,
    decreases s,
{
    lemma2_to64();
    let p = pow2((s + 23) as nat);
    if s > 1 {
        lemma_pow2_strictly_increases(24, (s + 23) as nat);
    }
    assert(d * p >= d * SIGNIFICAND_LIMIT) by (nonlinear_arith)
        requires
            p >= SIGNIFICAND_LIMIT,
    ;
    if s > 1 {
        let h = pow2((s + 22) as nat);
        lemma_pow2_unfold((s + 23) as nat);
        assert((2 * d) * h == d * (2 * h)) by (nonlinear_arith);
        lemma_coarseness_at_least(n, 2 * d, (s - 1) as nat);
    }
}

pub proof fn lemma_round_half_even_scale(a: nat, b: nat, c: nat)
    requires
        b > 0,
        c > 0,
    ensures
        round_half_even(a * c, b * c) == round_half_even(a, b),
{
    let q = a / b;
    let r = a % b;
    vstd::arithmetic::div_mod::lemma_fundamental_div_mod(a as int, b as int);
    assert(a == b * q + r);
    assert(a * c == q * (b * c) + r * c) by (nonlinear_arith)
        requires
            a == b * q + r,
    ;
    assert(0 <= r * c < b * c) by (nonlinear_arith)
        requires
            0 <= r < b,
            c > 0,
    ;
    vstd::arithmetic::div_mod::lemma_fundamental_div_mod_converse(
        (a * c) as int,
        (b * c) as int,
        q as int,
        (r * c) as int,
    );
    assert(2 * (r * c) < b * c <==> 2 * r < b) by (nonlinear_arith)
        requires
            c > 0,
    ;
    assert(2 * (r * c) == b * c <==> 2 * r == b) by (nonlinear_arith)
        requires
            c > 0,
    ;
}

/// Whether `n / d` lies in the unit interval of `2^e` that begins at `m`, strictly inside
/// it exactly when `sticky`.
pub open spec fn brackets(n: nat, d: nat, m: nat, e: int, sticky: bool) -> bool {
    let a = n * pow2(if e < 0 { (-e) as nat } else { 0 });
    let b = d * pow2(if e < 0 { 0 } else { e as nat });
    &&& m * b <= a < (m + 1) * b
    &&& sticky <==> a != m * b
}

/// The number of binary digits of `m`.
fn bit_length(m: u64) -> (len: u32)
    requires
        m < 0x8000_0000_0000_0000,
    ensures
        len <= 63,
        m < pow2(len as nat),
        len > 0 ==> m >= pow2((len - 1) as nat),
{
    let mut p: u64 = 1;
    let mut len: u32 = 0;
    proof {
        lemma2_to64();
        lemma2_to64_rest();
    }
    while p <= m
        invariant
            m < 0x8000_0000_0000_0000,
            len <= 63,
            p == pow2(len as nat),
            len > 0 ==> m >= pow2((len - 1) as nat),
        decreases 63 - len,
    {
        proof {
            lemma_pow2_unfold((len + 1) as nat);
            if len == 63 {
                lemma2_to64_rest();
            }
        }
        p = p * 2;
        len = len + 1;
    }
    len
}

/// `2^t`.
pub fn power_of_two(t: u32) -> (p: u64)
    requires
        t <= 63,
    ensures
        p == pow2(t as nat),
{
    let mut p: u64 = 1;
    let mut i: u32 = 0;
    proof {
        lemma2_to64();
    }
    while i < t
        invariant
            i <= t <= 63,
            p == pow2(i as nat),
        decreases t - i,
    {
        proof {
            lemma_pow2_unfold((i + 1) as nat);
            lemma2_to64_rest();
            if i + 1 < 63 {
                lemma_pow2_strictly_increases((i + 1) as nat, 63);
            }
        }
        p = p * 2;
        i = i + 1;
    }
    p
}

proof fn lemma_bracket_range(n: nat, d: nat, m: nat, e: int, sticky: bool, len: nat, s: nat)
    requires
        d > 0,
        brackets(n, d, m, e, sticky),
        m < pow2(len),
        len > 0 ==> m >= pow2((len - 1) as nat),
        s + 24 >= len + e,
        s > 0 ==> s + 24 == len + e && len > 0,
    ensures
        coarseness(n, d) == s,
{
    let neg: nat = if e < 0 { (-e) as nat } else { 0 };
    let pos: nat = if e < 0 { 0 } else { e as nat };
    let p = pow2(neg);
    let q = pow2(pos);
    let a = n * p;
    let b = d * q;
    lemma_pow2_pos(neg);
    lemma_pow2_pos(pos);
    let t = pow2(s + 24);
    // a < (m + 1) * b <= 2^len * d * 2^pos <= d * 2^(s + 24) * 2^neg
    lemma_pow2_adds(len, pos);
    lemma_pow2_adds(s + 24, neg);
    if len + pos < s + 24 + neg {
        lemma_pow2_strictly_increases(len + pos, s + 24 + neg);
    }
    assert(pow2(len) * q <= t * p);
    assert((m + 1) * b <= pow2(len) * b) by (nonlinear_arith)
        requires
            m + 1 <= pow2(len),
    ;
    assert(pow2(len) * b == d * (pow2(len) * q)) by (nonlinear_arith)
        requires
            b == d * q,
    ;
    assert(d * (pow2(len) * q) <= d * (t * p)) by (nonlinear_arith)
        requires
            pow2(len) * q <= t * p,
    ;
    assert(d * (t * p) == (d * t) * p) by (nonlinear_arith);
    assert(n < d * t) by (nonlinear_arith)
        requires
            n * p < (d * t) * p,
            p > 0,
    ;
    if s > 0 {
        let t1 = pow2((s + 23) as nat);
        let h = pow2((len - 1) as nat);
        lemma_pow2_adds((len - 1) as nat, pos);
        lemma_pow2_adds((s + 23) as nat, neg);
        assert(h * q == t1 * p);
        assert(m * b >= h * b) by (nonlinear_arith)
            requires
                m >= h,
        ;
        assert(h * b == d * (h * q)) by (nonlinear_arith)
            requires
                b == d * q,
        ;
        assert(d * (t1 * p) == (d * t1) * p) by (nonlinear_arith);
        assert(n >= d * t1) by (nonlinear_arith)
            requires
                n * p >= (d * t1) * p,
                p > 0,
        ;
    }
    lemma_coarseness(n, d, s);
}

/// Steps of `2^s` when the bracket is no finer than the step: nothing is rounded.
proof fn lemma_exact_steps(n: nat, d: nat, m: nat, e: int, s: nat)
    requires
        d > 0,
        brackets(n, d, m, e, false),
        s <= e,
    ensures
        round_half_even(n, d * pow2(s)) == m * pow2((e - s) as nat),
{
    let f = pow2((e - s) as nat);
    let g = pow2(s);
    lemma_pow2_pos(s);
    lemma_pow2_adds((e - s) as nat, s);
    lemma2_to64();
    assert(n * pow2(0) == n);
    assert(n == m * (d * (f * g)));
    assert(m * (d * (f * g)) == (m * f) * (d * g)) by (nonlinear_arith);
    assert(d * g > 0) by (nonlinear_arith)
        requires
            d > 0,
            g > 0,
    ;
    vstd::arithmetic::div_mod::lemma_fundamental_div_mod_converse(
        n as int,
        (d * g) as int,
        (m * f) as int,
        0,
    );
}

/// Steps of `2^s` when the step is `2^t` brackets wide.
proof fn lemma_rounded_steps(n: nat, d: nat, m: nat, e: int, sticky: bool, s: nat, t: nat)
    requires
        d > 0,
        brackets(n, d, m, e, sticky),
        t == s - e,
        t > 0,
    ensures
        round_half_even(n, d * pow2(s)) == {
            let h = m / pow2(t);
            let lo = m % pow2(t);
            let half = pow2((t - 1) as nat);
            if lo < half || (lo == half && !sticky && h % 2 == 0) {
                h
            } else {
                h + 1
            }
        },
{
    let neg: nat = if e < 0 { (-e) as nat } else { 0 };
    let pos: nat = if e < 0 { 0 } else { e as nat };
    let p = pow2(neg);
    let q = pow2(pos);
    let a = n * p;
    let b = d * q;
    let w = pow2(t);
    let half = pow2((t - 1) as nat);
    lemma_pow2_pos(neg);
    lemma_pow2_pos(pos);
    lemma_pow2_pos(s);
    lemma_pow2_pos(t);
    lemma_pow2_pos((t - 1) as nat);
    lemma_pow2_unfold(t);
    assert(w == 2 * half);
    assert(d * pow2(s) > 0) by (nonlinear_arith)
        requires
            d > 0,
            pow2(s) > 0,
    ;
    lemma_round_half_even_scale(n, d * pow2(s), p);
    lemma_pow2_adds(s, neg);
    lemma_pow2_adds(t, pos);
    assert(pow2(s) * p == w * q);
    assert((d * pow2(s)) * p == d * (pow2(s) * p)) by (nonlinear_arith);
    assert(d * (w * q) == b * w) by (nonlinear_arith)
        requires
            b == d * q,
    ;
    assert(round_half_even(n, d * pow2(s)) == round_half_even(a, b * w));
    let h = m / w;
    let lo = m % w;
    vstd::arithmetic::div_mod::lemma_fundamental_div_mod(m as int, w as int);
    let rest = a - m * b;
    assert(0 <= rest < b) by (nonlinear_arith)
        requires
            m * b <= a < (m + 1) * b,
            rest == a - m * b,
    ;
    let r = lo * b + rest;
    assert(a == h * (b * w) + r) by (nonlinear_arith)
        requires
            m == w * h + lo,
            a == m * b + rest,
            r == lo * b + rest,
    ;
    assert(0 <= r < b * w) by (nonlinear_arith)
        requires
            0 <= lo < w,
            0 <= rest < b,
            r == lo * b + rest,
    ;
    vstd::arithmetic::div_mod::lemma_fundamental_div_mod_converse(
        a as int,
        (b * w) as int,
        h as int,
        r as int,
    );
    if lo < half {
        assert(2 * r < b * w) by (nonlinear_arith)
            requires
                lo + 1 <= half,
                w == 2 * half,
                rest < b,
                r == lo * b + rest,
        ;
    } else if lo == half {
        assert(2 * (half * b) == b * w) by (nonlinear_arith)
            requires
                w == 2 * half,
        ;
    } else {
        assert(2 * r > b * w) by (nonlinear_arith)
            requires
                lo >= half + 1,
                w == 2 * half,
                rest >= 0,
                b > 0,
                r == lo * b + rest,
        ;
    }
}

/// The single-precision magnitude nearest to `n / d` units of 2^-149, given the first
/// binary digits of the quotient: `m` of them in steps of `2^e`, and whether anything
/// follows.
pub fn round_scaled(m: u64, e: i32, sticky: bool, Ghost(n): Ghost<nat>, Ghost(d): Ghost<nat>) -> (bits:
    u32)
    requires
        d > 0,
        m < 0x8000_0000_0000_0000,
        -1000 <= e <= 1000,
        brackets(n, d, m as nat, e as int, sticky),
        sticky ==> m >= 0x200_0000,
    ensures
        bits == nearest(n, d),
        bits <= INFINITY_BITS,
{
    let len: u32 = bit_length(m);
    reveal(nearest);
    let top: i32 = len as i32 - 24 + e;
    let s: i32 = if top > 0 { top } else { 0 };
    proof {
        lemma2_to64();
        lemma2_to64_rest();
        if len <= 24 {
            if len < 24 {
                lemma_pow2_strictly_increases(len as nat, 24);
            }
            assert(!sticky);
        }
        if top > 0 && len == 0 {
            // A zero quotient is below any step.
            assert(m == 0);
        }
    }
    if m == 0 {
        proof {
            assert(!sticky);
            let a = n * pow2(if e < 0 { (-e) as nat } else { 0 });
            lemma_pow2_pos(if e < 0 { (-e) as nat } else { 0 });
            assert(0 * (d * pow2(if e < 0 { 0 } else { e as nat })) == 0);
            assert(n == 0) by (nonlinear_arith)
                requires
                    a == 0,
                    a == n * pow2(if e < 0 { (-e) as nat } else { 0 }),
                    pow2(if e < 0 { (-e) as nat } else { 0 }) > 0,
            ;
            assert(coarseness(n, d) == 0) by (nonlinear_arith)
                requires
                    n == 0,
                    d > 0,
                    coarseness(n, d) == 0 || n >= d * SIGNIFICAND_LIMIT,
            ;
            assert(d * pow2(0) == d);
            vstd::arithmetic::div_mod::lemma_fundamental_div_mod_converse(0, d as int, 0, 0);
        }
        return 0;
    }
    let t: i32 = s - e;
    let k: u64;
    proof {
        lemma_bracket_range(n, d, m as nat, e as int, sticky, len as nat, s as nat);
    }
    if t <= 0 {
        proof {
            lemma_exact_steps(n, d, m as nat, e as int, s as nat);
            lemma_pow2_adds(len as nat, (e - s) as nat);
            if len + (e - s) < 24 {
                lemma_pow2_strictly_increases((len + (e - s)) as nat, 24);
            }
            lemma_pow2_pos((e - s) as nat);
            assert(m * pow2((e - s) as nat) < pow2(len as nat) * pow2((e - s) as nat)) by (nonlinear_arith)
                requires
                    m < pow2(len as nat),
                    pow2((e - s) as nat) > 0,
            ;
        }
        k = m * power_of_two((e - s) as u32);
    } else if t <= 63 {
        proof {
            lemma_rounded_steps(n, d, m as nat, e as int, sticky, s as nat, t as nat);
            lemma_pow2_pos(t as nat);
            lemma_pow2_unfold(t as nat);
        }
        let w: u64 = power_of_two(t as u32);
        let h: u64 = m / w;
        let lo: u64 = m % w;
        let half: u64 = w / 2;
        if lo < half || (lo == half && !sticky && h % 2 == 0) {
            k = h;
        } else {
            k = h + 1;
        }
    } else {
        proof {
            lemma_rounded_steps(n, d, m as nat, e as int, sticky, s as nat, t as nat);
            if t > 64 {
                lemma_pow2_strictly_increases(63, (t - 1) as nat);
            }
            lemma_pow2_unfold(t as nat);
            vstd::arithmetic::div_mod::lemma_fundamental_div_mod_converse(
                m as int,
                pow2(t as nat) as int,
                0,
                m as int,
            );
        }
        k = 0;
    }
    let bits: u64 = s as u64 * HIDDEN_BIT as u64 + k;
    if bits >= INFINITY_BITS as u64 {
        INFINITY_BITS
    } else {
        bits as u32
    }
}

/// Exponent index and significand of a magnitude pattern: it stands for `k` steps of `2^e`.
pub open spec fn exponent_index(magnitude: nat) -> nat {
    if magnitude < HIDDEN_BIT {
        0
    } else {
        (magnitude / HIDDEN_BIT as nat - 1) as nat
    }
}

/// See [`exponent_index`].
pub open spec fn significand(magnitude: nat) -> nat {
    if magnitude < HIDDEN_BIT {
        magnitude
    } else {
        magnitude % HIDDEN_BIT as nat + HIDDEN_BIT as nat
    }
}

pub proof fn lemma_parts(magnitude: nat)
    ensures
        units(magnitude) == significand(magnitude) * pow2(exponent_index(magnitude)),
        magnitude == exponent_index(magnitude) * HIDDEN_BIT as nat + significand(magnitude),
        significand(magnitude) < SIGNIFICAND_LIMIT,
        exponent_index(magnitude) > 0 ==> significand(magnitude) >= HIDDEN_BIT,
{
    lemma2_to64();
    if magnitude < HIDDEN_BIT {
        assert(magnitude * pow2(0) == magnitude);
    }
}

pub proof fn lemma_coarseness_bounds(n: nat, d: nat)
    requires
        d > 0,
    ensures
        n < d * pow2(coarseness(n, d) + 24),
        coarseness(n, d) > 0 ==> n >= d * pow2((coarseness(n, d) + 23) as nat),
    decreases n - d,
{
    lemma2_to64();
    if n < d * SIGNIFICAND_LIMIT {
    } else {
        let t = coarseness(n, 2 * d);
        lemma_coarseness_bounds(n, 2 * d);
        lemma_pow2_unfold(t + 25);
        let p = pow2(t + 24);
        assert((2 * d) * p == d * (2 * p)) by (nonlinear_arith);
        if t > 0 {
            let q = pow2((t + 23) as nat);
            lemma_pow2_unfold(t + 24);
            assert((2 * d) * q == d * (2 * q)) by (nonlinear_arith);
        }
    }
}

proof fn lemma_round_at_most(a: nat, b: nat, k: nat)
    requires
        b > 0,
        a <= k * b,
    ensures
        round_half_even(a, b) <= k,
{
    let q = a / b;
    let r = a % b;
    vstd::arithmetic::div_mod::lemma_fundamental_div_mod(a as int, b as int);
    assert(q <= k) by (nonlinear_arith)
        requires
            b * q + r <= k * b,
            r >= 0,
            b > 0,
    ;
    if q == k {
        assert(r == 0) by (nonlinear_arith)
            requires
                b * q + r <= k * b,
                q == k,
                r >= 0,
        ;
    }
}

proof fn lemma_round_at_least(a: nat, b: nat, k: nat)
    requires
        b > 0,
        a >= k * b,
    ensures
        round_half_even(a, b) >= k,
{
    let q = a / b;
    let r = a % b;
    vstd::arithmetic::div_mod::lemma_fundamental_div_mod(a as int, b as int);
    assert(q >= k) by (nonlinear_arith)
        requires
            b * q + r >= k * b,
            r < b,
            b > 0,
    ;
}

/// Rounding does not pass over a representable number from below.
pub proof fn lemma_nearest_at_most(n: nat, d: nat, m: nat)
    requires
        d > 0,
        m < INFINITY_BITS,
        n <= d * units(m),
    ensures
        nearest(n, d) <= m,
{
    reveal(nearest);
    lemma_parts(m);
    let e = exponent_index(m);
    let k = significand(m);
    let s = coarseness(n, d);
    lemma_coarseness_bounds(n, d);
    lemma2_to64();
    lemma_pow2_pos(e);
    lemma_pow2_pos(s);
    let g = pow2(s);
    assert(d * g > 0) by (nonlinear_arith)
        requires
            d > 0,
            g > 0,
    ;
    if s > e {
        lemma_pow2_adds(24, e);
        if e + 24 < s + 23 {
            lemma_pow2_strictly_increases(e + 24, (s + 23) as nat);
        }
        let p = pow2(e);
        assert(d * (k * p) < d * (0x100_0000 * p)) by (nonlinear_arith)
            requires
                k < 0x100_0000,
                p > 0,
                d > 0,
        ;
        assert(d * pow2(e + 24) <= d * pow2((s + 23) as nat)) by (nonlinear_arith)
            requires
                pow2(e + 24) <= pow2((s + 23) as nat),
        ;
        assert(false);
    } else if s == e {
        assert(d * (k * g) == k * (d * g)) by (nonlinear_arith);
        lemma_round_at_most(n, d * g, k);
    } else {
        lemma_pow2_adds(24, s);
        assert(d * (0x100_0000 * g) == 0x100_0000 * (d * g)) by (nonlinear_arith);
        lemma_round_at_most(n, d * g, 0x100_0000);
    }
}

/// Rounding does not pass over a representable number from above.
pub proof fn lemma_nearest_at_least(n: nat, d: nat, m: nat)
    requires
        d > 0,
        m < INFINITY_BITS,
        n >= d * units(m),
    ensures
        nearest(n, d) >= m,
{
    reveal(nearest);
    lemma_parts(m);
    let e = exponent_index(m);
    let k = significand(m);
    let s = coarseness(n, d);
    lemma_coarseness_bounds(n, d);
    lemma2_to64();
    lemma_pow2_pos(e);
    lemma_pow2_pos(s);
    let g = pow2(s);
    let p = pow2(e);
    assert(d * g > 0) by (nonlinear_arith)
        requires
            d > 0,
            g > 0,
    ;
    if s < e {
        lemma_pow2_adds(23, e);
        assert(d * (k * p) >= d * (0x80_0000 * p)) by (nonlinear_arith)
            requires
                k >= 0x80_0000,
                d > 0,
                p > 0,
        ;
        lemma_coarseness_at_least(n, d, e);
        assert(false);
    } else if s == e {
        assert(d * (k * g) == k * (d * g)) by (nonlinear_arith);
        lemma_round_at_least(n, d * g, k);
    } else {
        lemma_pow2_adds(23, s);
        assert(d * (0x80_0000 * g) == 0x80_0000 * (d * g)) by (nonlinear_arith);
        lemma_round_at_least(n, d * g, 0x80_0000);
    }
}

/// A representable number is rounded to itself.
pub proof fn lemma_nearest_exact(n: nat, d: nat, m: nat)
    requires
        d > 0,
        m < INFINITY_BITS,
        n == d * units(m),
    ensures
        nearest(n, d) == m,
{
    lemma_nearest_at_most(n, d, m);
    lemma_nearest_at_least(n, d, m);
}

/// A larger pattern stands for a larger magnitude.
pub proof fn lemma_units_monotone(a: nat, b: nat)
    requires
        a <= b,
    ensures
        units(a) <= units(b),
{
    lemma_parts(a);
    lemma_parts(b);
    lemma2_to64();
    let e = exponent_index(a);
    let f = exponent_index(b);
    let k = significand(a);
    let l = significand(b);
    lemma_pow2_pos(e);
    lemma_pow2_pos(f);
    if e == f {
        let p = pow2(e);
        assert(k * p <= l * p) by (nonlinear_arith)
            requires
                k <= l,
        ;
    } else {
        assert(e < f);
        lemma_pow2_adds(24, e);
        lemma_pow2_adds(23, f);
        if e + 24 < f + 23 {
            lemma_pow2_strictly_increases(e + 24, (f + 23) as nat);
        }
        let p = pow2(e);
        let q = pow2(f);
        assert(k * p <= 0x100_0000 * p) by (nonlinear_arith)
            requires
                k <= 0x100_0000,
        ;
        assert(l * q >= 0x80_0000 * q) by (nonlinear_arith)
            requires
                l >= 0x80_0000,
        ;
    }
}

proof fn lemma_round_monotone(a: nat, c: nat, b: nat)
    requires
        a <= c,
        b > 0,
    ensures
        round_half_even(a, b) <= round_half_even(c, b),
{
    vstd::arithmetic::div_mod::lemma_fundamental_div_mod(a as int, b as int);
    vstd::arithmetic::div_mod::lemma_fundamental_div_mod(c as int, b as int);
    let qa = a / b;
    let qc = c / b;
    let ra = a % b;
    let rc = c % b;
    assert(qa <= qc) by (nonlinear_arith)
        requires
            b * qa + ra <= b * qc + rc,
            0 <= ra,
            rc < b,
            b > 0,
    ;
    if qa == qc {
        assert(ra <= rc);
    }
}

/// Rounding keeps the order.
pub proof fn lemma_nearest_monotone(a: nat, c: nat, d: nat)
    requires
        a <= c,
        d > 0,
    ensures
        nearest(a, d) <= nearest(c, d),
{
    reveal(nearest);
    let s = coarseness(a, d);
    let t = coarseness(c, d);
    lemma2_to64();
    lemma_coarseness_bounds(a, d);
    lemma_coarseness_bounds(c, d);
    lemma_pow2_pos(s);
    lemma_pow2_pos(t);
    let v = pow2(s);
    let w = pow2(t);
    assert(d * v > 0) by (nonlinear_arith)
        requires
            d > 0,
            v > 0,
    ;
    assert(d * w > 0) by (nonlinear_arith)
        requires
            d > 0,
            w > 0,
    ;
    lemma_pow2_adds(24, s);
    lemma_pow2_adds(24, t);
    if s > t {
        // a >= d * 2^(s + 23) >= d * 2^(t + 24) > c
        if s > t + 1 {
            lemma_pow2_strictly_increases(t + 24, (s + 23) as nat);
        }
        assert(d * pow2(t + 24) <= d * pow2((s + 23) as nat)) by (nonlinear_arith)
            requires
                pow2(t + 24) <= pow2((s + 23) as nat),
        ;
        assert(false);
    } else if s == t {
        lemma_round_monotone(a, c, d * v);
    } else {
        lemma_pow2_adds(23, t);
        assert(d * (0x100_0000 * v) == 0x100_0000 * (d * v)) by (nonlinear_arith);
        assert(d * (0x80_0000 * w) == 0x80_0000 * (d * w)) by (nonlinear_arith);
        lemma_round_at_most(a, d * v, 0x100_0000);
        lemma_round_at_least(c, d * w, 0x80_0000);
    }
}

/// A pattern with `q` steps of `2^s`, counted from zero or from the hidden bit on.
proof fn lemma_units_of(s: nat, q: nat)
    requires
        q <= SIGNIFICAND_LIMIT,
        s > 0 ==> q >= HIDDEN_BIT,
    ensures
        units(s * HIDDEN_BIT as nat + q) == q * pow2(s),
{
    lemma2_to64();
    let bits = s * HIDDEN_BIT as nat + q;
    if q < HIDDEN_BIT {
        assert(q * pow2(0) == q);
    } else if q < SIGNIFICAND_LIMIT {
        assert(bits / HIDDEN_BIT as nat == s + 1);
        assert(bits % HIDDEN_BIT as nat == q - HIDDEN_BIT);
    } else {
        assert(bits / HIDDEN_BIT as nat == s + 2);
        assert(bits % HIDDEN_BIT as nat == 0);
        lemma_pow2_unfold(s + 1);
        let w = pow2(s);
        assert(HIDDEN_BIT as nat * (2 * w) == SIGNIFICAND_LIMIT as nat * w) by (nonlinear_arith)
            requires
                2 * HIDDEN_BIT == SIGNIFICAND_LIMIT,
        ;
    }
}

/// The nearest number is half a step away at most.
pub proof fn lemma_nearest_error(n: nat, d: nat)
    requires
        d > 0,
        nearest(n, d) < INFINITY_BITS,
    ensures
        ({
            let v = units(nearest(n, d));
            let step = d * pow2(coarseness(n, d));
            -step <= 2 * (v * d - n) <= step
        }),
{
    reveal(nearest);
    let s = coarseness(n, d);
    let w = pow2(s);
    let b = d * w;
    lemma_pow2_pos(s);
    lemma_coarseness_bounds(n, d);
    lemma2_to64();
    lemma_pow2_adds(s, 24);
    assert(b > 0) by (nonlinear_arith)
        requires
            b == d * w,
            d > 0,
            w > 0,
    ;
    vstd::arithmetic::div_mod::lemma_fundamental_div_mod(n as int, b as int);
    let k = n / b;
    let r = n % b;
    let q = round_half_even(n, b);
    assert(k < SIGNIFICAND_LIMIT) by (nonlinear_arith)
        requires
            n == b * k + r,
            r >= 0,
            n < d * (w * SIGNIFICAND_LIMIT),
            b == d * w,
            b > 0,
    ;
    if s > 0 {
        lemma_pow2_adds(s, 23);
        assert(k >= HIDDEN_BIT) by (nonlinear_arith)
            requires
                n == b * k + r,
                r < b,
                n >= d * (w * HIDDEN_BIT),
                b == d * w,
                b > 0,
        ;
    }
    lemma_units_of(s, q);
    assert((q * w) * d == q * b) by (nonlinear_arith)
        requires
            b == d * w,
    ;
    assert((k + 1) * b == k * b + b) by (nonlinear_arith);
    assert(k * b == b * k) by (nonlinear_arith);
}

/// A larger pattern stands for more, by at least one unit.
pub proof fn lemma_units_grow(a: nat, b: nat)
    requires
        a < b,
    ensures
        units(a) < units(b),
{
    lemma_units_monotone(a + 1, b);
    lemma_parts(a);
    let s = exponent_index(a);
    let k = significand(a);
    lemma_pow2_pos(s);
    lemma_units_of(s, k);
    lemma_units_of(s, k + 1);
    let w = pow2(s);
    assert((k + 1) * w == k * w + w) by (nonlinear_arith);
}

/// How far `u / 1` is from `n / d`, in parts of `d`.
pub open spec fn apart(u: nat, n: nat, d: nat) -> int {
    if u * d <= n {
        n - u * d
    } else {
        u * d - n
    }
}

/// Rounding finds the closest: no pattern stands for a magnitude closer to `n / d`, and of
/// two that are equally close the even one is taken. Infinity counts as what the pattern
/// behind the largest finite one would stand for.
pub proof fn law_nearest_is_the_closest(n: nat, d: nat, m: nat)
    requires
        d > 0,
        m <= INFINITY_BITS,
    ensures
        nearest(n, d) <= INFINITY_BITS,
        apart(units(nearest(n, d)), n, d) <= apart(units(m), n, d),
        m != nearest(n, d) && apart(units(m), n, d) == apart(units(nearest(n, d)), n, d)
            ==> nearest(n, d) % 2 == 0,
{
    reveal(nearest);
    let s = coarseness(n, d);
    let w = pow2(s);
    let b = d * w;
    lemma_pow2_pos(s);
    lemma_coarseness_bounds(n, d);
    lemma2_to64();
    lemma_pow2_adds(s, 24);
    assert(b > 0) by (nonlinear_arith)
        requires
            b == d * w,
            d > 0,
            w > 0,
    ;
    vstd::arithmetic::div_mod::lemma_fundamental_div_mod(n as int, b as int);
    let k = n / b;
    let r = n % b;
    let q = round_half_even(n, b);
    assert(k < SIGNIFICAND_LIMIT) by (nonlinear_arith)
        requires
            n == b * k + r,
            r >= 0,
            n < d * (w * SIGNIFICAND_LIMIT),
            b == d * w,
            b > 0,
    ;
    if s > 0 {
        lemma_pow2_adds(s, 23);
        assert(k >= HIDDEN_BIT) by (nonlinear_arith)
            requires
                n == b * k + r,
                r < b,
                n >= d * (w * HIDDEN_BIT),
                b == d * w,
                b > 0,
        ;
    }
    let low = s * HIDDEN_BIT as nat + k;
    lemma_units_of(s, k);
    lemma_units_of(s, k + 1);
    assert((k * w) * d == b * k) by (nonlinear_arith)
        requires
            b == d * w,
    ;
    assert(((k + 1) * w) * d == b * k + b) by (nonlinear_arith)
        requires
            b == d * w,
    ;
    let u = units(m);
    if m <= low {
        lemma_units_monotone(m, low);
        assert(u * d <= (k * w) * d) by (nonlinear_arith)
            requires
                u <= k * w,
        ;
        if m < low {
            lemma_units_grow(m, low);
            assert(u * d < (k * w) * d) by (nonlinear_arith)
                requires
                    u < k * w,
                    d > 0,
            ;
        }
    } else {
        lemma_units_monotone(low + 1, m);
        assert(u * d >= ((k + 1) * w) * d) by (nonlinear_arith)
            requires
                u >= (k + 1) * w,
        ;
        if m > low + 1 {
            lemma_units_grow(low + 1, m);
            assert(u * d > ((k + 1) * w) * d) by (nonlinear_arith)
                requires
                    u > (k + 1) * w,
                    d > 0,
            ;
        }
    }
    let top = INFINITY_BITS as nat;
    if s * HIDDEN_BIT as nat + q > top {
        lemma_units_monotone(m, top);
        lemma_units_monotone(top, low);
        let t = units(top);
        assert(t * d <= (k * w) * d) by (nonlinear_arith)
            requires
                t <= k * w,
        ;
        assert(u * d <= t * d) by (nonlinear_arith)
            requires
                u <= t,
        ;
    }
}

} // verus!
