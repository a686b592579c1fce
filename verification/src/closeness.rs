//! Requests whose numbers are next to each other have vectors that are close.
//!
//! A numeral that is read in two steps, as a number of double precision and then as one of
//! single precision, may come out next to the number that it denotes.

use vstd::prelude::*;
use vstd::arithmetic::div_mod::{
    lemma_div_denominator, lemma_div_is_ordered, lemma_fundamental_div_mod,
    lemma_fundamental_div_mod_converse,
};
use vstd::arithmetic::power2::*;

use crate::layout::DIMS;
use crate::payload::FraudRequest;
use crate::rounding::{
    coarseness, exponent_index, lemma_coarseness_bounds, lemma_nearest_at_least,
    lemma_nearest_at_most, lemma_nearest_error, lemma_nearest_exact, lemma_parts,
    lemma_units_monotone, nearest, significand, units, HIDDEN_BIT, INFINITY_BITS,
    SIGNIFICAND_LIMIT,
};
use crate::single::{lemma_integer, lemma_one, Single, ONE};
use crate::vector::{comparable_average, components, features_of, hundredths, share};

verus! {

/// Whether two numbers are the same, or both finite with no other number between them.
pub open spec fn is_next(x: Single, y: Single) -> bool {
    x == y || (x.is_finite() && y.is_finite() && -1 <= x.rank() - y.rank() <= 1)
}

/// Whether two numbers differ by no more than 1/100000. Values are in units of 2^-149.
pub open spec fn is_close(x: Single, y: Single) -> bool {
    let p = pow2(149) as int;
    -p <= 100_000 * (x.value() - y.value()) <= p
}

/// Whether two requests are the same but for numbers that are next to each other.
pub open spec fn are_next(r: FraudRequest, t: FraudRequest) -> bool {
    &&& is_next(r.transaction.amount, t.transaction.amount)
    &&& r.transaction.installments == t.transaction.installments
    &&& r.transaction.requested_at == t.transaction.requested_at
    &&& is_next(r.customer.avg_amount, t.customer.avg_amount)
    &&& r.customer.tx_count_24h == t.customer.tx_count_24h
    &&& r.customer.known_merchants == t.customer.known_merchants
    &&& r.merchant.id == t.merchant.id
    &&& r.merchant.mcc == t.merchant.mcc
    &&& is_next(r.merchant.avg_amount, t.merchant.avg_amount)
    &&& r.terminal.is_online == t.terminal.is_online
    &&& r.terminal.card_present == t.terminal.card_present
    &&& is_next(r.terminal.km_from_home, t.terminal.km_from_home)
    &&& match (r.last_transaction, t.last_transaction) {
        (Some(a), Some(b)) => a.timestamp == b.timestamp && is_next(
            a.km_from_current,
            b.km_from_current,
        ),
        (None, None) => true,
        _ => false,
    }
}

/// 2^-23, in units of 2^-149.
pub open spec fn grain() -> int {
    pow2(126) as int
}

pub proof fn lemma_grain()
    ensures
        grain() > 0,
        pow2(149) == 8_388_608 * grain(),
        2 * pow2(125) == grain(),
        pow2(129) == 8 * grain(),
        pow2(150) == 2 * pow2(149),
        pow2(154) == 32 * pow2(149),
        pow2(142) == 65_536 * grain(),
{
    lemma2_to64();
    lemma_pow2_pos(126);
    lemma_pow2_adds(23, 126);
    lemma_pow2_unfold(126);
    lemma_pow2_adds(3, 126);
    lemma_pow2_unfold(150);
    lemma_pow2_adds(5, 149);
    lemma_pow2_adds(16, 126);
}

/// A magnitude pattern held at one, in units of 2^-149.
pub open spec fn clip(m: nat) -> int {
    if m > ONE {
        pow2(149) as int
    } else {
        units(m) as int
    }
}

/// The smaller one.
pub open spec fn least(a: int, b: int) -> int {
    if a < b {
        a
    } else {
        b
    }
}

pub proof fn lemma_clip(m: nat)
    ensures
        clip(m) == least(units(m) as int, pow2(149) as int),
{
    lemma_one();
    if m > ONE {
        lemma_units_monotone(ONE as nat, m);
    } else {
        lemma_units_monotone(m, ONE as nat);
    }
}

pub proof fn lemma_nearest_range(n: nat, d: nat)
    ensures
        nearest(n, d) <= INFINITY_BITS,
{
    reveal(nearest);
}

/// Pattern of 2^k, where `bits` holds `k`.
pub proof fn lemma_power_pattern(bits: nat, k: nat)
    requires
        bits == (k + 1) * HIDDEN_BIT as nat,
    ensures
        units(bits) == pow2(23) * pow2(k),
{
    lemma2_to64();
    assert(bits / HIDDEN_BIT as nat == k + 1);
    assert(bits % HIDDEN_BIT as nat == 0);
}

/// What lies below a power of two is rounded by no more than `2^(k - 1)`.
pub proof fn lemma_absolute_error(n: nat, d: nat, k: nat)
    requires
        d > 0,
        k > 0,
        k < 253,
        n < d * pow2(k + 24),
    ensures
        ({
            let u = units(nearest(n, d)) as int;
            let e = pow2((k - 1) as nat) as int;
            &&& -(e * d) <= u * d - n <= e * d
            &&& -e <= u - n as int / d as int <= e
        }),
{
    let s = coarseness(n, d);
    lemma_coarseness_bounds(n, d);
    lemma2_to64();
    lemma_pow2_adds(23, (k + 1) as nat);
    let bits = (k + 2) * HIDDEN_BIT as nat;
    lemma_power_pattern(bits, (k + 1) as nat);
    lemma_nearest_at_most(n, d, bits);
    lemma_nearest_error(n, d);
    if s > k {
        let w = pow2((s + 23) as nat) as int;
        let x = pow2(k + 24) as int;
        if s + 23 > k + 24 {
            lemma_pow2_strictly_increases(k + 24, (s + 23) as nat);
        }
        assert(d * w >= d * x) by (nonlinear_arith)
            requires
                w >= x,
                d > 0,
        ;
        assert(false);
    }
    if s < k {
        lemma_pow2_strictly_increases(s, k);
    }
    lemma_pow2_unfold(k);
    let u = units(nearest(n, d)) as int;
    let e = pow2((k - 1) as nat) as int;
    let w = pow2(s) as int;
    assert(-(e * d) <= u * d - n <= e * d) by (nonlinear_arith)
        requires
            -(d * w) <= 2 * (u * d - n) <= d * w,
            w <= 2 * e,
            d > 0,
    ;
    assert((u - e) * d == u * d - e * d) by (nonlinear_arith);
    assert((u + e) * d == u * d + e * d) by (nonlinear_arith);
    lemma_quotient_between(n as int, d as int, u - e, u + e);
}

/// A quotient between two integers.
pub proof fn lemma_quotient_between(n: int, d: int, low: int, high: int)
    requires
        d > 0,
        low * d <= n <= high * d,
    ensures
        low <= n / d <= high,
{
    lemma_fundamental_div_mod(n, d);
    let q = n / d;
    let r = n % d;
    assert(low <= q) by (nonlinear_arith)
        requires
            n == d * q + r,
            r < d,
            low * d <= n,
            d > 0,
    ;
    assert(q <= high) by (nonlinear_arith)
        requires
            n == d * q + r,
            0 <= r,
            n <= high * d,
            d > 0,
    ;
}

/// A quotient that is rounded and held at one.
pub proof fn lemma_clipped_quotient(n: nat, d: nat)
    requires
        d > 0,
    ensures
        -grain() <= clip(nearest(n, d)) - least(n as int / d as int, pow2(149) as int) <= grain(),
{
    let p = pow2(149) as int;
    let q = n as int / d as int;
    let m = nearest(n, d);
    lemma_grain();
    lemma_clip(m);
    lemma2_to64();
    if n < d * pow2(150) {
        lemma_absolute_error(n, d, 126);
    } else {
        let two: nat = 0x4000_0000;
        lemma_power_pattern(two, 127);
        lemma_pow2_adds(23, 127);
        lemma_nearest_at_least(n, d, two);
        assert(2 * p * d == d * (2 * p)) by (nonlinear_arith);
        lemma_fundamental_div_mod(n as int, d as int);
        assert(q >= p) by (nonlinear_arith)
            requires
                n == d * q + n as int % d as int,
                (n as int % d as int) < d,
                n >= d * (2 * p),
                d > 0,
                p > 0,
        ;
    }
}

/// The positive part of a number.
pub open spec fn positive(x: Single) -> nat {
    if x.is_negative() {
        0
    } else {
        units(x.magnitude())
    }
}

/// What a share is worth.
pub proof fn lemma_share_value(x: Single, limit: nat)
    requires
        !x.is_nan(),
        0 < limit < SIGNIFICAND_LIMIT,
    ensures
        share(x, limit).value() == clip(nearest(positive(x) * pow2(149), limit * pow2(149))),
{
    let p = pow2(149);
    let d = limit * p;
    let l = Single::integer(limit);
    let q = x.quotient(l);
    lemma_integer(limit);
    lemma_one();
    lemma_pow2_pos(149);
    lemma_parts(0);
    lemma2_to64();
    assert(d > 0) by (nonlinear_arith)
        requires
            d == limit * p,
            limit > 0,
            p > 0,
    ;
    lemma_nearest_range(units(x.magnitude()) * p, d);
    assert(0 * p == 0) by (nonlinear_arith);
    assert(0 * pow2(0) == 0);
    lemma_nearest_exact(0, d, 0);
    if x.is_infinite() {
        if !x.is_negative() {
            let n = units(x.magnitude()) * p;
            lemma_power_pattern(INFINITY_BITS as nat, 254);
            lemma_pow2_adds(23, 254);
            lemma_pow2_adds(128, 149);
            lemma_pow2_strictly_increases(25, 128);
            let a = pow2(128);
            assert(n >= d * (2 * p)) by (nonlinear_arith)
                requires
                    n == (a * p) * p,
                    d == limit * p,
                    a >= 2 * limit,
            ;
            let two: nat = 0x4000_0000;
            lemma_power_pattern(two, 127);
            lemma_pow2_adds(23, 127);
            lemma_pow2_unfold(150);
            lemma_nearest_at_least(n, d, two);
        }
    } else if x.is_zero() {
        assert(q == Single::of(x.is_negative(), 0));
    } else {
        let m = nearest(units(x.magnitude()) * p, d);
        assert(q == Single::of(x.is_negative(), m));
    }
}

/// Numbers next to each other: the larger one is off by a rounding at most.
spec fn is_step(a: int, b: int) -> bool {
    a <= b && 8_388_608 * (b - a) <= 8_388_608 + a
}

/// The next pattern.
proof fn lemma_next_pattern(m: nat)
    ensures
        is_step(units(m) as int, units(m + 1) as int),
{
    lemma2_to64();
    lemma_parts(m);
    lemma_parts(m + 1);
    let e = exponent_index(m);
    let k = significand(m);
    let w = pow2(e) as int;
    lemma_pow2_pos(e);
    if m + 1 < HIDDEN_BIT {
        assert(units(m + 1) == m + 1 && units(m) == m);
    } else if m < HIDDEN_BIT {
        assert((m + 1) / HIDDEN_BIT as nat == 1);
        assert(units(m) == m);
        assert(exponent_index(m + 1) == 0);
        assert(significand(m + 1) == HIDDEN_BIT);
        assert(HIDDEN_BIT as nat * pow2(0) == HIDDEN_BIT);
    } else {
        if k + 1 < SIGNIFICAND_LIMIT {
            assert((m + 1) / HIDDEN_BIT as nat == m / HIDDEN_BIT as nat);
            assert((m + 1) % HIDDEN_BIT as nat == m % HIDDEN_BIT as nat + 1);
            assert(units(m + 1) == (k + 1) * w);
        } else {
            assert((m + 1) / HIDDEN_BIT as nat == m / HIDDEN_BIT as nat + 1);
            assert((m + 1) % HIDDEN_BIT as nat == 0);
            lemma_pow2_unfold(e + 1);
            assert(units(m + 1) == HIDDEN_BIT as nat * pow2(e + 1));
            assert(HIDDEN_BIT * (2 * w) == (k + 1) * w) by (nonlinear_arith)
                requires
                    k + 1 == 2 * HIDDEN_BIT,
            ;
        }
        assert((k + 1) * w == k * w + w) by (nonlinear_arith);
        assert(8_388_608 * w <= k * w) by (nonlinear_arith)
            requires
                k >= 8_388_608,
                w > 0,
        ;
    }
}

proof fn lemma_next_values(x: Single, y: Single)
    requires
        is_next(x, y),
    ensures
        is_step(positive(x) as int, positive(y) as int) || is_step(
            positive(y) as int,
            positive(x) as int,
        ),
{
    lemma_parts(0);
    lemma2_to64();
    assert(0 * pow2(0) == 0);
    if x.rank() >= 0 && y.rank() >= 0 {
        if x.rank() < y.rank() {
            lemma_next_pattern(x.magnitude());
        } else if y.rank() < x.rank() {
            lemma_next_pattern(y.magnitude());
        }
    }
}

/// A step is small within the limit.
proof fn lemma_step_share(a: int, b: int, limit: int)
    requires
        0 <= a,
        is_step(a, b),
        0 < limit,
    ensures
        ({
            let p = pow2(149) as int;
            let x = least(a / limit, p);
            let y = least(b / limit, p);
            x <= y <= x + grain() + 2
        }),
{
    let p = pow2(149) as int;
    let g = grain();
    lemma_grain();
    lemma_div_is_ordered(a, b, limit);
    if a / limit < p {
        lemma_fundamental_div_mod(a, limit);
        let q = a / limit;
        let r = a % limit;
        assert(a < limit * p) by (nonlinear_arith)
            requires
                a == limit * q + r,
                r < limit,
                q < p,
                limit > 0,
        ;
        assert(b <= (q + g + 2) * limit) by (nonlinear_arith)
            requires
                a == limit * q + r,
                r < limit,
                a < limit * p,
                8_388_608 * (b - a) <= 8_388_608 + a,
                p == 8_388_608 * g,
                limit > 0,
        ;
        assert(0 * limit <= b) by (nonlinear_arith)
            requires
                b >= 0,
        ;
        lemma_quotient_between(b, limit, 0, q + g + 2);
    }
}

/// `a * p / (limit * p)`.
pub proof fn lemma_cancel(a: nat, limit: nat, p: nat)
    requires
        limit > 0,
        p > 0,
    ensures
        (a * p) as int / (limit * p) as int == a as int / limit as int,
{
    lemma_fundamental_div_mod(a as int, limit as int);
    let q = a as int / limit as int;
    let r = a as int % limit as int;
    assert(a * p == q * (limit * p) + r * p) by (nonlinear_arith)
        requires
            a == limit * q + r,
    ;
    assert(0 <= r * p < limit * p) by (nonlinear_arith)
        requires
            0 <= r < limit,
            p > 0,
    ;
    lemma_fundamental_div_mod_converse((a * p) as int, (limit * p) as int, q, r * p);
}

/// Shares of numbers next to each other are close.
proof fn lemma_close_shares(x: Single, y: Single, limit: nat)
    requires
        is_next(x, y),
        0 < limit < SIGNIFICAND_LIMIT,
    ensures
        is_close(share(x, limit), share(y, limit)),
{
    let p = pow2(149);
    let a = positive(x);
    let b = positive(y);
    lemma_grain();
    if x != y {
        lemma_share_value(x, limit);
        lemma_share_value(y, limit);
        lemma_next_values(x, y);
        assert(limit * p > 0) by (nonlinear_arith)
            requires
                limit > 0,
                p > 0,
        ;
        lemma_clipped_quotient(a * p, limit * p);
        lemma_clipped_quotient(b * p, limit * p);
        lemma_cancel(a, limit, p);
        lemma_cancel(b, limit, p);
        if is_step(a as int, b as int) {
            lemma_step_share(a as int, b as int, limit as int);
        } else {
            lemma_step_share(b as int, a as int, limit as int);
        }
    }
}

/// What the amount is worth against the average, tenfold at most.
pub open spec fn ratio(a: int, b: int) -> int {
    least((a * pow2(149)) / (10 * b), pow2(149) as int)
}

/// The amount against the average, in two rounded steps and held at one.
pub proof fn lemma_ratio(a: nat, b: nat)
    requires
        b > 0,
    ensures
        ({
            let p = pow2(149);
            let u = units(nearest(a * p, b));
            let c = clip(nearest(u * p, 10 * p));
            -4 * grain() <= c - ratio(a as int, b as int) <= 4 * grain()
        }),
{
    let p = pow2(149);
    let n = a * p;
    let u = units(nearest(n, b));
    let q = n as int / b as int;
    lemma_grain();
    lemma2_to64();
    lemma_clipped_quotient(u * p, 10 * p);
    lemma_cancel(u, 10, p);
    lemma_div_denominator(n as int, b as int, 10);
    assert(b * 10 == 10 * b);
    if n < b * pow2(154) {
        lemma_absolute_error(n, b, 130);
    } else {
        let big: nat = 0x4200_0000;
        lemma_power_pattern(big, 131);
        lemma_pow2_adds(23, 131);
        lemma_nearest_at_least(n, b, big);
        lemma_units_monotone(big, nearest(n, b));
        lemma_fundamental_div_mod(n as int, b as int);
        assert(q >= 31 * p) by (nonlinear_arith)
            requires
                n == b * q + n as int % b as int,
                (n as int % b as int) < b,
                n >= b * (32 * p),
                b > 0,
                p > 0,
        ;
    }
}

/// A step of the amount.
proof fn lemma_step_amount(a: int, c: int, b: int)
    requires
        0 <= a,
        is_step(a, c),
        pow2(149) <= 128 * b,
    ensures
        ratio(a, b) <= ratio(c, b) <= ratio(a, b) + 2 * grain() + 20,
{
    let p = pow2(149) as int;
    let g = grain();
    lemma_grain();
    let d = 10 * b;
    let x = (a * p) / d;
    assert(a * p <= c * p) by (nonlinear_arith)
        requires
            a <= c,
            p > 0,
    ;
    lemma_div_is_ordered(a * p, c * p, d);
    if x < p {
        lemma_fundamental_div_mod(a * p, d);
        let r = (a * p) % d;
        assert(a < d) by (nonlinear_arith)
            requires
                a * p == d * x + r,
                r < d,
                x < p,
                d > 0,
                p > 0,
        ;
        assert(c * p <= (x + 2 * g + 20) * d) by (nonlinear_arith)
            requires
                a * p == d * x + r,
                r < d,
                a < d,
                8_388_608 * (c - a) <= 8_388_608 + a,
                p == 8_388_608 * g,
                p <= 128 * b,
                d == 10 * b,
                g > 0,
                b > 0,
        {
            assert((c - a) * p <= p + d * g);
            assert(c * p == a * p + (c - a) * p);
            assert(p <= 13 * d);
            assert((x + 2 * g + 20) * d == d * x + 2 * (d * g) + 20 * d);
        }
        assert(0 <= c * p) by (nonlinear_arith)
            requires
                c >= 0,
                p > 0,
        ;
        lemma_quotient_between(c * p, d, 0, x + 2 * g + 20);
    }
}

/// A step of the average.
proof fn lemma_step_average(a: int, b: int, c: int)
    requires
        0 <= a,
        is_step(b, c),
        pow2(149) <= 128 * b,
    ensures
        ratio(a, c) <= ratio(a, b) <= ratio(a, c) + 2 * grain() + 200,
{
    let p = pow2(149) as int;
    let g = grain();
    lemma_grain();
    let n = a * p;
    let y = n / (10 * c);
    assert(n >= 0) by (nonlinear_arith)
        requires
            n == a * p,
            a >= 0,
            p > 0,
    ;
    lemma_fundamental_div_mod(n, 10 * c);
    let r = n % (10 * c);
    assert(y >= 0) by (nonlinear_arith)
        requires
            n == (10 * c) * y + r,
            r < 10 * c,
            n >= 0,
            c > 0,
    ;
    assert(y * (10 * b) <= n) by (nonlinear_arith)
        requires
            n == (10 * c) * y + r,
            0 <= r,
            b <= c,
            0 <= y,
    ;
    lemma_fundamental_div_mod(n, 10 * b);
    let x = n / (10 * b);
    let t = n % (10 * b);
    assert(y <= x) by (nonlinear_arith)
        requires
            n == (10 * b) * x + t,
            t < 10 * b,
            y * (10 * b) <= n,
            b > 0,
    ;
    if y < p {
        assert(n <= (y + 2 * g + 200) * (10 * b)) by (nonlinear_arith)
            requires
                n == (10 * c) * y + r,
                r < 10 * c,
                0 <= y < p,
                8_388_608 * (c - b) <= 8_388_608 + b,
                b <= c,
                p == 8_388_608 * g,
                p <= 128 * b,
                b > 0,
                g > 0,
        {
            assert(n <= (10 * c) * (y + 1));
            assert((y + 1) * (c - b) <= p * (c - b));
            assert(p * (c - b) <= p + b * g);
            assert((10 * c) * (y + 1) == 10 * (b * (y + 1)) + 10 * ((y + 1) * (c - b)));
            assert(10 * (b * (y + 1)) + 10 * (p + b * g) <= (y + 2 * g + 200) * (10 * b)) by {
                assert((y + 2 * g + 200) * (10 * b) == 10 * (b * y) + 20 * (b * g) + 2_000 * b);
                assert(b * (y + 1) == b * y + b);
            }
        }
        assert(0 * (10 * b) <= n);
        lemma_quotient_between(n, 10 * b, 0, y + 2 * g + 200);
    }
}

/// One hundredth is more than 1/128.
pub proof fn lemma_hundredth()
    ensures
        ({
            let h = hundredths(1);
            &&& h.is_finite()
            &&& !h.is_negative()
            &&& pow2(149) <= 128 * units(h.magnitude())
        }),
{
    let p = pow2(149);
    let n = p * p;
    let d = 100 * p;
    let bits: nat = 0x3c00_0000;
    lemma_grain();
    lemma2_to64();
    lemma_integer(1);
    lemma_integer(100);
    lemma_one();
    lemma_power_pattern(bits, 119);
    lemma_pow2_adds(23, 119);
    let w = pow2(142);
    assert(n >= d * w) by (nonlinear_arith)
        requires
            n == p * p,
            d == 100 * p,
            p == 128 * w,
    ;
    assert(n <= d * p) by (nonlinear_arith)
        requires
            n == p * p,
            d == 100 * p,
    ;
    lemma_nearest_at_least(n, d, bits);
    lemma_nearest_at_most(n, d, ONE as nat);
    lemma_units_monotone(bits, nearest(n, d));
    assert(1 * p == p);
}

/// The averages that amounts are compared to are next to each other, too.
pub proof fn lemma_next_averages(x: Single, y: Single)
    requires
        is_next(x, y),
    ensures
        is_next(comparable_average(x), comparable_average(y)),
        !comparable_average(x).is_nan(),
        !comparable_average(x).is_negative(),
        pow2(149) <= 128 * units(comparable_average(x).magnitude()),
        !comparable_average(y).is_negative(),
        pow2(149) <= 128 * units(comparable_average(y).magnitude()),
{
    let h = hundredths(1);
    lemma_hundredth();
    if h.less(x) {
        lemma_units_monotone(h.magnitude(), x.magnitude());
    }
    if h.less(y) {
        lemma_units_monotone(h.magnitude(), y.magnitude());
    }
}

/// The amount divided by the average.
pub proof fn lemma_amount_value(x: Single, avg: Single)
    requires
        x.is_finite(),
        avg.is_finite(),
        !avg.is_negative(),
        units(avg.magnitude()) > 0,
    ensures
        !x.quotient(avg).is_nan(),
        positive(x.quotient(avg)) == units(
            nearest(positive(x) * pow2(149), units(avg.magnitude())),
        ),
{
    let p = pow2(149);
    let b = units(avg.magnitude());
    lemma_parts(0);
    lemma2_to64();
    assert(0 * p == 0) by (nonlinear_arith);
    assert(0 * pow2(0) == 0);
    lemma_nearest_exact(0, b, 0);
    lemma_nearest_range(units(x.magnitude()) * p, b);
    assert(!avg.is_zero());
    if !x.is_zero() {
        assert(x.quotient(avg) == Single::of(
            x.is_negative(),
            nearest(units(x.magnitude()) * p, b),
        ));
    }
}

/// Finite amounts against finite averages are close.
proof fn lemma_close_finite_ratios(x: Single, y: Single, m: Single, n: Single)
    requires
        is_next(x, y),
        is_next(m, n),
        x.is_finite(),
        m.is_finite(),
        !m.is_negative(),
        !n.is_negative(),
        pow2(149) <= 128 * units(m.magnitude()),
        pow2(149) <= 128 * units(n.magnitude()),
    ensures
        is_close(share(x.quotient(m), 10), share(y.quotient(n), 10)),
{
    let p = pow2(149);
    let a = positive(x);
    let c = positive(y);
    let b = units(m.magnitude());
    let d = units(n.magnitude());
    lemma_grain();
    lemma_amount_value(x, m);
    lemma_amount_value(y, n);
    lemma_share_value(x.quotient(m), 10);
    lemma_share_value(y.quotient(n), 10);
    lemma_ratio(a, b);
    lemma_ratio(c, d);
    lemma_next_values(x, y);
    lemma_next_values(m, n);
    if is_step(a as int, c as int) {
        lemma_step_amount(a as int, c as int, b as int);
    } else {
        lemma_step_amount(c as int, a as int, b as int);
    }
    if is_step(b as int, d as int) {
        lemma_step_average(c as int, b as int, d as int);
    } else {
        lemma_step_average(c as int, d as int, b as int);
    }
    lemma_pow2_strictly_increases(32, 126);
    lemma2_to64();
}

/// The amounts against the averages are close.
proof fn lemma_close_ratios(x: Single, y: Single, avg: Single, other: Single)
    requires
        is_next(x, y),
        is_next(avg, other),
    ensures
        is_close(
            share(x.quotient(comparable_average(avg)), 10),
            share(y.quotient(comparable_average(other)), 10),
        ),
{
    let m = comparable_average(avg);
    let n = comparable_average(other);
    lemma_pow2_pos(149);
    lemma_next_averages(avg, other);
    lemma_parts(0);
    lemma2_to64();
    assert(0 * pow2(0) == 0);
    if x == y && (m == n || !x.is_finite()) {
        assert(x.quotient(m) == y.quotient(n));
    } else if m.is_infinite() {
        assert(x.quotient(m) == Single::of(x.is_negative(), 0));
        assert(y.quotient(m) == Single::of(y.is_negative(), 0));
        lemma_share_value(x.quotient(m), 10);
        lemma_share_value(y.quotient(m), 10);
    } else {
        lemma_close_finite_ratios(x, y, m, n);
    }
}

/// Requests that are the same but for numbers next to each other have vectors that differ by
/// no more than 1/100000 in any component.
#[verifier::rlimit(40)]
pub proof fn law_next_requests_have_close_vectors(r: FraudRequest, t: FraudRequest)
    requires
        are_next(r, t),
    ensures
        components(features_of(r)).len() == DIMS,
        components(features_of(t)).len() == DIMS,
        forall|d: int|
            0 <= d < DIMS ==> is_close(
                #[trigger] components(features_of(r))[d],
                components(features_of(t))[d],
            ),
{
    let v = components(features_of(r));
    let w = components(features_of(t));
    lemma_pow2_pos(149);
    lemma_close_shares(r.transaction.amount, t.transaction.amount, 10_000);
    lemma_close_ratios(
        r.transaction.amount,
        t.transaction.amount,
        r.customer.avg_amount,
        t.customer.avg_amount,
    );
    lemma_close_shares(r.terminal.km_from_home, t.terminal.km_from_home, 1_000);
    lemma_close_shares(r.merchant.avg_amount, t.merchant.avg_amount, 10_000);
    if let Some(last) = r.last_transaction {
        lemma_close_shares(
            last.km_from_current,
            t.last_transaction.unwrap().km_from_current,
            1_000,
        );
    }
    assert forall|d: int| 0 <= d < DIMS implies is_close(#[trigger] v[d], w[d]) by {
        if d != 0 && d != 2 && d != 6 && d != 7 && d != 13 {
            assert(v[d] == w[d]);
        }
    }
}

} // verus!
