//! What single precision does to exact numbers: every operation finds the number that is
//! closest to its exact result.

use vstd::prelude::*;
use vstd::arithmetic::power2::*;

use crate::rounding::{
    apart, law_nearest_is_the_closest, lemma_nearest_exact, lemma_parts, lemma_units_grow, nearest,
    units, HIDDEN_BIT, INFINITY_BITS, SIGNIFICAND_LIMIT,
};
use crate::single::Single;

verus! {

/// The distance of two integers.
pub open spec fn distance(a: int, b: int) -> int {
    if a <= b {
        b - a
    } else {
        a - b
    }
}

/// Whether `x` is finite and no finite number is closer to `n / d` units of 2^-149.
#[verifier::opaque]
pub open spec fn is_closest(x: Single, n: int, d: int) -> bool {
    &&& x.is_finite()
    &&& forall|y: Single|
        y.is_finite() ==> distance(x.value() * d, n) <= distance(#[trigger] y.value() * d, n)
}

/// A pattern stands for as many units as it says up to 2^24, and from there on for twice as
/// many with every 2^23 patterns; a larger one stands for more. A number is its magnitude
/// with its sign, and numbers are ordered by what they stand for.
pub proof fn law_patterns_stand_for_numbers(m: nat, a: Single, b: Single)
    requires
        a.is_finite(),
        b.is_finite(),
    ensures
        m <= SIGNIFICAND_LIMIT ==> units(m) == m,
        m >= HIDDEN_BIT ==> units(m + HIDDEN_BIT as nat) == 2 * units(m),
        units(m) < units(m + 1),
        a.bits < 0x8000_0000 ==> a.value() == units(a.bits as nat),
        a.bits >= 0x8000_0000 ==> a.value() == -(units((a.bits - 0x8000_0000) as nat) as int),
        a.less(b) == (a.value() < b.value()),
{
    lemma2_to64();
    lemma_parts(m);
    lemma_parts(m + 1);
    lemma_units_grow(m, m + 1);
    if HIDDEN_BIT <= m {
        let e = (m / HIDDEN_BIT as nat - 1) as nat;
        assert((m + HIDDEN_BIT as nat) / HIDDEN_BIT as nat == m / HIDDEN_BIT as nat + 1);
        assert((m + HIDDEN_BIT as nat) % HIDDEN_BIT as nat == m % HIDDEN_BIT as nat);
        lemma_pow2_unfold(e + 1);
        let k = m % HIDDEN_BIT as nat + HIDDEN_BIT as nat;
        let w = pow2(e);
        assert(k * (2 * w) == 2 * (k * w)) by (nonlinear_arith);
        if m < SIGNIFICAND_LIMIT {
            assert(m / HIDDEN_BIT as nat == 1);
            assert(k * pow2(0) == k);
        } else if m == SIGNIFICAND_LIMIT {
            assert(m / HIDDEN_BIT as nat == 2);
            assert(HIDDEN_BIT as nat * pow2(1) == m);
        }
    }
    lemma_ordered(a, b);
    lemma_ordered(b, a);
}

/// Numbers that come first stand for less.
proof fn lemma_ordered(a: Single, b: Single)
    requires
        a.is_finite(),
        b.is_finite(),
    ensures
        a.rank() < b.rank() ==> a.value() < b.value(),
        a.rank() == b.rank() ==> a.value() == b.value(),
{
    let x = a.magnitude();
    let y = b.magnitude();
    lemma_parts(0);
    lemma2_to64();
    assert(units(0) == 0);
    if a.rank() < b.rank() {
        if a.is_negative() {
            if b.is_negative() {
                lemma_units_grow(y, x);
            } else if x > 0 {
                lemma_units_grow(0, x);
            } else {
                lemma_units_grow(0, y);
            }
        } else {
            lemma_units_grow(x, y);
        }
    }
}

/// A rounded magnitude with a sign.
pub proof fn lemma_rounded(negative: bool, n: nat, d: nat)
    requires
        d > 0,
        nearest(n, d) < INFINITY_BITS,
    ensures
        is_closest(
            Single::of(negative, nearest(n, d)),
            if negative {
                -(n as int)
            } else {
                n as int
            },
            d as int,
        ),
{
    reveal(is_closest);
    let m = nearest(n, d);
    let x = Single::of(negative, m);
    let u = units(m) as int;
    let e: int = if negative {
        -(n as int)
    } else {
        n as int
    };
    assert((-u) * d == -(u * d)) by (nonlinear_arith);
    lemma_parts(0);
    lemma2_to64();
    assert(units(0) == 0);
    assert(0 * d == 0) by (nonlinear_arith);
    law_nearest_is_the_closest(n, d, 0);
    assert forall|y: Single| y.is_finite() implies distance(x.value() * d, e) <= distance(
        #[trigger] y.value() * d,
        e,
    ) by {
        let v = units(y.magnitude()) as int;
        law_nearest_is_the_closest(n, d, y.magnitude());
        assert((-v) * d == -(v * d)) by (nonlinear_arith);
        assert(v * d >= 0) by (nonlinear_arith)
            requires
                v >= 0,
                d > 0,
        ;
    }
}

/// An integer, a product, a quotient and a sum in single precision are the numbers closest
/// to the exact ones, as long as these are in range.
pub proof fn law_operations_find_the_closest(n: nat, a: Single, b: Single)
    requires
        a.is_finite(),
        b.is_finite(),
    ensures
        Single::integer(n).is_finite() ==> is_closest(
            Single::integer(n),
            (n * pow2(149)) as int,
            1,
        ),
        a.product(b).is_finite() ==> is_closest(
            a.product(b),
            a.value() * b.value(),
            pow2(149) as int,
        ),
        a.quotient(b).is_finite() && b.value() > 0 ==> is_closest(
            a.quotient(b),
            a.value() * pow2(149),
            b.value(),
        ),
        a.quotient(b).is_finite() && b.value() < 0 ==> is_closest(
            a.quotient(b),
            -(a.value() * pow2(149)),
            -b.value(),
        ),
        a.sum(b).is_finite() ==> is_closest(a.sum(b), a.value() + b.value(), 1),
        a.difference(b).is_finite() ==> is_closest(a.difference(b), a.value() - b.value(), 1),
{
    lemma_whole(n);
    if a.product(b).is_finite() {
        lemma_product(a, b);
    }
    lemma_quotient(a, b);
    lemma_sum(a, b);
    lemma_difference(a, b);
}

proof fn lemma_whole(n: nat)
    ensures
        Single::integer(n).is_finite() ==> is_closest(
            Single::integer(n),
            (n * pow2(149)) as int,
            1,
        ),
{
    let p = pow2(149);
    lemma_finite_result(n * p, 1);
    if Single::integer(n).is_finite() {
        lemma_rounded(false, n * p, 1);
    }
}

proof fn lemma_difference(a: Single, b: Single)
    requires
        a.is_finite(),
        b.is_finite(),
    ensures
        a.difference(b).is_finite() ==> is_closest(a.difference(b), a.value() - b.value(), 1),
{
    let c = b.opposite();
    assert(c.magnitude() == b.magnitude());
    assert(c.value() == -b.value());
    lemma_sum(a, c);
}

proof fn lemma_product(a: Single, b: Single)
    requires
        a.is_finite(),
        b.is_finite(),
        a.product(b).is_finite(),
    ensures
        is_closest(a.product(b), a.value() * b.value(), pow2(149) as int),
{
    let p = pow2(149);
    let u = units(a.magnitude()) as int;
    let v = units(b.magnitude()) as int;
    let negative = a.is_negative() != b.is_negative();
    lemma_pow2_pos(149);
    assert((-u) * v == -(u * v)) by (nonlinear_arith);
    assert(u * (-v) == -(u * v)) by (nonlinear_arith);
    assert((-u) * (-v) == u * v) by (nonlinear_arith);
    let n = units(a.magnitude()) * units(b.magnitude());
    lemma_finite_result(n, p);
    assert(a.product(b) == Single::of(negative, nearest(n, p)));
    lemma_rounded(negative, n, p);
}

proof fn lemma_quotient(a: Single, b: Single)
    requires
        a.is_finite(),
        b.is_finite(),
    ensures
        a.quotient(b).is_finite() && b.value() > 0 ==> is_closest(
            a.quotient(b),
            a.value() * pow2(149),
            b.value(),
        ),
        a.quotient(b).is_finite() && b.value() < 0 ==> is_closest(
            a.quotient(b),
            -(a.value() * pow2(149)),
            -b.value(),
        ),
{
    let p = pow2(149);
    let u = units(a.magnitude()) as int;
    let v = units(b.magnitude());
    let negative = a.is_negative() != b.is_negative();
    lemma_pow2_pos(149);
    lemma_parts(0);
    lemma2_to64();
    assert(units(0) == 0);
    assert((-u) * p == -(u * p)) by (nonlinear_arith);
    if a.quotient(b).is_finite() && b.value() != 0 {
        let n = units(a.magnitude()) * p;
        lemma_finite_result(n, v);
        if a.is_zero() {
            assert(u * p == 0) by (nonlinear_arith)
                requires
                    u == 0,
            ;
            assert(v * 0 == 0) by (nonlinear_arith);
            lemma_nearest_exact(0, v, 0);
        }
        assert(a.quotient(b) == Single::of(negative, nearest(n, v)));
        lemma_rounded(negative, n, v);
    }
}

/// A number made of a rounded magnitude has it.
proof fn lemma_finite_result(n: nat, d: nat)
    requires
        d > 0,
    ensures
        forall|negative: bool| (#[trigger] Single::of(negative, nearest(n, d))).magnitude() == nearest(n, d),
{
    law_nearest_is_the_closest(n, d, 0);
}

proof fn lemma_sum(a: Single, b: Single)
    requires
        a.is_finite(),
        b.is_finite(),
    ensures
        a.sum(b).is_finite() ==> is_closest(a.sum(b), a.value() + b.value(), 1),
{
    let v = a.value() + b.value();
    let n = (if v < 0 {
        -v
    } else {
        v
    }) as nat;
    lemma_finite_result(n, 1);
    lemma_parts(0);
    lemma2_to64();
    assert(units(0) == 0);
    if a.sum(b).is_finite() {
        if v == 0 {
            lemma_nearest_exact(0, 1, 0);
            lemma_rounded(a.is_negative() && b.is_negative(), 0, 1);
        } else {
            lemma_rounded(v < 0, n, 1);
        }
    }
}

/// The closest number to a fraction does not depend on how it is written.
pub proof fn lemma_closest_scaled(x: Single, n: int, d: int, p: int)
    requires
        p > 0,
        is_closest(x, n * p, d * p),
    ensures
        is_closest(x, n, d),
{
    reveal(is_closest);
    let v = x.value();
    assert forall|y: Single| y.is_finite() implies distance(v * d, n) <= distance(
        #[trigger] y.value() * d,
        n,
    ) by {
        let w = y.value();
        lemma_distance_scaled(v * d, n, p);
        lemma_distance_scaled(w * d, n, p);
        assert(v * (d * p) == (v * d) * p) by (nonlinear_arith);
        assert(w * (d * p) == (w * d) * p) by (nonlinear_arith);
        assert(distance(v * (d * p), n * p) <= distance(w * (d * p), n * p));
        let a = distance(v * d, n);
        let b = distance(w * d, n);
        assert(a <= b) by (nonlinear_arith)
            requires
                a * p <= b * p,
                p > 0,
        ;
    }
}

proof fn lemma_distance_scaled(a: int, b: int, p: int)
    requires
        p > 0,
    ensures
        distance(a * p, b * p) == distance(a, b) * p,
{
    assert((a - b) * p == a * p - b * p) by (nonlinear_arith);
    assert((b - a) * p == b * p - a * p) by (nonlinear_arith);
    if a <= b {
        assert(a * p <= b * p) by (nonlinear_arith)
            requires
                a <= b,
                p > 0,
        ;
    } else {
        assert(a * p > b * p) by (nonlinear_arith)
            requires
                a > b,
                p > 0,
        ;
    }
}

/// Whether `x` rounds `n / d` units of 2^-149: it has its sign, no magnitude is closer, and of
/// two that are equally close it has the even pattern. Infinity counts as what the pattern behind
/// the largest finite one would stand for.
#[verifier::opaque]
pub open spec fn rounds(x: Single, n: int, d: int) -> bool {
    let m = distance(n, 0) as nat;
    &&& n > 0 ==> !x.is_negative()
    &&& n < 0 ==> x.is_negative()
    &&& x.magnitude() <= INFINITY_BITS
    &&& forall|k: nat|
        k <= INFINITY_BITS && k != x.magnitude() ==> {
            let own = apart(units(x.magnitude()), m, d as nat);
            let other = apart(#[trigger] units(k), m, d as nat);
            own < other || own == other && x.magnitude() % 2 == 0
        }
}

pub proof fn lemma_rounds(x: Single, negative: bool, n: nat, d: nat)
    requires
        d > 0,
        x == Single::of(negative, nearest(n, d)),
    ensures
        rounds(
            x,
            if negative {
                -(n as int)
            } else {
                n as int
            },
            d as int,
        ),
{
    reveal(rounds);
    law_nearest_is_the_closest(n, d, 0);
    assert(x.magnitude() == nearest(n, d));
    assert forall|k: nat| k <= INFINITY_BITS && k != x.magnitude() implies {
        let own = apart(units(x.magnitude()), n, d);
        let other = apart(#[trigger] units(k), n, d);
        own < other || own == other && x.magnitude() % 2 == 0
    } by {
        law_nearest_is_the_closest(n, d, k);
    }
}

/// An integer, a product, a quotient and a sum of finite numbers are rounded once, from what they
/// are exactly, and are out of range only where infinity is closest.
pub proof fn law_operations_round_once(n: nat, a: Single, b: Single)
    requires
        a.is_finite(),
        b.is_finite(),
    ensures
        rounds(Single::integer(n), (n * pow2(149)) as int, 1),
        rounds(a.product(b), a.value() * b.value(), pow2(149) as int),
        b.value() > 0 ==> rounds(a.quotient(b), a.value() * pow2(149), b.value()),
        b.value() < 0 ==> rounds(a.quotient(b), -(a.value() * pow2(149)), -b.value()),
        rounds(a.sum(b), a.value() + b.value(), 1),
        rounds(a.difference(b), a.value() - b.value(), 1),
{
    let p = pow2(149);
    let u = units(a.magnitude());
    let v = units(b.magnitude());
    let negative = a.is_negative() != b.is_negative();
    let c = b.opposite();
    lemma_pow2_pos(149);
    lemma_rounds(Single::integer(n), false, n * p, 1);
    assert((-(u as int)) * v == -(u * v)) by (nonlinear_arith);
    assert(u * (-(v as int)) == -(u * v)) by (nonlinear_arith);
    assert((-(u as int)) * (-(v as int)) == u * v) by (nonlinear_arith);
    assert((-(u as int)) * p == -(u * p)) by (nonlinear_arith);
    lemma_rounds(a.product(b), negative, u * v, p);
    lemma_parts(0);
    lemma2_to64();
    assert(units(0) == 0);
    if b.value() != 0 {
        if a.is_zero() {
            assert(u * p == 0) by (nonlinear_arith)
                requires
                    u == 0,
            ;
            assert(v * 0 == 0) by (nonlinear_arith);
            lemma_nearest_exact(0, v, 0);
        }
        lemma_rounds(a.quotient(b), negative, u * p, v);
    }
    assert(c.magnitude() == b.magnitude());
    assert(c.value() == -b.value());
    lemma_sum_rounds(a, b);
    lemma_sum_rounds(a, c);
}

proof fn lemma_sum_rounds(a: Single, b: Single)
    requires
        a.is_finite(),
        b.is_finite(),
    ensures
        rounds(a.sum(b), a.value() + b.value(), 1),
{
    let v = a.value() + b.value();
    lemma_parts(0);
    lemma2_to64();
    assert(units(0) == 0);
    if v == 0 {
        lemma_nearest_exact(0, 1, 0);
        lemma_rounds(a.sum(b), a.is_negative() && b.is_negative(), 0, 1);
    } else {
        lemma_rounds(a.sum(b), v < 0, distance(v, 0) as nat, 1);
    }
}

/// Patterns from 0x7f800001 on are no numbers, but for the sign, and 0x7f800000 is infinity. What
/// is computed with no number is none, nor are zero times infinity, zero by zero, infinity by
/// infinity and infinity less infinity; infinity is else kept, a number by infinity is zero, and
/// by zero infinity.
pub proof fn law_infinities_are_kept(a: Single, b: Single)
    ensures
        a.is_nan() == (a.bits % 0x8000_0000 > 0x7f80_0000),
        a.is_infinite() == (a.bits % 0x8000_0000 == 0x7f80_0000),
        a.is_finite() == (a.bits % 0x8000_0000 < 0x7f80_0000),
        a.is_negative() == (a.bits >= 0x8000_0000),
        a.is_nan() || b.is_nan() ==> a.product(b).is_nan() && a.quotient(b).is_nan() && a.sum(
            b,
        ).is_nan() && a.difference(b).is_nan() && !a.less(b),
        a.is_infinite() && b.is_finite() ==> ({
            &&& b.value() == 0 ==> a.product(b).is_nan()
            &&& b.value() != 0 ==> a.product(b).is_infinite() && b.product(a).is_infinite()
            &&& a.quotient(b).is_infinite()
            &&& b.quotient(a).is_finite() && b.quotient(a).value() == 0
            &&& a.sum(b) == a && b.sum(a) == a && a.difference(b) == a
            &&& a.less(b) == a.is_negative() && b.less(a) == !a.is_negative()
        }),
        a.is_infinite() && b.is_infinite() ==> ({
            &&& a.product(b).is_infinite()
            &&& a.quotient(b).is_nan()
            &&& a == b ==> a.sum(b) == a && a.difference(b).is_nan()
            &&& a != b ==> a.sum(b).is_nan() && a.difference(b) == a
            &&& a.less(b) == (a.is_negative() && !b.is_negative())
        }),
        a.is_finite() && b.is_finite() && b.value() == 0 ==> ({
            &&& a.value() == 0 ==> a.quotient(b).is_nan()
            &&& a.value() != 0 ==> a.quotient(b).is_infinite()
        }),
        !a.is_nan() && !b.is_nan() ==> ({
            let negative = a.is_negative() != b.is_negative();
            &&& !a.product(b).is_nan() ==> a.product(b).is_negative() == negative
            &&& !a.quotient(b).is_nan() ==> a.quotient(b).is_negative() == negative
        }),
{
    let u = units(a.magnitude());
    let v = units(b.magnitude());
    lemma_parts(0);
    lemma2_to64();
    assert(units(0) == 0);
    if a.magnitude() > 0 {
        lemma_units_grow(0, a.magnitude());
    }
    if b.magnitude() > 0 {
        lemma_units_grow(0, b.magnitude());
    }
    lemma_pow2_pos(149);
    lemma_finite_result(u * v, pow2(149));
    law_nearest_is_the_closest(u * v, pow2(149), 0);
    if v > 0 {
        law_nearest_is_the_closest(u * pow2(149), v, 0);
    }
}

/// A number between zero and one is held as it is, one below zero as zero, one above one as one,
/// and no number as zero. A number that is not negative is rounded to the integer that is less
/// than one half above it or at most one half below it.
pub proof fn law_numbers_are_held_and_rounded(x: Single)
    ensures
        x.unit_clamp().is_finite(),
        x.is_nan() ==> x.unit_clamp().value() == 0,
        x.is_infinite() ==> x.unit_clamp().value() == if x.is_negative() {
            0
        } else {
            pow2(149) as int
        },
        x.is_finite() ==> x.unit_clamp().value() == if x.value() < 0 {
            0
        } else if x.value() > pow2(149) {
            pow2(149) as int
        } else {
            x.value()
        },
        x.is_finite() && x.value() >= 0 ==> 2 * x.value() - pow2(149) < 2 * (x.rounded() * pow2(149))
            <= 2 * x.value() + pow2(149),
{
    let p = pow2(149);
    let one = Single::from_bits(crate::single::ONE);
    let zero = Single::from_bits(crate::single::ZERO);
    crate::single::lemma_one();
    lemma_parts(0);
    lemma2_to64();
    lemma_pow2_pos(149);
    lemma_pow2_unfold(150);
    if x.is_finite() {
        law_patterns_stand_for_numbers(0, x, zero);
        law_patterns_stand_for_numbers(0, one, x);
        let v = units(x.magnitude());
        let r = x.rounded();
        vstd::arithmetic::div_mod::lemma_fundamental_div_mod((2 * v + p) as int, (2 * p) as int);
        assert((2 * p) * r == 2 * (r * p)) by (nonlinear_arith);
    }
}

} // verus!
