//! What the components of a vector measure.

use vstd::prelude::*;
use vstd::arithmetic::power2::*;

use crate::closeness::{
    clip, grain, lemma_absolute_error, lemma_amount_value, lemma_cancel, lemma_clip,
    lemma_clipped_quotient, lemma_grain, lemma_hundredth, lemma_next_averages, lemma_nearest_range,
    lemma_ratio, lemma_share_value, positive,
};
use crate::fast_parse::{features_read, quoted_texts, Reading};
use crate::payload::{seconds_since, FraudRequest, LastTransaction};
use crate::precision::{
    distance, is_closest, law_operations_find_the_closest, lemma_closest_scaled, lemma_rounded,
};
use crate::rounding::{
    lemma_nearest_at_least, lemma_nearest_at_most, lemma_nearest_exact, lemma_nearest_monotone,
    lemma_parts, lemma_units_monotone, nearest, units, INFINITY_BITS, SIGNIFICAND_LIMIT,
};
use crate::single::{lemma_integer, lemma_one, Single, ONE};
use crate::text::ascii;
use crate::vector::{
    comparable_average, components, features_of, hundredths, lemma_fraction, minutes, share,
};

verus! {

/// Whether `v` is the share of `x` in a limit, held between zero and one: zero for what is
/// not positive, one from the limit on, and else the number closest to the quotient.
pub open spec fn is_share(v: Single, x: Single, limit: int) -> bool {
    if x.is_nan() || x.rank() <= 0 {
        v.is_finite() && v.value() == 0
    } else if x.is_infinite() || x.value() >= limit * pow2(149) {
        v.is_finite() && v.value() == pow2(149)
    } else {
        is_closest(v, x.value(), limit)
    }
}

/// Whether `v` is the share of a count in a limit, one from the limit on.
pub open spec fn is_share_of_count(v: Single, n: int, limit: int) -> bool {
    if n >= limit {
        v.is_finite() && v.value() == pow2(149)
    } else {
        is_closest(v, n * pow2(149), limit)
    }
}

/// Whether `v` says yes or no: one or zero.
pub open spec fn is_flag(v: Single, b: bool) -> bool {
    v.is_finite() && v.value() == if b {
        pow2(149) as int
    } else {
        0
    }
}

proof fn lemma_share_is_share(x: Single, limit: nat)
    requires
        0 < limit < SIGNIFICAND_LIMIT,
    ensures
        is_share(share(x, limit), x, limit as int),
{
    let p = pow2(149);
    let l = Single::integer(limit);
    let a = units(x.magnitude());
    let n = a * p;
    let d = limit * p;
    let q = x.quotient(l);
    let m = nearest(n, d);
    lemma_integer(limit);
    lemma_one();
    lemma_pow2_pos(149);
    lemma_parts(0);
    lemma2_to64();
    assert(units(0) == 0);
    assert(d > 0) by (nonlinear_arith)
        requires
            d == limit * p,
            limit > 0,
            p > 0,
    ;
    lemma_nearest_range(n, d);
    if !x.is_nan() && x.rank() > 0 && !x.is_infinite() {
        assert(q == Single::of(false, m));
        assert(d * p == (limit * p) * p);
        if x.value() >= limit * p {
            assert(n >= d * p) by (nonlinear_arith)
                requires
                    n == a * p,
                    d == limit * p,
                    a >= limit * p,
            ;
            lemma_nearest_at_least(n, d, ONE as nat);
        } else {
            assert(n <= d * p) by (nonlinear_arith)
                requires
                    n == a * p,
                    d == limit * p,
                    a <= limit * p,
            ;
            lemma_nearest_at_most(n, d, ONE as nat);
            lemma_rounded(false, n, d);
            lemma_closest_scaled(q, a as int, limit as int, p as int);
        }
    }
}

/// A fraction of integers.
pub proof fn lemma_closest_fraction(a: nat, b: nat)
    requires
        a <= b < SIGNIFICAND_LIMIT,
        b > 0,
    ensures
        is_closest(
            Single::integer(a).quotient(Single::integer(b)),
            (a * pow2(149)) as int,
            b as int,
        ),
{
    let p = pow2(149);
    let x = Single::integer(a);
    let y = Single::integer(b);
    lemma_integer(a);
    lemma_integer(b);
    lemma_fraction(a, b);
    lemma_pow2_pos(149);
    law_operations_find_the_closest(0, x, y);
    assert(b * p > 0) by (nonlinear_arith)
        requires
            b > 0,
            p > 0,
    ;
    assert(x.value() * p == (a * p) * p);
    assert(x.quotient(y).is_finite());
    lemma_closest_scaled(x.quotient(y), (a * p) as int, b as int, p as int);
}

/// A quotient of integers.
proof fn lemma_closest_quotient(a: nat, b: nat)
    requires
        a < SIGNIFICAND_LIMIT,
        0 < b < SIGNIFICAND_LIMIT,
    ensures
        is_closest(
            Single::integer(a).quotient(Single::integer(b)),
            (a * pow2(149)) as int,
            b as int,
        ),
{
    let p = pow2(149);
    let x = Single::integer(a);
    let y = Single::integer(b);
    lemma_integer(a);
    lemma_integer(b);
    lemma_pow2_pos(149);
    assert(b * p >= p) by (nonlinear_arith)
        requires
            b > 0,
    ;
    let n = (a * p) * p;
    let d = b * p;
    assert(n <= d * (a * p)) by (nonlinear_arith)
        requires
            n == (a * p) * p,
            d >= p,
            a * p >= 0,
    ;
    lemma_nearest_at_most(n, d, x.magnitude());
    law_operations_find_the_closest(0, x, y);
    assert(x.value() * p == (a * p) * p);
    assert(x.quotient(y).is_finite());
    lemma_closest_scaled(x.quotient(y), (a * p) as int, b as int, p as int);
}

proof fn lemma_share_of_count(n: nat, limit: nat)
    requires
        0 < limit < SIGNIFICAND_LIMIT,
        n < pow2(64),
    ensures
        is_share_of_count(share(Single::integer(n), limit), n as int, limit as int),
{
    let p = pow2(149);
    let x = Single::integer(n);
    lemma_share_is_share(x, limit);
    lemma_pow2_pos(149);
    lemma_nearest_range(n * p, 1);
    lemma_integer(limit);
    if n >= limit {
        let l = Single::integer(limit).magnitude();
        assert(n * p >= limit * p) by (nonlinear_arith)
            requires
                n >= limit,
        ;
        lemma_nearest_at_least(n * p, 1, l);
        lemma_units_monotone(l, x.magnitude());
    } else {
        lemma_integer(n);
        assert(n * p < limit * p) by (nonlinear_arith)
            requires
                n < limit,
                p > 0,
        ;
        lemma_parts(0);
        lemma2_to64();
        assert(units(0) == 0);
        if n == 0 {
            assert(0 * p == 0);
            lemma_nearest_exact(0, 1, 0);
            assert(x.rank() == 0);
            lemma_closest_zero(share(x, limit), limit as int);
        }
    }
}

pub proof fn lemma_closest_zero(x: Single, d: int)
    requires
        x.is_finite(),
        x.value() == 0,
        d > 0,
    ensures
        is_closest(x, 0, d),
{
    reveal(is_closest);
    assert(0 * d == 0) by (nonlinear_arith);
}

/// The components are what they are meant to measure, each in single precision: the amount
/// in 10000, the installments in 12, the hour in 23 and the day of the week in 6, both in
/// UTC, the kilometres since the last transaction and from home in 1000, the transactions of
/// a day in 20, whether the terminal is online, the card present and the merchant unknown,
/// and the amounts of the merchant in 10000. Without a last transaction its two components
/// are minus one.
#[verifier::rlimit(40)]
pub proof fn law_components_measure_the_request(r: FraudRequest)
    ensures
        ({
            let v = components(features_of(r));
            let s = r.transaction.requested_at.seconds();
            let p = pow2(149) as int;
            let known = r.customer.known_merchants@;
            &&& v.len() == 14
            &&& is_share(v[0], r.transaction.amount, 10_000)
            &&& is_share_of_count(v[1], r.transaction.installments as int, 12)
            &&& is_closest(v[3], s % 86_400 / 3_600 * p, 23)
            &&& is_closest(v[4], (s / 86_400 + 3) % 7 * p, 6)
            &&& r.last_transaction is None ==> v[5].is_finite() && v[5].value() == -p
                && v[6].is_finite() && v[6].value() == -p
            &&& r.last_transaction matches Some(last) ==> is_share(v[6], last.km_from_current, 1_000)
            &&& is_share(v[7], r.terminal.km_from_home, 1_000)
            &&& is_share_of_count(v[8], r.customer.tx_count_24h as int, 20)
            &&& is_flag(v[9], r.terminal.is_online)
            &&& is_flag(v[10], r.terminal.card_present)
            &&& is_flag(
                v[11],
                forall|i: int| 0 <= i < known.len() ==> (#[trigger] known[i])@ != r.merchant.id@,
            )
            &&& is_share(v[13], r.merchant.avg_amount, 10_000)
        }),
{
    let s = r.transaction.requested_at.seconds();
    lemma_share_is_share(r.transaction.amount, 10_000);
    lemma2_to64_rest();
    lemma_share_of_count(r.transaction.installments as nat, 12);
    lemma_closest_fraction((s % 86_400 / 3_600) as nat, 23);
    lemma_closest_fraction(((s / 86_400 + 3) % 7) as nat, 6);
    if let Some(last) = r.last_transaction {
        lemma_share_is_share(last.km_from_current, 1_000);
    }
    lemma_share_is_share(r.terminal.km_from_home, 1_000);
    lemma_share_of_count(r.customer.tx_count_24h as nat, 20);
    lemma_share_is_share(r.merchant.avg_amount, 10_000);
    lemma_one();
    lemma_parts(0);
    lemma2_to64();
}

/// The amount is held against the average amount of the customer, which counts as one
/// hundredth where it is less: a tenth of the quotient, from zero for no positive amount to
/// one for ten times the average or more, but for an error of 2^-21. Values are in units of
/// 2^-149.
pub proof fn law_amount_is_held_against_the_average(r: FraudRequest)
    requires
        r.transaction.amount.is_finite(),
        r.customer.avg_amount.is_finite(),
    ensures
        ({
            let v = components(features_of(r))[2];
            let p = pow2(149) as int;
            let amount = r.transaction.amount.value();
            let average = r.customer.avg_amount.value();
            exists|cent: Single| #[trigger] is_closest(cent, p, 100) && ({
                let base = if average > cent.value() {
                    average
                } else {
                    cent.value()
                };
                &&& base > 0
                &&& amount <= 0 ==> v.value() == 0
                &&& amount > 0 && amount < 10 * base ==> distance(
                    v.value(),
                    amount * p / (10 * base),
                ) <= pow2(128)
                &&& amount >= 10 * base ==> distance(v.value(), p) <= pow2(128)
            })
        }),
{
    let p = pow2(149);
    let x = r.transaction.amount;
    let avg = r.customer.avg_amount;
    let cent = hundredths(1);
    let m = comparable_average(avg);
    let a = positive(x);
    let b = units(m.magnitude());
    let q = x.quotient(m);
    lemma_grain();
    lemma2_to64();
    lemma_pow2_adds(2, 126);
    lemma_closest_fraction(1, 100);
    assert(1 * p == p);
    lemma_hundredth();
    lemma_next_averages(avg, avg);
    crate::precision::law_patterns_stand_for_numbers(0, cent, avg);
    assert(m.is_finite());
    assert(m.value() == b);
    lemma_amount_value(x, m);
    lemma_share_value(q, 10);
    lemma_ratio(a, b);
    lemma_parts(0);
    assert(units(0) == 0);
    let base = m.value();
    let v = components(features_of(r))[2];
    assert(v == share(q, 10));
    if x.value() <= 0 {
        assert(a == 0) by {
            if x.magnitude() > 0 && !x.is_negative() {
                crate::rounding::lemma_units_grow(0, x.magnitude());
            }
        }
        assert(0 * p == 0) by (nonlinear_arith);
        lemma_nearest_exact(0, b, 0);
        assert(10 * p > 0);
        lemma_nearest_exact(0, 10 * p, 0);
        assert(v.value() == clip(0));
    } else {
        assert(a == x.value());
        let n = a * p;
        if a < 10 * base {
            vstd::arithmetic::div_mod::lemma_fundamental_div_mod(n as int, 10 * base);
            let k = n as int / (10 * base);
            assert(k < p) by (nonlinear_arith)
                requires
                    n == (10 * base) * k + n as int % (10 * base),
                    n as int % (10 * base) >= 0,
                    n == a * p,
                    a < 10 * base,
                    p > 0,
            ;
        } else {
            vstd::arithmetic::div_mod::lemma_fundamental_div_mod(n as int, 10 * base);
            let k = n as int / (10 * base);
            assert(k >= p) by (nonlinear_arith)
                requires
                    n == (10 * base) * k + n as int % (10 * base),
                    n as int % (10 * base) < 10 * base,
                    n == a * p,
                    a >= 10 * base,
                    base > 0,
                    p > 0,
            ;
        }
    }
    assert(is_closest(cent, p as int, 100));
}

/// The share of a day that has passed.
proof fn lemma_day_share(e: int)
    ensures
        ({
            let v = share(minutes(e), 1_440);
            let p = pow2(149) as int;
            &&& v.is_finite()
            &&& e <= 0 ==> v.value() == 0
            &&& 0 < e < 86_400 ==> distance(v.value(), e * p / 86_400) <= pow2(127)
            &&& e >= 86_400 ==> v.value() == p
        }),
{
    let p = pow2(149);
    let n = (if e > 0 {
        e
    } else {
        0
    }) as nat;
    let x = Single::integer(n);
    let q = x.quotient(Single::integer(60));
    let v = share(q, 1_440);
    lemma_grain();
    lemma2_to64();
    lemma_pow2_adds(1, 126);
    lemma_integer(60);
    lemma_parts(0);
    assert(units(0) == 0);
    lemma_share_is_share(q, 1_440);
    crate::single::lemma_unit_clamp(q.quotient(Single::integer(1_440)));
    lemma_nearest_range(n * p, 1);
    let a = units(x.magnitude());
    let k = a * p;
    let d = 60 * p;
    lemma_nearest_range(k, d);
    if n == 0 {
        assert(0 * p == 0) by (nonlinear_arith);
        lemma_nearest_exact(0, 1, 0);
        assert(x.is_zero());
        assert(q == Single::of(false, 0));
    } else if n < 86_400 {
        lemma_integer(n);
        lemma_day_part(n);
    } else {
        let whole = Single::integer(86_400).magnitude();
        let day = Single::integer(1_440).magnitude();
        lemma_integer(86_400);
        lemma_integer(1_440);
        assert(n * p >= 86_400 * p) by (nonlinear_arith)
            requires
                n >= 86_400,
        ;
        lemma_nearest_at_least(n * p, 1, whole);
        lemma_units_monotone(whole, x.magnitude());
        assert(k >= d * (1_440 * p)) by (nonlinear_arith)
            requires
                k == a * p,
                d == 60 * p,
                a >= 86_400 * p,
        ;
        lemma_nearest_at_least(k, d, day);
        lemma_units_monotone(day, nearest(k, d));
        if x.is_infinite() {
            assert(q == Single::of(false, INFINITY_BITS as nat));
        } else {
            assert(q == Single::of(false, nearest(k, d)));
        }
    }
}

/// The same for less than a day.
proof fn lemma_day_part(n: nat)
    requires
        0 < n < 86_400,
    ensures
        distance(share(minutes(n as int), 1_440).value(), n * pow2(149) as int / 86_400) <= pow2(
            127,
        ),
{
    let p = pow2(149);
    let x = Single::integer(n);
    let q = x.quotient(Single::integer(60));
    let k = (n * p) * p;
    let d = 60 * p;
    let m = nearest(k, d);
    let u = units(m);
    lemma_grain();
    lemma2_to64();
    lemma_pow2_adds(1, 126);
    lemma_integer(60);
    lemma_integer(n);
    lemma_nearest_range(k, d);
    lemma_pow2_adds(11, 149);
    assert(k < d * (2_048 * p)) by (nonlinear_arith)
        requires
            k == (n * p) * p,
            d == 60 * p,
            n < 86_400,
            p > 0,
    ;
    lemma_absolute_error(k, d, 136);
    lemma_cancel(n * p, 60, p);
    assert(q == Single::of(false, m));
    lemma_share_value(q, 1_440);
    lemma_clipped_quotient(u * p, 1_440 * p);
    lemma_cancel(u, 1_440, p);
    let t = (n * p) as int;
    let w = t / 60;
    vstd::arithmetic::div_mod::lemma_div_denominator(t, 60, 1_440);
    assert(t / 86_400 == w / 1_440);
    lemma_pow2_adds(9, 126);
    let g = grain();
    assert(pow2(135) == 512 * g);
    let y = u as int / 1_440;
    let z = w / 1_440;
    assert(-512 * g <= u - w <= 512 * g);
    vstd::arithmetic::div_mod::lemma_fundamental_div_mod(u as int, 1_440);
    vstd::arithmetic::div_mod::lemma_fundamental_div_mod(w, 1_440);
    assert(-g <= y - z <= g);
    vstd::arithmetic::div_mod::lemma_fundamental_div_mod(t, 86_400);
    assert(z < p) by (nonlinear_arith)
        requires
            t == 86_400 * z + t % 86_400,
            t % 86_400 >= 0,
            t == n * p,
            n < 86_400,
            p > 0,
    ;
}

/// More time makes no smaller share.
proof fn lemma_day_share_grows(e: int, f: int)
    requires
        e <= f,
    ensures
        share(minutes(e), 1_440).value() <= share(minutes(f), 1_440).value(),
{
    let p = pow2(149);
    lemma_day_share(e);
    lemma_day_share(f);
    lemma_pow2_pos(149);
    lemma_parts(0);
    lemma2_to64();
    if 0 < e && f < 86_400 {
        let a = (e as nat * p) * p;
        let b = (f as nat * p) * p;
        let d = 60 * p;
        lemma_integer(60);
        lemma_integer(e as nat);
        lemma_integer(f as nat);
        assert(a <= b) by (nonlinear_arith)
            requires
                a == (e as nat * p) * p,
                b == (f as nat * p) * p,
                0 < e <= f,
        ;
        lemma_nearest_monotone(a, b, d);
        lemma_nearest_range(a, d);
        lemma_nearest_range(b, d);
        let u = nearest(a, d);
        let v = nearest(b, d);
        lemma_units_monotone(u, v);
        let x = minutes(e);
        let y = minutes(f);
        assert(x == Single::of(false, u));
        assert(y == Single::of(false, v));
        lemma_share_value(x, 1_440);
        lemma_share_value(y, 1_440);
        assert(units(u) * p <= units(v) * p) by (nonlinear_arith)
            requires
                units(u) <= units(v),
        ;
        lemma_nearest_monotone(units(u) * p, units(v) * p, 1_440 * p);
        let i = nearest(units(u) * p, 1_440 * p);
        let j = nearest(units(v) * p, 1_440 * p);
        lemma_clip(i);
        lemma_clip(j);
        lemma_units_monotone(i, j);
    } else if 0 < f < 86_400 {
        let q = minutes(f).quotient(Single::integer(1_440));
        crate::single::lemma_unit_clamp(q);
        assert(units(0) == 0);
    } else if 0 < e < 86_400 {
        let q = minutes(e).quotient(Single::integer(1_440));
        crate::single::lemma_unit_clamp(q);
        assert(share(minutes(e), 1_440).value() <= p) by {
            let c = q.unit_clamp();
            assert(c.value() <= units(c.magnitude()));
        }
    }
}

/// The nanoseconds from the last transaction to the one that is requested.
pub open spec fn nanoseconds_passed(r: FraudRequest, last: LastTransaction) -> int {
    let at = r.transaction.requested_at;
    (at.seconds() - last.timestamp.seconds()) * 1_000_000_000 + at.nanoseconds()
        - last.timestamp.nanoseconds()
}

/// Whether both moments are within the calendar and none is a leap second.
pub open spec fn has_plain_moments(r: FraudRequest, last: LastTransaction) -> bool {
    let at = r.transaction.requested_at;
    &&& -9_000_000_000_000 <= at.seconds() <= 9_000_000_000_000
    &&& -9_000_000_000_000 <= last.timestamp.seconds() <= 9_000_000_000_000
    &&& 0 <= at.nanoseconds() < 1_000_000_000
    &&& 0 <= last.timestamp.nanoseconds() < 1_000_000_000
}

/// The time since the last transaction is measured in days, by whole seconds: zero where
/// less than a second has passed, one from a day on, and else the part of the day, but for
/// an error of 2^-22. Values are in units of 2^-149.
pub proof fn law_elapsed_time_is_a_part_of_a_day(r: FraudRequest, last: LastTransaction)
    requires
        r.last_transaction == Some(last),
        has_plain_moments(r, last),
    ensures
        ({
            let v = components(features_of(r))[5];
            let p = pow2(149) as int;
            let passed = nanoseconds_passed(r, last);
            &&& v.is_finite()
            &&& passed < 1_000_000_000 ==> v.value() == 0
            &&& 1_000_000_000 <= passed < 86_400_000_000_000 ==> distance(
                v.value(),
                passed / 1_000_000_000 * p / 86_400,
            ) <= pow2(127)
            &&& passed >= 86_400_000_000_000 ==> v.value() == p
        }),
{
    let e = lemma_elapsed(r, last);
    lemma_day_share(e);
}

/// The whole seconds that have passed.
proof fn lemma_elapsed(r: FraudRequest, last: LastTransaction) -> (e: int)
    requires
        r.last_transaction == Some(last),
        has_plain_moments(r, last),
    ensures
        components(features_of(r))[5] == share(minutes(e), 1_440),
        nanoseconds_passed(r, last) >= 0 ==> e == nanoseconds_passed(r, last) / 1_000_000_000,
        nanoseconds_passed(r, last) < 0 ==> e == -(-nanoseconds_passed(r, last) / 1_000_000_000),
{
    let at = r.transaction.requested_at;
    let e = seconds_since(
        at.seconds(),
        at.nanoseconds(),
        last.timestamp.seconds(),
        last.timestamp.nanoseconds(),
    );
    assert(e as i64 == e);
    e
}

/// The longer ago the last transaction was, the larger is its component, or it stays.
pub proof fn law_elapsed_time_keeps_the_order(
    r: FraudRequest,
    last: LastTransaction,
    t: FraudRequest,
    other: LastTransaction,
)
    requires
        r.last_transaction == Some(last),
        t.last_transaction == Some(other),
        has_plain_moments(r, last),
        has_plain_moments(t, other),
        nanoseconds_passed(r, last) <= nanoseconds_passed(t, other),
    ensures
        components(features_of(r))[5].value() <= components(features_of(t))[5].value(),
{
    let e = lemma_elapsed(r, last);
    let f = lemma_elapsed(t, other);
    lemma_day_share_grows(e, f);
}

/// The risk of a merchant by its category, in hundredths: nine categories have their own, all
/// others one half.
pub proof fn law_risk_goes_by_the_category(r: FraudRequest)
    ensures
        ({
            let v = components(features_of(r))[12];
            let mcc = r.merchant.mcc@;
            let p = pow2(149) as int;
            &&& mcc == "5411"@ ==> is_closest(v, 15 * p, 100)
            &&& mcc == "5812"@ ==> is_closest(v, 30 * p, 100)
            &&& mcc == "5912"@ ==> is_closest(v, 20 * p, 100)
            &&& mcc == "5944"@ ==> is_closest(v, 45 * p, 100)
            &&& mcc == "7801"@ ==> is_closest(v, 80 * p, 100)
            &&& mcc == "7802"@ ==> is_closest(v, 75 * p, 100)
            &&& mcc == "7995"@ ==> is_closest(v, 85 * p, 100)
            &&& mcc == "4511"@ ==> is_closest(v, 35 * p, 100)
            &&& mcc == "5311"@ ==> is_closest(v, 25 * p, 100)
            &&& mcc != "5411"@ && mcc != "5812"@ && mcc != "5912"@ && mcc != "5944"@ && mcc
                != "7801"@ && mcc != "7802"@ && mcc != "7995"@ && mcc != "4511"@ && mcc
                != "5311"@ ==> is_closest(v, 50 * p, 100)
        }),
{
    reveal_strlit("5411");
    reveal_strlit("5812");
    reveal_strlit("5912");
    reveal_strlit("5944");
    reveal_strlit("7801");
    reveal_strlit("7802");
    reveal_strlit("7995");
    reveal_strlit("4511");
    reveal_strlit("5311");
    let mcc = r.merchant.mcc@;
    let h = crate::vector::risk_table(|code: Seq<char>| mcc == code);
    assert(components(features_of(r))[12] == hundredths(h));
    lemma_closest_fraction(h, 100);
    assert("5411"@[0] == '5' && "5411"@[1] == '4' && "5411"@[2] == '1' && "5411"@[3] == '1');
    assert("5812"@[0] == '5' && "5812"@[1] == '8' && "5812"@[2] == '1' && "5812"@[3] == '2');
    assert("5912"@[0] == '5' && "5912"@[1] == '9' && "5912"@[2] == '1' && "5912"@[3] == '2');
    assert("5944"@[0] == '5' && "5944"@[1] == '9' && "5944"@[2] == '4' && "5944"@[3] == '4');
    assert("7801"@[0] == '7' && "7801"@[1] == '8' && "7801"@[2] == '0' && "7801"@[3] == '1');
    assert("7802"@[0] == '7' && "7802"@[1] == '8' && "7802"@[2] == '0' && "7802"@[3] == '2');
    assert("7995"@[0] == '7' && "7995"@[1] == '9' && "7995"@[2] == '9' && "7995"@[3] == '5');
    assert("4511"@[0] == '4' && "4511"@[1] == '5' && "4511"@[2] == '1' && "4511"@[3] == '1');
    assert("5311"@[0] == '5' && "5311"@[1] == '3' && "5311"@[2] == '1' && "5311"@[3] == '1');
    let p = pow2(149);
    assert((h * p) as int == h as int * p as int);
    assert(mcc == "5411"@ ==> h == 15);
    assert(mcc == "5812"@ ==> h == 30);
    assert(mcc == "5912"@ ==> h == 20);
    assert(mcc == "5944"@ ==> h == 45);
    assert(mcc == "7801"@ ==> h == 80);
    assert(mcc == "7802"@ ==> h == 75);
    assert(mcc == "7995"@ ==> h == 85);
    assert(mcc == "4511"@ ==> h == 35);
    assert(mcc == "5311"@ ==> h == 25);
}

/// The components of a request that is read from bytes measure what was read, whether it is
/// all there or not: hour and day of the week as they were read, the seconds between both
/// moments, and whether the merchant is named at all and among the quoted texts.
#[verifier::rlimit(40)]
pub proof fn law_components_measure_the_reading(f: Reading)
    requires
        -1_000_000_000_000 < f.req_epoch < 1_000_000_000_000,
        -1_000_000_000_000 < f.last_epoch < 1_000_000_000_000,
    ensures
        ({
            let v = components(features_read(f));
            let p = pow2(149) as int;
            let e = f.req_epoch - f.last_epoch;
            &&& v.len() == 14
            &&& is_share(v[0], f.amount, 10_000)
            &&& is_share_of_count(v[1], f.installments as int, 12)
            &&& is_closest(v[3], f.req_hour * p, 23)
            &&& is_closest(v[4], f.req_weekday * p, 6)
            &&& !f.last_present ==> v[5].is_finite() && v[5].value() == -p && v[6].is_finite()
                && v[6].value() == -p
            &&& f.last_present ==> is_share(v[6], f.last_km, 1_000)
            &&& f.last_present && e <= 0 ==> v[5].value() == 0
            &&& f.last_present && 0 < e < 86_400 ==> distance(v[5].value(), e * p / 86_400)
                <= pow2(127)
            &&& f.last_present && e >= 86_400 ==> v[5].value() == p
            &&& is_share(v[7], f.km_from_home, 1_000)
            &&& is_share_of_count(v[8], f.tx_count_24h as int, 20)
            &&& is_flag(v[9], f.is_online)
            &&& is_flag(v[10], f.card_present)
            &&& is_flag(
                v[11],
                f.merchant_id.len() == 0 || !quoted_texts(f.known, 0).contains(f.merchant_id),
            )
            &&& is_share(v[13], f.merchant_avg, 10_000)
        }),
{
    lemma_share_is_share(f.amount, 10_000);
    lemma2_to64_rest();
    lemma_share_of_count(f.installments as nat, 12);
    lemma_closest_quotient(f.req_hour as nat, 23);
    lemma_closest_quotient(f.req_weekday as nat, 6);
    lemma_share_is_share(f.last_km, 1_000);
    lemma_day_share(f.req_epoch - f.last_epoch);
    lemma_share_is_share(f.km_from_home, 1_000);
    lemma_share_of_count(f.tx_count_24h as nat, 20);
    lemma_share_is_share(f.merchant_avg, 10_000);
    lemma_one();
    lemma_parts(0);
    lemma2_to64();
}

/// A leap second makes a second of difference at most: whatever the two moments are, the time
/// between them is measured by whole seconds that are less than two off.
#[verifier::rlimit(40)]
pub proof fn law_leap_seconds_count_once(r: FraudRequest, last: LastTransaction)
    requires
        r.last_transaction == Some(last),
        -9_000_000_000_000 <= r.transaction.requested_at.seconds() <= 9_000_000_000_000,
        -9_000_000_000_000 <= last.timestamp.seconds() <= 9_000_000_000_000,
        0 <= r.transaction.requested_at.nanoseconds() < 2_000_000_000,
        0 <= last.timestamp.nanoseconds() < 2_000_000_000,
    ensures
        ({
            let v = components(features_of(r))[5];
            let p = pow2(149) as int;
            exists|e: int|
                distance(#[trigger] (e * 1_000_000_000), nanoseconds_passed(r, last))
                    < 2_000_000_000 && v.is_finite() && (e <= 0 ==> v.value() == 0) && (0 < e
                    < 86_400 ==> distance(v.value(), e * p / 86_400) <= pow2(127)) && (e >= 86_400
                    ==> v.value() == p)
        }),
{
    let at = r.transaction.requested_at;
    let e = seconds_since(
        at.seconds(),
        at.nanoseconds(),
        last.timestamp.seconds(),
        last.timestamp.nanoseconds(),
    );
    assert(e as i64 == e);
    lemma_day_share(e);
    assert(distance(e * 1_000_000_000, nanoseconds_passed(r, last)) < 2_000_000_000);
}

/// Where amount or average is out of range, the amount is held against the average in the same
/// way: no positive amount counts as zero, one beyond all numbers as one, and against an average
/// beyond all numbers every amount counts as zero. An average that is no number counts as none.
#[verifier::rlimit(40)]
pub proof fn law_amounts_out_of_range_are_held_too(r: FraudRequest, t: FraudRequest)
    ensures
        ({
            let v = components(features_of(r))[2];
            let amount = r.transaction.amount;
            let average = r.customer.avg_amount;
            let other = t.customer.avg_amount;
            &&& v.is_finite()
            &&& amount.is_nan() || amount.rank() <= 0 ==> v.value() == 0
            &&& amount.is_infinite() && amount.rank() > 0 && !(average.is_infinite()
                && average.rank() > 0) ==> v.value() == pow2(149)
            &&& average.is_infinite() && average.rank() > 0 ==> v.value() == 0
            &&& (average.is_nan() || average.rank() <= 0) && (other.is_nan() || other.rank() <= 0)
                && t.transaction.amount == amount ==> components(features_of(t))[2] == v
        }),
{
    let x = r.transaction.amount;
    let m = comparable_average(r.customer.avg_amount);
    let q = x.quotient(m);
    let v = components(features_of(r))[2];
    let n = units(x.magnitude()) * pow2(149);
    lemma_hundredth();
    lemma_grain();
    lemma_parts(0);
    lemma_one();
    lemma_pow2_pos(149);
    lemma_share_is_share(q, 10);
    assert(v == share(q, 10));
    assert(!m.is_nan() && m.rank() > 0) by {
        if hundredths(1).magnitude() == 0 {
            assert(units(0) == 0);
        }
    }
    assert(m.magnitude() > 0);
    crate::rounding::lemma_units_grow(0, m.magnitude());
    lemma_nearest_range(n, units(m.magnitude()));
    crate::vector::law_requests_are_normalized(r);
}

/// The risk of a merchant that is read from bytes goes by its category in the same way.
pub proof fn law_risk_read_goes_by_the_category(f: Reading)
    ensures
        ({
            let v = components(features_read(f))[12];
            let p = pow2(149) as int;
            &&& f.mcc == ascii("5411"@) ==> is_closest(v, 15 * p, 100)
            &&& f.mcc == ascii("5812"@) ==> is_closest(v, 30 * p, 100)
            &&& f.mcc == ascii("5912"@) ==> is_closest(v, 20 * p, 100)
            &&& f.mcc == ascii("5944"@) ==> is_closest(v, 45 * p, 100)
            &&& f.mcc == ascii("7801"@) ==> is_closest(v, 80 * p, 100)
            &&& f.mcc == ascii("7802"@) ==> is_closest(v, 75 * p, 100)
            &&& f.mcc == ascii("7995"@) ==> is_closest(v, 85 * p, 100)
            &&& f.mcc == ascii("4511"@) ==> is_closest(v, 35 * p, 100)
            &&& f.mcc == ascii("5311"@) ==> is_closest(v, 25 * p, 100)
            &&& f.mcc != ascii("5411"@) && f.mcc != ascii("5812"@) && f.mcc != ascii("5912"@)
                && f.mcc != ascii("5944"@) && f.mcc != ascii("7801"@) && f.mcc != ascii("7802"@)
                && f.mcc != ascii("7995"@) && f.mcc != ascii("4511"@) && f.mcc != ascii("5311"@)
                ==> is_closest(v, 50 * p, 100)
        }),
{
    reveal_strlit("5411");
    reveal_strlit("5812");
    reveal_strlit("5912");
    reveal_strlit("5944");
    reveal_strlit("7801");
    reveal_strlit("7802");
    reveal_strlit("7995");
    reveal_strlit("4511");
    reveal_strlit("5311");
    let mcc = f.mcc;
    let h = crate::vector::risk_table(|code: Seq<char>| mcc == ascii(code));
    assert(components(features_read(f))[12] == hundredths(h));
    lemma_closest_fraction(h, 100);
    assert(ascii("5411"@)[0] == '5' as u8 && ascii("5411"@)[1] == '4' as u8);
    assert(ascii("5411"@)[2] == '1' as u8 && ascii("5411"@)[3] == '1' as u8);
    assert(ascii("5812"@)[0] == '5' as u8 && ascii("5812"@)[1] == '8' as u8);
    assert(ascii("5812"@)[2] == '1' as u8 && ascii("5812"@)[3] == '2' as u8);
    assert(ascii("5912"@)[0] == '5' as u8 && ascii("5912"@)[1] == '9' as u8);
    assert(ascii("5912"@)[2] == '1' as u8 && ascii("5912"@)[3] == '2' as u8);
    assert(ascii("5944"@)[0] == '5' as u8 && ascii("5944"@)[1] == '9' as u8);
    assert(ascii("5944"@)[2] == '4' as u8 && ascii("5944"@)[3] == '4' as u8);
    assert(ascii("7801"@)[0] == '7' as u8 && ascii("7801"@)[1] == '8' as u8);
    assert(ascii("7801"@)[2] == '0' as u8 && ascii("7801"@)[3] == '1' as u8);
    assert(ascii("7802"@)[0] == '7' as u8 && ascii("7802"@)[1] == '8' as u8);
    assert(ascii("7802"@)[2] == '0' as u8 && ascii("7802"@)[3] == '2' as u8);
    assert(ascii("7995"@)[0] == '7' as u8 && ascii("7995"@)[1] == '9' as u8);
    assert(ascii("7995"@)[2] == '9' as u8 && ascii("7995"@)[3] == '5' as u8);
    assert(ascii("4511"@)[0] == '4' as u8 && ascii("4511"@)[1] == '5' as u8);
    assert(ascii("4511"@)[2] == '1' as u8 && ascii("4511"@)[3] == '1' as u8);
    assert(ascii("5311"@)[0] == '5' as u8 && ascii("5311"@)[1] == '3' as u8);
    assert(ascii("5311"@)[2] == '1' as u8 && ascii("5311"@)[3] == '1' as u8);
    assert(mcc == ascii("5411"@) ==> h == 15);
    assert(mcc == ascii("5812"@) ==> h == 30);
    assert(mcc == ascii("5912"@) ==> h == 20);
    assert(mcc == ascii("5944"@) ==> h == 45);
    assert(mcc == ascii("7801"@) ==> h == 80);
    assert(mcc == ascii("7802"@) ==> h == 75);
    assert(mcc == ascii("7995"@) ==> h == 85);
    assert(mcc == ascii("4511"@) ==> h == 35);
    assert(mcc == ascii("5311"@) ==> h == 25);
    let p = pow2(149);
    assert((h * p) as int == h as int * p as int);
}

} // verus!
