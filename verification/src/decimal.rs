//! Decimal numerals and the single-precision numbers that they denote.
//!
//! ```text
//! Numeral  ::= Sign? ( Digit+ | Digit+ '.' Digit* | '.' Digit+ ) Exponent?
//! Exponent ::= ( 'e' | 'E' ) Sign? Digit+
//! Sign     ::= '+' | '-'
//! ```
//!
//! A numeral denotes the representable number closest to the decimal fraction it writes.

use vstd::prelude::*;
use vstd::arithmetic::power::*;
use vstd::arithmetic::power2::*;

use crate::big_natural::BigNatural;
use crate::rounding::{
    brackets, lemma_coarseness_at_least, nearest, round_scaled, HIDDEN_BIT, INFINITY_BITS,
    SIGNIFICAND_LIMIT,
};
use crate::single::{Single, SIGN_BIT};
use crate::text::{check_digit, digits_end, is_digit, number};

verus! {

/// `±digits * 10^exponent`.
pub struct Decimal {
    pub negative: bool,
    pub digits: nat,
    pub exponent: int,
}

pub open spec fn is_sign(b: u8) -> bool {
    b == '+' as u8 || b == '-' as u8
}

/// The position after a sign at `i`, if there is one.
pub open spec fn after_sign(t: Seq<u8>, i: nat) -> nat {
    if i < t.len() && is_sign(t[i as int]) {
        i + 1
    } else {
        i
    }
}

/// The exponent part, from `i` to the end of the numeral.
pub open spec fn exponent_part(t: Seq<u8>, i: nat) -> Option<int> {
    if i == t.len() {
        Some(0)
    } else if t[i as int] == 'e' as u8 || t[i as int] == 'E' as u8 {
        let start = after_sign(t, i + 1);
        let end = digits_end(t, start);
        if start == end || end != t.len() {
            None
        } else {
            let n = number(t.subrange(start as int, end as int)) as int;
            Some(
                if start == i + 2 && t[i as int + 1] == '-' as u8 {
                    -n
                } else {
                    n
                },
            )
        }
    } else {
        None
    }
}

/// What a numeral writes; `None` for bytes that are no numeral.
pub open spec fn decimal(t: Seq<u8>) -> Option<Decimal> {
    let start = after_sign(t, 0);
    let point = digits_end(t, start);
    let fraction = if point < t.len() && t[point as int] == '.' as u8 {
        point + 1
    } else {
        point
    };
    let end = if fraction > point {
        digits_end(t, fraction)
    } else {
        point
    };
    let digits = t.subrange(start as int, point as int) + t.subrange(fraction as int, end as int);
    match exponent_part(t, end) {
        Some(e) => if digits.len() == 0 {
            None
        } else {
            Some(
                Decimal {
                    negative: start == 1 && t[0] == '-' as u8,
                    digits: number(digits),
                    exponent: e - (end - fraction),
                },
            )
        },
        None => None,
    }
}

/// The magnitude pattern closest to `digits * 10^exponent`.
#[verifier::opaque]
pub open spec fn decimal_magnitude(digits: nat, exponent: int) -> nat {
    if exponent >= 0 {
        nearest(digits * pow(10, exponent as nat) as nat * pow2(149), 1)
    } else {
        nearest(digits * pow2(149), pow(10, (-exponent) as nat) as nat)
    }
}

/// The number that a numeral denotes.
pub open spec fn denoted(t: Seq<u8>) -> Option<Single> {
    match decimal(t) {
        Some(d) => Some(Single::of(d.negative, decimal_magnitude(d.digits, d.exponent))),
        None => None,
    }
}

proof fn lemma_number_bound(s: Seq<u8>)
    requires
        forall|i: int| 0 <= i < s.len() ==> is_digit(s[i]),
    ensures
        number(s) < pow(10, s.len()),
    decreases s.len(),
{
    lemma_pow0(10);
    if s.len() > 0 {
        lemma_number_bound(s.drop_last());
        lemma_pow_adds(10, 1, (s.len() - 1) as nat);
        lemma_pow1(10);
    }
}

proof fn lemma_ten_above_eight(k: nat)
    ensures
        pow(10, k) >= pow2(3 * k),
    decreases k,
{
    lemma2_to64();
    lemma_pow0(10);
    if k > 0 {
        lemma_ten_above_eight((k - 1) as nat);
        lemma_pow_adds(10, 1, (k - 1) as nat);
        lemma_pow1(10);
        lemma_pow2_adds(3, (3 * (k - 1)) as nat);
        assert(3 + 3 * (k - 1) == 3 * k);
    }
}

proof fn lemma_too_large(n: nat, d: nat)
    requires
        d > 0,
        n >= d * pow2(278),
    ensures
        nearest(n, d) == INFINITY_BITS,
{
    reveal(nearest);
    lemma_coarseness_at_least(n, d, 255);
}

proof fn lemma_too_small(n: nat, d: nat)
    requires
        2 * n < d,
    ensures
        nearest(n, d) == 0,
{
    reveal(nearest);
    assert(n < d * SIGNIFICAND_LIMIT) by (nonlinear_arith)
        requires
            2 * n < d,
    ;
    lemma2_to64();
    assert(d * pow2(0) == d);
    vstd::arithmetic::div_mod::lemma_fundamental_div_mod_converse(
        n as int,
        d as int,
        0,
        n as int,
    );
    assert(0 * HIDDEN_BIT as nat == 0);
}

proof fn lemma_overflow(digits: nat, exponent: int)
    requires
        digits > 0,
        exponent > 44,
    ensures
        decimal_magnitude(digits, exponent) == INFINITY_BITS,
{
    reveal(decimal_magnitude);
    let k = exponent as nat;
    lemma_ten_above_eight(k);
    if 3 * k > 129 {
        lemma_pow2_strictly_increases(129, 3 * k);
    }
    lemma_pow2_adds(129, 149);
    let p = pow(10, k);
    let u = pow2(149) as int;
    assert(digits * p * u >= pow2(129) * u) by (nonlinear_arith)
        requires
            digits >= 1,
            p >= pow2(129),
            u >= 0,
    ;
    lemma_too_large((digits * p * u) as nat, 1);
    assert(1 * pow2(278) == pow2(278));
}

proof fn lemma_underflow(digits: nat, count: nat, exponent: int)
    requires
        digits < pow(10, count),
        exponent + count < -50,
    ensures
        decimal_magnitude(digits, exponent) == 0,
{
    reveal(decimal_magnitude);
    let k = (-exponent) as nat;
    let rest = (k - count) as nat;
    lemma_pow_adds(10, count, rest);
    lemma_ten_above_eight(rest);
    if 3 * rest > 150 {
        lemma_pow2_strictly_increases(150, 3 * rest);
    }
    lemma_pow2_unfold(150);
    lemma_pow2_pos(149);
    lemma_pow_positive(10, count);
    let c = pow(10, count);
    let r = pow(10, rest);
    let u = pow2(149) as int;
    assert(2 * (digits * u) < c * r) by (nonlinear_arith)
        requires
            digits < c,
            r >= 2 * u,
            u > 0,
    ;
    lemma_too_small((digits * u) as nat, (c * r) as nat);
}

/// The position after the digits that begin at `i`.
fn scan_digits(t: &[u8], i: usize) -> (end: usize)
    requires
        i <= t@.len(),
    ensures
        end == digits_end(t@, i as nat),
        i <= end <= t@.len(),
        forall|j: int| i <= j < end ==> is_digit(t@[j]),
{
    let mut j: usize = i;
    while j < t.len() && check_digit(t[j])
        invariant
            i <= j <= t@.len(),
            digits_end(t@, j as nat) == digits_end(t@, i as nat),
            forall|l: int| i <= l < j ==> is_digit(t@[l]),
        decreases t@.len() - j,
    {
        j = j + 1;
    }
    j
}

proof fn lemma_number_push(head: Seq<u8>, t: Seq<u8>, i: int, j: int)
    requires
        0 <= i <= j < t.len(),
    ensures
        number(head + t.subrange(i, j + 1)) == 10 * number(head + t.subrange(i, j)) + (t[j]
            - '0' as u8) as nat,
{
    let next = head + t.subrange(i, j + 1);
    assert(next.drop_last() =~= head + t.subrange(i, j));
}

/// Appends the digits `t[i..end]` to a number.
fn append_digits(n: &mut BigNatural, t: &[u8], i: usize, end: usize, Ghost(head): Ghost<Seq<u8>>)
    requires
        i <= end <= t@.len(),
        forall|j: int| i <= j < end ==> is_digit(t@[j]),
        old(n)@ == number(head),
    ensures
        final(n)@ == number(head + t@.subrange(i as int, end as int)),
{
    let mut j: usize = i;
    assert(head + t@.subrange(i as int, i as int) =~= head);
    while j < end
        invariant
            i <= j <= end <= t@.len(),
            forall|l: int| i <= l < end ==> is_digit(t@[l]),
            n@ == number(head + t@.subrange(i as int, j as int)),
        decreases end - j,
    {
        proof {
            lemma_number_push(head, t@, i as int, j as int);
        }
        n.multiply_add(10, (t[j] - '0' as u8) as u32);
        j = j + 1;
    }
}

/// A bound on exponents beyond which only zero and infinity remain: 2^100.
const EXPONENT_CAP: u128 = 0x10_0000_0000_0000_0000_0000_0000;

/// The number that the digits `t[i..end]` write, or the cap if it is less.
fn capped_number(t: &[u8], i: usize, end: usize) -> (r: u128)
    requires
        i <= end <= t@.len(),
        forall|j: int| i <= j < end ==> is_digit(t@[j]),
    ensures
        r <= EXPONENT_CAP,
        r < EXPONENT_CAP ==> r == number(t@.subrange(i as int, end as int)),
        r == EXPONENT_CAP ==> number(t@.subrange(i as int, end as int)) >= EXPONENT_CAP,
{
    let mut v: u128 = 0;
    let mut j: usize = i;
    while j < end
        invariant
            i <= j <= end <= t@.len(),
            forall|l: int| i <= l < end ==> is_digit(t@[l]),
            v <= EXPONENT_CAP,
            v < EXPONENT_CAP ==> v == number(t@.subrange(i as int, j as int)),
            v == EXPONENT_CAP ==> number(t@.subrange(i as int, j as int)) >= EXPONENT_CAP,
        decreases end - j,
    {
        proof {
            lemma_number_push(Seq::empty(), t@, i as int, j as int);
            assert(Seq::empty() + t@.subrange(i as int, j as int) =~= t@.subrange(
                i as int,
                j as int,
            ));
            assert(Seq::empty() + t@.subrange(i as int, j + 1) =~= t@.subrange(i as int, j + 1));
        }
        let next: u128 = v * 10 + (t[j] - '0' as u8) as u128;
        v = if next < EXPONENT_CAP {
            next
        } else {
            EXPONENT_CAP
        };
        j = j + 1;
    }
    v
}

/// `n * 10^k`.
fn times_power_of_ten(n: &mut BigNatural, k: u128)
    ensures
        final(n)@ == old(n)@ * pow(10, k as nat),
{
    let mut i: u128 = 0;
    proof {
        lemma_pow0(10);
    }
    let ghost start = n@;
    while i < k
        invariant
            i <= k,
            n@ == start * pow(10, i as nat),
        decreases k - i,
    {
        proof {
            lemma_pow_adds(10, 1, i as nat);
            lemma_pow1(10);
            let p = pow(10, i as nat);
            assert((start * p) * 10 == start * (10 * p)) by (nonlinear_arith);
        }
        n.multiply_add(10, 0);
        i = i + 1;
    }
}

/// The magnitude pattern closest to `num / den`.
fn nearest_quotient(num: BigNatural, den: BigNatural) -> (bits: u32)
    requires
        num@ > 0,
        den@ > 0,
    ensures
        bits == nearest(num@ * pow2(149), den@),
        bits <= INFINITY_BITS,
{
    let mut rest = num;
    let mut divisor = den;
    let ghost n0 = num@;
    let ghost d0 = den@;
    let mut up: u32 = 0;
    proof {
        lemma2_to64();
    }
    // Double the denominator until it exceeds the numerator.
    while rest.at_least(&divisor)
        invariant
            up <= 200,
            rest@ == n0,
            n0 > 0,
            n0 == num@,
            d0 == den@,
            d0 > 0,
            divisor@ == d0 * pow2(up as nat),
        decreases 200 - up,
    {
        if up == 200 {
            proof {
                lemma_pow2_adds(200, 149);
                lemma_pow2_pos(149);
                lemma_pow2_strictly_increases(278, 349);
                let u = pow2(149) as int;
                let w = pow2(200) as int;
                let big = pow2(278) as int;
                assert(n0 * u >= d0 * big) by (nonlinear_arith)
                    requires
                        n0 >= d0 * w,
                        w * u >= big,
                        u > 0,
                        d0 > 0,
                ;
                lemma_too_large(n0 * pow2(149), d0);
            }
            return INFINITY_BITS;
        }
        proof {
            lemma_pow2_unfold((up + 1) as nat);
            let w = pow2(up as nat) as int;
            assert((d0 * w) * 2 == d0 * (2 * w)) by (nonlinear_arith);
        }
        divisor.multiply_add(2, 0);
        up = up + 1;
    }
    // Take binary digits of the quotient until the significand is full.
    let mut m: u64 = 0;
    let mut taken: u32 = 0;
    let ghost d1 = divisor@;
    assert(n0 * pow2(0) == n0);
    while m < 0x200_0000
        invariant
            m < 0x400_0000,
            taken <= 400,
            up <= 200,
            n0 > 0,
            n0 == num@,
            d0 == den@,
            d0 > 0,
            d1 == d0 * pow2(up as nat),
            divisor@ == d1,
            rest@ < d1,
            n0 * pow2(taken as nat) == m * d1 + rest@,
        decreases 400 - taken,
    {
        if taken == 400 {
            proof {
                lemma_tiny(n0, d0, up as nat, m as nat, rest@);
            }
            return 0;
        }
        proof {
            lemma_pow2_unfold((taken + 1) as nat);
            let w = pow2(taken as nat) as int;
            let r = rest@ as int;
            assert(n0 * (2 * w) == (2 * m) * d1 + 2 * r) by (nonlinear_arith)
                requires
                    n0 * w == m * d1 + r,
            ;
            assert((2 * m + 1) * d1 == (2 * m) * d1 + d1) by (nonlinear_arith);
        }
        rest.multiply_add(2, 0);
        m = m * 2;
        if rest.at_least(&divisor) {
            rest.subtract(&divisor);
            m = m + 1;
        }
        taken = taken + 1;
    }
    let sticky: bool = !rest.is_zero();
    let e: i32 = up as i32 - taken as i32 + 149;
    proof {
        lemma_digits_bracket(n0, d0, up as nat, taken as nat, m as nat, rest@);
    }
    round_scaled(m, e, sticky, Ghost(n0 * pow2(149)), Ghost(d0))
}

proof fn lemma_tiny(n: nat, d: nat, up: nat, m: nat, rest: nat)
    requires
        up <= 200,
        m < 0x200_0000,
        rest < d * pow2(up),
        n * pow2(400) == m * (d * pow2(up)) + rest,
    ensures
        nearest(n * pow2(149), d) == 0,
{
    lemma2_to64();
    let g = pow2(up) as int;
    lemma_pow2_pos(up);
    if up < 200 {
        lemma_pow2_strictly_increases(up, 200);
    }
    let c = pow2(200) as int;
    lemma_pow2_adds(200, 200);
    lemma_pow2_adds(150, 50);
    lemma_pow2_adds(25, 25);
    lemma_pow2_unfold(150);
    lemma_pow2_pos(149);
    let u = pow2(149) as int;
    let q = pow2(25) as int;
    assert(q == 0x200_0000);
    // n * 2^400 < 2^25 * d * 2^200, so n * 2^175 < d.
    assert(n * (c * c) < q * (d * c)) by (nonlinear_arith)
        requires
            n * (c * c) == m * (d * g) + rest,
            rest < d * g,
            m + 1 <= q,
            0 < g <= c,
            d >= 0,
    ;
    assert(n * c < q * d) by (nonlinear_arith)
        requires
            n * (c * c) < q * (d * c),
            c > 0,
    ;
    assert(c == (2 * u) * (q * q));
    assert(2 * (n * u) < d) by (nonlinear_arith)
        requires
            n * c < q * d,
            c == (2 * u) * (q * q),
            q == 0x200_0000,
            n >= 0,
            u > 0,
    ;
    lemma_too_small((n * u) as nat, d);
}

proof fn lemma_digits_bracket(n: nat, d: nat, up: nat, taken: nat, m: nat, rest: nat)
    requires
        d > 0,
        rest < d * pow2(up),
        n * pow2(taken) == m * (d * pow2(up)) + rest,
    ensures
        brackets(n * pow2(149), d, m, up - taken + 149, rest != 0),
{
    let e = up - taken + 149;
    let neg: nat = if e < 0 { (-e) as nat } else { 0 };
    let pos: nat = if e < 0 { 0 } else { e as nat };
    let c = pow2(taken) as int;
    let g = pow2(up) as int;
    let u = pow2(149) as int;
    let pn = pow2(neg) as int;
    let pp = pow2(pos) as int;
    lemma_pow2_pos(taken);
    lemma_pow2_pos(neg);
    lemma_pow2_pos(149);
    lemma_pow2_adds(149, neg);
    lemma_pow2_adds(up, 149 + neg);
    lemma_pow2_adds(pos, taken);
    let x = u * pn;
    assert(g * x == pp * c);
    let a = n * u * pn;
    let b = d * pp;
    let f = d * g;
    assert(x > 0) by (nonlinear_arith)
        requires
            x == u * pn,
            u > 0,
            pn > 0,
    ;
    assert(a * c == (n * c) * x) by (nonlinear_arith)
        requires
            a == n * u * pn,
            x == u * pn,
    ;
    assert(f * x == b * c) by (nonlinear_arith)
        requires
            f == d * g,
            b == d * pp,
            g * x == pp * c,
    ;
    assert((m * f + rest) * x == m * (f * x) + rest * x) by (nonlinear_arith);
    assert(m * (b * c) == (m * b) * c) by (nonlinear_arith);
    assert(a * c == (m * b) * c + rest * x);
    assert(0 <= rest * x < b * c) by (nonlinear_arith)
        requires
            0 <= rest < f,
            x > 0,
            f * x == b * c,
    ;
    assert(m * b <= a) by (nonlinear_arith)
        requires
            a * c >= (m * b) * c,
            c > 0,
    ;
    assert((m + 1) * b * c == (m * b) * c + b * c) by (nonlinear_arith);
    assert(a < (m + 1) * b) by (nonlinear_arith)
        requires
            a * c < (m + 1) * b * c,
            c > 0,
    ;
    assert(rest != 0 <==> a != m * b) by (nonlinear_arith)
        requires
            a * c == (m * b) * c + rest * x,
            c > 0,
            x > 0,
    ;
}

/// The exponent part from `i` on, held within the cap.
fn scan_exponent(t: &[u8], i: usize) -> (r: Option<i128>)
    requires
        i <= t@.len(),
    ensures
        r is Some <==> exponent_part(t@, i as nat) is Some,
        r matches Some(x) ==> {
            let e = exponent_part(t@, i as nat).unwrap();
            &&& -EXPONENT_CAP <= x <= EXPONENT_CAP
            &&& -EXPONENT_CAP < x < EXPONENT_CAP ==> x == e
            &&& x == EXPONENT_CAP ==> e >= EXPONENT_CAP
            &&& x == -EXPONENT_CAP ==> e <= -EXPONENT_CAP
        },
{
    if i == t.len() {
        return Some(0);
    }
    if !(t[i] == 'e' as u8 || t[i] == 'E' as u8) {
        return None;
    }
    let signed: bool = t.len() - i > 1 && (t[i + 1] == '+' as u8 || t[i + 1] == '-' as u8);
    let from: usize = if signed {
        i + 2
    } else {
        i + 1
    };
    let to: usize = scan_digits(t, from);
    if from == to || to != t.len() {
        return None;
    }
    let n: u128 = capped_number(t, from, to);
    if signed && t[i + 1] == '-' as u8 {
        Some(-(n as i128))
    } else {
        Some(n as i128)
    }
}

/// The magnitude pattern closest to `n * 10^exponent`. The exponent is given by `scale`,
/// which may fall short of it where only zero or infinity is left.
fn decimal_bits(n: BigNatural, count: u128, scale: i128, Ghost(exponent): Ghost<int>) -> (bits: u32)
    requires
        n@ < pow(10, count as nat),
        count < 0x1_0000_0000_0000_0000_0000,
        scale > 44 ==> exponent > 44,
        scale + count < -50 ==> exponent + count < -50,
        scale <= 44 && scale + count >= -50 ==> exponent == scale,
        -0x20_0000_0000_0000_0000_0000_0000 <= scale <= 0x20_0000_0000_0000_0000_0000_0000,
    ensures
        bits == decimal_magnitude(n@, exponent),
        bits <= INFINITY_BITS,
{
    proof {
        reveal(decimal_magnitude);
    }
    if n.is_zero() {
        proof {
            lemma_pow2_pos(149);
            if exponent >= 0 {
                let p = pow(10, exponent as nat) as nat;
                let u = pow2(149);
                assert(0nat * p * u == 0) by (nonlinear_arith);
                lemma_too_small(0, 1);
            } else {
                lemma_pow_positive(10, (-exponent) as nat);
                lemma_too_small(0, pow(10, (-exponent) as nat) as nat);
            }
        }
        0
    } else if scale > 44 {
        proof {
            lemma_overflow(n@, exponent);
        }
        INFINITY_BITS
    } else if scale + (count as i128) < -50 {
        proof {
            lemma_underflow(n@, count as nat, exponent);
        }
        0
    } else {
        let mut num = n;
        let mut den = BigNatural::zero();
        den.multiply_add(1, 1);
        assert(den@ == 1);
        if scale >= 0 {
            times_power_of_ten(&mut num, scale as u128);
            proof {
                lemma_pow_positive(10, scale as nat);
                let p = pow(10, scale as nat);
                let v = n@ as int;
                assert(v * p > 0) by (nonlinear_arith)
                    requires
                        v > 0,
                        p > 0,
                ;
                assert(num@ == n@ * pow(10, scale as nat) as nat);
            }
        } else {
            times_power_of_ten(&mut den, (-scale) as u128);
            proof {
                lemma_pow_positive(10, (-scale) as nat);
                assert(1 * pow(10, (-scale) as nat) == pow(10, (-scale) as nat));
            }
        }
        nearest_quotient(num, den)
    }
}

/// The number that the digits `t[start..point]` and then `t[fraction..end]` write.
fn digits_number(t: &[u8], start: usize, point: usize, fraction: usize, end: usize) -> (n:
    BigNatural)
    requires
        start <= point <= t@.len(),
        fraction <= end <= t@.len(),
        forall|j: int| start <= j < point ==> is_digit(t@[j]),
        forall|j: int| fraction <= j < end ==> is_digit(t@[j]),
    ensures
        n@ == number(
            t@.subrange(start as int, point as int) + t@.subrange(fraction as int, end as int),
        ),
        n@ < pow(10, (point - start + end - fraction) as nat),
{
    let ghost whole = t@.subrange(start as int, point as int);
    let ghost digits = whole + t@.subrange(fraction as int, end as int);
    let mut n = BigNatural::zero();
    append_digits(&mut n, t, start, point, Ghost(Seq::empty()));
    assert(Seq::empty() + whole =~= whole);
    append_digits(&mut n, t, fraction, end, Ghost(whole));
    proof {
        lemma_number_bound(digits);
    }
    n
}

/// The number that a numeral denotes, or `None` for bytes that are no numeral.
#[verifier::rlimit(40)]
pub fn parse_decimal(t: &[u8]) -> (r: Option<Single>)
    ensures
        r == denoted(t@),
{
    let start: usize = if t.len() > 0 && (t[0] == '+' as u8 || t[0] == '-' as u8) {
        1
    } else {
        0
    };
    let negative: bool = start == 1 && t[0] == '-' as u8;
    let point: usize = scan_digits(t, start);
    let fraction: usize = if point < t.len() && t[point] == '.' as u8 {
        point + 1
    } else {
        point
    };
    let end: usize = if fraction > point {
        scan_digits(t, fraction)
    } else {
        point
    };
    let places: usize = end - fraction;
    let exponent: i128 = match scan_exponent(t, end) {
        Some(e) => e,
        None => {
            return None;
        },
    };
    let count: usize = point - start;
    if count == 0 && places == 0 {
        return None;
    }
    let ghost whole = decimal(t@).unwrap();
    let n = digits_number(t, start, point, fraction, end);
    assert(n@ == whole.digits);
    let bits: u32 = decimal_bits(
        n,
        count as u128 + places as u128,
        exponent - places as i128,
        Ghost(whole.exponent),
    );
    Some(
        if negative {
            Single { bits: bits + SIGN_BIT }
        } else {
            Single { bits }
        },
    )
}

} // verus!
