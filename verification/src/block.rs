//! Distances of eight records at once, in single precision.
//!
//! The components of records and queries are whole numbers of 16 bits, so every distance is
//! a whole number too. A single-precision register holds it to 24 significant bits, and a
//! fused multiply-add rounds once: after each component the sum is rounded to 24 bits.

use vstd::prelude::*;
use vstd::arithmetic::power2::*;

use crate::distance::{lemma_square, square, BLOCK_DIMS_LEN, BLOCK_RECORDS};
use crate::layout::DIMS;
use crate::rounding::{
    coarseness, lemma_coarseness, lemma_coarseness_bounds, lemma_parts, lemma_round_half_even_scale,
    nearest, round_half_even, units, HIDDEN_BIT, SIGNIFICAND_LIMIT,
};
use crate::single::{lemma_integer, Single};

verus! {

/// `n` rounded to 24 significant bits, ties to even.
pub open spec fn significant(n: nat) -> nat {
    round_half_even(n, pow2(coarseness(n, 1))) * pow2(coarseness(n, 1))
}

/// The distance over the first `n` components, rounded after each of them.
pub open spec fn rounded_distance(q: Seq<i16>, c: Seq<i16>, n: nat) -> nat
    decreases n,
{
    if n == 0 {
        0
    } else {
        significant(
            (rounded_distance(q, c, (n - 1) as nat) + square(q[n - 1] - c[n - 1])) as nat,
        )
    }
}

/// The components of the record in place `j` of a block.
pub open spec fn column(block: Seq<i16>, j: int) -> Seq<i16> {
    Seq::new(DIMS as nat, |d: int| block[8 * d + j])
}

/// The error of rounding to 24 bits is at most one part in 2^24.
pub proof fn lemma_significant(n: nat)
    ensures
        n < SIGNIFICAND_LIMIT ==> significant(n) == n,
        SIGNIFICAND_LIMIT * (significant(n) - n) <= n,
        SIGNIFICAND_LIMIT * (n - significant(n)) <= n,
{
    let s = coarseness(n, 1);
    let w = pow2(s);
    lemma2_to64();
    lemma_pow2_pos(s);
    lemma_coarseness_bounds(n, 1);
    let q = n / w;
    let r = n % w;
    vstd::arithmetic::div_mod::lemma_fundamental_div_mod(n as int, w as int);
    assert(n == w * q + r);
    let k = round_half_even(n, w);
    assert(q * w == w * q) by (nonlinear_arith);
    assert((q + 1) * w == w * q + w) by (nonlinear_arith);
    assert(k * w == w * q || k * w == w * q + w);
    if s > 0 {
        lemma_pow2_adds(23, s);
        assert(0x80_0000 * w <= n);
    } else {
        assert(w == 1);
        assert(r == 0);
    }
}

/// Rounding to 24 bits keeps the order.
pub proof fn lemma_significant_monotone(a: nat, b: nat)
    requires
        a <= b,
    ensures
        significant(a) <= significant(b),
{
    let s = coarseness(a, 1);
    let t = coarseness(b, 1);
    let v = pow2(s);
    let w = pow2(t);
    lemma2_to64();
    lemma_pow2_pos(s);
    lemma_pow2_pos(t);
    lemma_coarseness_bounds(a, 1);
    lemma_coarseness_bounds(b, 1);
    lemma_pow2_adds(24, s);
    lemma_pow2_adds(24, t);
    if s > 0 {
        lemma_pow2_adds(23, s);
    }
    if t > 0 {
        lemma_pow2_adds(23, t);
    }
    if s > t {
        // a >= 2^(s + 23) >= 2^(t + 24) > b
        if s > t + 1 {
            lemma_pow2_strictly_increases(t + 24, (s + 23) as nat);
        }
        assert(false);
    }
    let x = round_half_even(a, v);
    let y = round_half_even(b, w);
    vstd::arithmetic::div_mod::lemma_fundamental_div_mod(a as int, v as int);
    vstd::arithmetic::div_mod::lemma_fundamental_div_mod(b as int, w as int);
    let qa = a / v;
    let qb = b / w;
    if s == t {
        let ra = a % v;
        let rb = b % v;
        assert(qa <= qb) by (nonlinear_arith)
            requires
                v * qa + ra <= v * qb + rb,
                0 <= ra,
                rb < v,
                v > 0,
        ;
        if qa == qb {
            assert(a % v <= b % v);
        }
        assert(x <= y);
        assert(x * v <= y * v) by (nonlinear_arith)
            requires
                x <= y,
        ;
    } else {
        if s + 24 < t + 23 {
            lemma_pow2_strictly_increases(s + 24, (t + 23) as nat);
        }
        assert(qa < 0x100_0000) by (nonlinear_arith)
            requires
                v * qa + (a % v) < 0x100_0000 * v,
                0 <= a % v,
                v > 0,
        ;
        assert(x * v <= 0x100_0000 * v) by (nonlinear_arith)
            requires
                x <= 0x100_0000,
        ;
        assert(qb >= 0x80_0000) by (nonlinear_arith)
            requires
                w * qb + (b % w) >= 0x80_0000 * w,
                b % w < w,
                w > 0,
        ;
        assert(y * w >= 0x80_0000 * w) by (nonlinear_arith)
            requires
                y >= 0x80_0000,
        ;
    }
}

/// Rounding to 24 bits is what single precision does to a whole number.
pub proof fn law_significant_is_single_precision(n: nat)
    requires
        n < pow2(100),
    ensures
        Single::integer(n).is_finite(),
        !Single::integer(n).is_negative(),
        Single::integer(n).value() == significant(n) * pow2(149),
{
    let p = pow2(149);
    lemma2_to64();
    lemma_pow2_pos(149);
    lemma_significant(n);
    if n < SIGNIFICAND_LIMIT {
        lemma_integer(n);
    } else {
        let s = coarseness(n, 1);
        let w = pow2(s);
        lemma_coarseness_bounds(n, 1);
        lemma_pow2_pos(s);
        if s == 0 {
            assert(false);
        }
        if s > 77 {
            if s + 23 > 100 {
                lemma_pow2_strictly_increases(100, (s + 23) as nat);
            }
            assert(false);
        }
        // The same coarseness, 149 powers of two up.
        lemma_pow2_adds(s + 24, 149);
        lemma_pow2_adds((s + 23) as nat, 149);
        lemma_pow2_adds(s, 149);
        assert(n * p < pow2(s + 24) * p) by (nonlinear_arith)
            requires
                n < pow2(s + 24),
                p > 0,
        ;
        assert(n * p >= pow2((s + 23) as nat) * p) by (nonlinear_arith)
            requires
                n >= pow2((s + 23) as nat),
        ;
        lemma_coarseness(n * p, 1, s + 149);
        lemma_round_half_even_scale(n, w, p);
        let k = round_half_even(n, w);
        lemma_pow2_adds(23, s);
        lemma_pow2_adds(24, s);
        vstd::arithmetic::div_mod::lemma_fundamental_div_mod(n as int, w as int);
        let q = n / w;
        assert(0x80_0000 <= q < 0x100_0000) by (nonlinear_arith)
            requires
                w * q + (n % w) >= 0x80_0000 * w,
                w * q + (n % w) < 0x100_0000 * w,
                0 <= n % w < w,
        ;
        reveal(nearest);
        let e = s + 149;
        let bits = e * HIDDEN_BIT as nat + k;
        assert(nearest(n * p, 1) == bits);
        lemma_parts(bits);
        lemma_pow2_unfold(e + 1);
        if k < 0x100_0000 {
            vstd::arithmetic::div_mod::lemma_fundamental_div_mod_converse(
                bits as int,
                HIDDEN_BIT as int,
                e as int + 1,
                k - HIDDEN_BIT,
            );
            assert(units(bits) == k * pow2(e));
        } else {
            vstd::arithmetic::div_mod::lemma_fundamental_div_mod_converse(
                bits as int,
                HIDDEN_BIT as int,
                e as int + 2,
                0,
            );
            assert(units(bits) == 0x80_0000 * pow2(e + 1));
        }
        assert(k * (w * p) == (k * w) * p) by (nonlinear_arith);
        assert(pow2(e) == w * p);
        assert(0x80_0000 * (2 * pow2(e)) == 0x100_0000 * pow2(e));
        assert(units(bits) == k * pow2(e));
        assert(Single::integer(n).magnitude() == bits);
    }
}

/// `n` rounded to 24 significant bits.
pub(crate) fn keep_24_bits(n: u64) -> (r: u64)
    requires
        n < 0x100_0000_0000,
    ensures
        r == significant(n as nat),
{
    let mut w: u64 = 1;
    let ghost mut s: nat = 0;
    proof {
        lemma2_to64();
        assert(n < 0x100_0000_0000);
    }
    while n / w >= 0x100_0000
        invariant
            n < 0x100_0000_0000,
            w == pow2(s),
            0 < w <= 0x2_0000,
            s > 0 ==> n >= 0x80_0000 * w,
        decreases 0x4_0000 - w,
    {
        proof {
            lemma_pow2_unfold(s + 1);
            vstd::arithmetic::div_mod::lemma_fundamental_div_mod(n as int, w as int);
            assert(n >= 0x100_0000 * w) by (nonlinear_arith)
                requires
                    n == w * (n / w) + n % w,
                    n / w >= 0x100_0000,
                    0 <= n % w,
            ;
        }
        w = w * 2;
        proof {
            s = s + 1;
        }
    }
    let q: u64 = n / w;
    let r: u64 = n % w;
    proof {
        vstd::arithmetic::div_mod::lemma_fundamental_div_mod(n as int, w as int);
        assert(n < 0x100_0000 * w) by (nonlinear_arith)
            requires
                n == w * q + r,
                q < 0x100_0000,
                r < w,
        ;
        lemma2_to64();
        lemma_pow2_adds(24, s);
        lemma_pow2_adds(23, s);
        lemma_coarseness(n as nat, 1, s);
        assert(q * w <= n) by (nonlinear_arith)
            requires
                n == w * q + r,
        ;
        assert((q + 1) * w == q * w + w) by (nonlinear_arith);
    }
    if 2 * r < w || (2 * r == w && q % 2 == 0) {
        q * w
    } else {
        (q + 1) * w
    }
}

/// The distances of a query and the eight records of a block.
pub fn block_distance_8(block: &[i16], query: &[i16; DIMS]) -> (r: [u64; BLOCK_RECORDS])
    requires
        block@.len() >= BLOCK_DIMS_LEN,
    ensures
        forall|j: int|
            0 <= j < BLOCK_RECORDS ==> #[trigger] r@[j] == rounded_distance(
                query@,
                column(block@, j),
                DIMS as nat,
            ),
        forall|j: int| 0 <= j < BLOCK_RECORDS ==> #[trigger] r@[j] < 0x100_0000_0000,
{
    let mut accum: [u64; BLOCK_RECORDS] = [0;BLOCK_RECORDS];
    let mut d: usize = 0;
    while d < DIMS
        invariant
            d <= DIMS,
            block@.len() >= BLOCK_DIMS_LEN,
            forall|j: int|
                0 <= j < BLOCK_RECORDS ==> #[trigger] accum@[j] == rounded_distance(
                    query@,
                    column(block@, j),
                    d as nat,
                ),
            forall|j: int| 0 <= j < BLOCK_RECORDS ==> #[trigger] accum@[j] <= d * 5_000_000_000,
        decreases DIMS - d,
    {
        let ghost before = accum@;
        let mut j: usize = 0;
        while j < BLOCK_RECORDS
            invariant
                d < DIMS,
                j <= BLOCK_RECORDS,
                block@.len() >= BLOCK_DIMS_LEN,
                before.len() == BLOCK_RECORDS,
                forall|i: int|
                    0 <= i < BLOCK_RECORDS ==> #[trigger] before[i] == rounded_distance(
                        query@,
                        column(block@, i),
                        d as nat,
                    ),
                forall|i: int|
                    0 <= i < BLOCK_RECORDS ==> #[trigger] before[i] <= d * 5_000_000_000,
                forall|i: int| j <= i < BLOCK_RECORDS ==> #[trigger] accum@[i] == before[i],
                forall|i: int|
                    0 <= i < j ==> #[trigger] accum@[i] == rounded_distance(
                        query@,
                        column(block@, i),
                        (d + 1) as nat,
                    ) && accum@[i] <= (d + 1) * 5_000_000_000,
            decreases BLOCK_RECORDS - j,
        {
            let diff: i64 = query[d] as i64 - block[BLOCK_RECORDS * d + j] as i64;
            proof {
                lemma_square(diff as int, 65_535);
                assert(accum@[j as int] == before[j as int]);
                assert(column(block@, j as int)[d as int] == block@[8 * d + j]);
                lemma_significant((before[j as int] + square(diff as int)) as nat);
            }
            accum[j] = keep_24_bits(accum[j] + (diff * diff) as u64);
            j = j + 1;
        }
        d = d + 1;
    }
    accum
}

} // verus!
