//! Figures of benchmarks and comparisons.

use vstd::prelude::*;

use crate::closeness::lemma_power_pattern;
use crate::index::{Index, SearchResult};
use crate::precision::{
    distance, is_closest, law_operations_find_the_closest, law_operations_round_once,
    law_patterns_stand_for_numbers, rounds,
};
use crate::scoring::is_approved;
use crate::single::{lemma_one, Single, ONE, SIGN_BIT, ZERO};
use crate::topk::fifths;
use crate::vector::Vector;

verus! {

/// The value below which `p` in a hundred of sorted values lie.
pub fn percentile(values: &[u64], p: usize) -> (r: u64)
    requires
        values@.len() > 0,
        (values@.len() - 1) * p <= usize::MAX,
        (values@.len() - 1) * p / 100 < values@.len(),
    ensures
        r == values@[(values@.len() - 1) * p / 100],
{
    let last: usize = values.len() - 1;
    let idx: usize = (last * p) / 100;
    values[idx]
}

/// The score of a vector, however long the search takes.
pub fn score(index: &Index, vector: &Vector) -> (r: Single)
    ensures
        r == index.score(vector@),
{
    match index.fraud_score(vector, None) {
        SearchResult::Score(score) => score,
        SearchResult::TimedOut => Single::from_bits(ZERO),
    }
}

/// The distance between two scores.
pub open spec fn score_delta(a: Single, b: Single) -> Single {
    Single::of(false, a.difference(b).magnitude())
}

/// The larger of a number and another; the number if the other is not one.
pub open spec fn larger(a: Single, b: Single) -> Single {
    if a.is_nan() || a.less(b) {
        b
    } else {
        a
    }
}

/// The pattern of 2^-23, the distance from one to the next number.
pub const EPSILON: u32 = 0x3400_0000;

/// How the scores of two indexes differ.
#[derive(Clone, Copy, Debug)]
pub struct Comparison {
    pub score_mismatches: usize,
    pub decision_mismatches: usize,
    pub max_delta: Single,
}

impl Comparison {
    /// No scores yet.
    pub fn new() -> (r: Comparison)
        ensures
            r.score_mismatches == 0,
            r.decision_mismatches == 0,
            r.max_delta == Single::from_bits(ZERO),
    {
        Comparison {
            score_mismatches: 0,
            decision_mismatches: 0,
            max_delta: Single::from_bits(ZERO),
        }
    }

    /// Takes two scores of one vector: they differ if they are farther apart than the
    /// distance from one to the next number, and so do the decisions if one approves and
    /// the other does not.
    pub fn record(&mut self, expected: Single, candidate: Single)
        requires
            old(self).score_mismatches < usize::MAX,
            old(self).decision_mismatches < usize::MAX,
        ensures
            ({
                let delta = score_delta(expected, candidate);
                &&& final(self).max_delta == larger(old(self).max_delta, delta)
                &&& final(self).score_mismatches == old(self).score_mismatches + if Single::from_bits(
                    EPSILON,
                ).less(delta) {
                    1int
                } else {
                    0
                }
                &&& final(self).decision_mismatches == old(self).decision_mismatches
                    + if expected.less(fifths(3)) != candidate.less(fifths(3)) {
                    1int
                } else {
                    0
                }
            }),
    {
        let difference: Single = expected.minus(candidate);
        let delta: Single = Single { bits: difference.bits % SIGN_BIT };
        assert(delta == score_delta(expected, candidate));
        if self.max_delta.check_nan() || self.max_delta.lt(delta) {
            self.max_delta = delta;
        }
        if Single::from_bits(EPSILON).lt(delta) {
            self.score_mismatches = self.score_mismatches + 1;
        }
        if is_approved(expected) != is_approved(candidate) {
            self.decision_mismatches = self.decision_mismatches + 1;
        }
    }
}

/// The distance of two finite scores is the number closest to it, and the larger of two
/// numbers is one of them and none is less. Where one is no number, it is the other.
pub proof fn law_deltas_are_distances(a: Single, b: Single)
    ensures
        a.is_finite() && b.is_finite() && score_delta(a, b).is_finite() ==> is_closest(
            score_delta(a, b),
            distance(a.value(), b.value()),
            1,
        ),
        a.is_finite() && b.is_finite() ==> rounds(
            score_delta(a, b),
            distance(a.value(), b.value()),
            1,
        ),
        a.is_nan() || b.is_nan() ==> score_delta(a, b).is_nan(),
        larger(a, b) == a || larger(a, b) == b,
        a.is_finite() && b.is_finite() ==> larger(a, b).value() >= a.value() && larger(
            a,
            b,
        ).value() >= b.value(),
        a.is_nan() ==> larger(a, b) == b,
        b.is_nan() && !a.is_nan() ==> larger(a, b) == a,
        Single::from_bits(EPSILON).value() * 0x80_0000 == Single::from_bits(ONE).value(),
{
    let d = a.difference(b);
    let x = score_delta(a, b);
    if a.is_finite() && b.is_finite() {
        law_operations_find_the_closest(0, a, b);
        law_patterns_stand_for_numbers(0, a, b);
    }
    lemma_one();
    lemma_power_pattern(EPSILON as nat, 103);
    vstd::arithmetic::power2::lemma_pow2_adds(23, 103);
    vstd::arithmetic::power2::lemma_pow2_adds(23, 126);
    vstd::arithmetic::power2::lemma2_to64();
    assert(x.magnitude() == d.magnitude());
    if a.is_finite() && b.is_finite() {
        law_operations_round_once(0, a, b);
        reveal(rounds);
    }
    if a.is_finite() && b.is_finite() && x.is_finite() {
        lemma_without_sign(d, x, a.value() - b.value());
    }
}

/// Without its sign, a number is closest to what it was closest to, without its sign.
proof fn lemma_without_sign(d: Single, x: Single, n: int)
    requires
        is_closest(d, n, 1),
        x.is_finite(),
        !x.is_negative(),
        x.magnitude() == d.magnitude(),
    ensures
        is_closest(
            x,
            if n < 0 {
                -n
            } else {
                n
            },
            1,
        ),
{
    reveal(is_closest);
    let m = if n < 0 {
        -n
    } else {
        n
    };
    let v = x.value();
    assert(distance(v, m) <= distance(d.value(), n));
    assert forall|y: Single| y.is_finite() implies distance(x.value() * 1, m) <= distance(
        #[trigger] y.value() * 1,
        m,
    ) by {
        let z = y.opposite();
        assert(z.magnitude() == y.magnitude());
        assert(z.value() == -y.value());
        assert(distance(d.value() * 1, n) <= distance(y.value() * 1, n));
        assert(distance(d.value() * 1, n) <= distance(z.value() * 1, n));
    }
}

} // verus!
