//! Natural numbers of any size, as little-endian limbs of 32 bits.

use vstd::prelude::*;

verus! {

/// `2^(32 * i)`, the weight of limb `i`.
pub open spec fn weight(i: nat) -> nat
    decreases i,
{
    if i == 0 {
        1
    } else {
        0x1_0000_0000 * weight((i - 1) as nat)
    }
}

/// The number that the first `i` limbs stand for; absent limbs are zero.
pub open spec fn prefix_value(limbs: Seq<u32>, i: nat) -> nat
    decreases i,
{
    if i == 0 {
        0
    } else {
        prefix_value(limbs, (i - 1) as nat) + limb_at(limbs, i - 1) * weight((i - 1) as nat)
    }
}

pub open spec fn limb_at(limbs: Seq<u32>, i: int) -> nat {
    if 0 <= i < limbs.len() {
        limbs[i] as nat
    } else {
        0
    }
}

proof fn lemma_weight_positive(i: nat)
    ensures
        weight(i) > 0,
    decreases i,
{
    if i > 0 {
        lemma_weight_positive((i - 1) as nat);
    }
}

proof fn lemma_prefix_below_weight(limbs: Seq<u32>, i: nat)
    ensures
        prefix_value(limbs, i) < weight(i),
    decreases i,
{
    if i > 0 {
        lemma_prefix_below_weight(limbs, (i - 1) as nat);
        let w = weight((i - 1) as nat);
        let x = limb_at(limbs, i - 1);
        assert(x * w <= 0xffff_ffff * w) by (nonlinear_arith)
            requires
                x <= 0xffff_ffff,
        ;
    }
}

proof fn lemma_prefix_same(a: Seq<u32>, b: Seq<u32>, i: nat)
    requires
        forall|j: int| 0 <= j < i ==> limb_at(a, j) == limb_at(b, j),
    ensures
        prefix_value(a, i) == prefix_value(b, i),
    decreases i,
{
    if i > 0 {
        lemma_prefix_same(a, b, (i - 1) as nat);
    }
}

proof fn lemma_prefix_padded(limbs: Seq<u32>, i: nat)
    requires
        i >= limbs.len(),
    ensures
        prefix_value(limbs, i) == prefix_value(limbs, limbs.len()),
    decreases i,
{
    if i > limbs.len() {
        lemma_prefix_padded(limbs, (i - 1) as nat);
        assert(0 * weight((i - 1) as nat) == 0);
    }
}

/// Two numbers that agree above limb `i` differ as their low parts do.
proof fn lemma_prefix_common_top(a: Seq<u32>, b: Seq<u32>, i: nat, n: nat)
    requires
        i <= n,
        forall|j: int| i <= j < n ==> limb_at(a, j) == limb_at(b, j),
    ensures
        prefix_value(a, n) - prefix_value(a, i) == prefix_value(b, n) - prefix_value(b, i),
    decreases n,
{
    if i < n {
        lemma_prefix_common_top(a, b, i, (n - 1) as nat);
    }
}

pub struct BigNatural {
    limbs: Vec<u32>,
}

impl View for BigNatural {
    type V = nat;

    closed spec fn view(&self) -> nat {
        prefix_value(self.limbs@, self.limbs@.len())
    }
}

impl BigNatural {
    pub fn zero() -> (r: BigNatural)
        ensures
            r@ == 0,
    {
        BigNatural { limbs: Vec::new() }
    }

    fn limb(&self, i: usize) -> (x: u32)
        ensures
            x == limb_at(self.limbs@, i as int),
    {
        if i < self.limbs.len() {
            self.limbs[i]
        } else {
            0
        }
    }

    /// Replaces the number by `self * factor + term`.
    pub fn multiply_add(&mut self, factor: u32, term: u32)
        ensures
            final(self)@ == old(self)@ * factor + term,
    {
        let mut carry: u64 = term as u64;
        let mut i: usize = 0;
        let ghost before = self.limbs@;
        proof {
            assert(weight(0) == 1);
            assert(prefix_value(before, 0) == 0);
            assert(prefix_value(self.limbs@, 0) == 0);
            assert(0 * factor == 0);
        }
        while i < self.limbs.len()
            invariant
                i <= self.limbs@.len() == before.len(),
                carry <= 0xffff_ffff,
                forall|j: int| i <= j < before.len() ==> self.limbs@[j] == before[j],
                prefix_value(self.limbs@, i as nat) + carry * weight(i as nat) == prefix_value(
                    before,
                    i as nat,
                ) * factor + term,
            decreases self.limbs@.len() - i,
        {
            let x: u32 = self.limbs[i];
            assert(x * factor <= 0xffff_ffff * 0xffff_ffff) by (nonlinear_arith)
                requires
                    x <= 0xffff_ffff,
                    factor <= 0xffff_ffff,
            ;
            let t: u64 = x as u64 * factor as u64 + carry;
            let low: u32 = (t % 0x1_0000_0000) as u32;
            let ghost old_carry = carry;
            let ghost mid = self.limbs@;
            carry = t / 0x1_0000_0000;
            self.limbs[i] = low;
            proof {
                lemma_prefix_same(mid, self.limbs@, i as nat);
                let w = weight(i as nat) as int;
                let p = prefix_value(before, i as nat) as int;
                assert(t == carry * 0x1_0000_0000 + low);
                assert(low * w + carry * (0x1_0000_0000 * w) == (x * factor) * w + old_carry * w)
                    by (nonlinear_arith)
                    requires
                        x * factor + old_carry == carry * 0x1_0000_0000 + low,
                ;
                assert((p + x * w) * factor == p * factor + (x * factor) * w) by (nonlinear_arith);
            }
            i = i + 1;
        }
        if carry > 0 {
            let ghost mid = self.limbs@;
            self.limbs.push(carry as u32);
            proof {
                lemma_prefix_same(mid, self.limbs@, mid.len());
            }
        } else {
            assert(0 * weight(i as nat) == 0);
        }
    }

    /// `self >= other`.
    pub fn at_least(&self, other: &BigNatural) -> (r: bool)
        ensures
            r == (self@ >= other@),
    {
        let n: usize = if self.limbs.len() >= other.limbs.len() {
            self.limbs.len()
        } else {
            other.limbs.len()
        };
        proof {
            lemma_prefix_padded(self.limbs@, n as nat);
            lemma_prefix_padded(other.limbs@, n as nat);
        }
        let mut i: usize = n;
        while i > 0
            invariant
                i <= n,
                prefix_value(self.limbs@, n as nat) == self@,
                prefix_value(other.limbs@, n as nat) == other@,
                forall|j: int|
                    i <= j < n ==> limb_at(self.limbs@, j) == limb_at(other.limbs@, j),
            decreases i,
        {
            let x: u32 = self.limb(i - 1);
            let y: u32 = other.limb(i - 1);
            if x != y {
                proof {
                    let k = (i - 1) as nat;
                    lemma_prefix_common_top(self.limbs@, other.limbs@, i as nat, n as nat);
                    lemma_prefix_below_weight(self.limbs@, k);
                    lemma_prefix_below_weight(other.limbs@, k);
                    let w = weight(k) as int;
                    if x > y {
                        assert(x * w >= y * w + w) by (nonlinear_arith)
                            requires
                                x >= y + 1,
                                w >= 0,
                        ;
                    } else {
                        assert(y * w >= x * w + w) by (nonlinear_arith)
                            requires
                                y >= x + 1,
                                w >= 0,
                        ;
                    }
                }
                return x > y;
            }
            i = i - 1;
        }
        proof {
            lemma_prefix_common_top(self.limbs@, other.limbs@, 0, n as nat);
        }
        true
    }

    /// Replaces the number by `self - other`.
    pub fn subtract(&mut self, other: &BigNatural)
        requires
            old(self)@ >= other@,
        ensures
            final(self)@ == old(self)@ - other@,
    {
        let ghost before = self.limbs@;
        let mut borrow: u64 = 0;
        let mut i: usize = 0;
        let n: usize = self.limbs.len();
        while i < n
            invariant
                i <= n == self.limbs@.len() == before.len(),
                borrow <= 1,
                forall|j: int| i <= j < before.len() ==> self.limbs@[j] == before[j],
                prefix_value(self.limbs@, i as nat) + prefix_value(other.limbs@, i as nat)
                    == prefix_value(before, i as nat) + borrow * weight(i as nat),
            decreases n - i,
        {
            let x: u64 = self.limbs[i] as u64;
            let y: u64 = other.limb(i) as u64 + borrow;
            let ghost mid = self.limbs@;
            let ghost old_borrow = borrow;
            let d: u64;
            if x >= y {
                d = x - y;
                borrow = 0;
            } else {
                d = x + 0x1_0000_0000 - y;
                borrow = 1;
            }
            self.limbs[i] = d as u32;
            proof {
                lemma_prefix_same(mid, self.limbs@, i as nat);
                let w = weight(i as nat) as int;
                let z = limb_at(other.limbs@, i as int) as int;
                assert(d * w + z * w + old_borrow * w == x * w + borrow * (0x1_0000_0000 * w))
                    by (nonlinear_arith)
                    requires
                        d + z + old_borrow == x + borrow * 0x1_0000_0000,
                ;
            }
            i = i + 1;
        }
        proof {
            let m = other.limbs@.len();
            let nn = n as nat;
            // The subtrahend has nothing above the last limb, and nothing is borrowed there.
            lemma_prefix_below_weight(self.limbs@, nn);
            lemma_prefix_below_weight(before, nn);
            if m <= nn {
                lemma_prefix_padded(other.limbs@, nn);
            } else {
                lemma_prefix_monotone(other.limbs@, nn, m);
            }
            let w = weight(nn) as int;
            if borrow == 1 {
                assert(1 * w == w);
                assert(false);
            }
            assert(0 * w == 0);
            if m > nn {
                lemma_prefix_squeezed(other.limbs@, nn, m, prefix_value(before, nn));
            }
        }
    }

    pub fn is_zero(&self) -> (r: bool)
        ensures
            r == (self@ == 0),
    {
        let n: usize = self.limbs.len();
        let mut i: usize = 0;
        while i < n
            invariant
                i <= n == self.limbs@.len(),
                prefix_value(self.limbs@, i as nat) == 0,
            decreases n - i,
        {
            if self.limbs[i] != 0 {
                proof {
                    lemma_weight_positive(i as nat);
                    let w = weight(i as nat) as int;
                    let x = self.limbs@[i as int] as int;
                    assert(x * w > 0) by (nonlinear_arith)
                        requires
                            x > 0,
                            w > 0,
                    ;
                    lemma_prefix_monotone(self.limbs@, (i + 1) as nat, n as nat);
                }
                return false;
            }
            assert(0 * weight(i as nat) == 0);
            i = i + 1;
        }
        true
    }
}

proof fn lemma_prefix_monotone(limbs: Seq<u32>, i: nat, n: nat)
    requires
        i <= n,
    ensures
        prefix_value(limbs, i) <= prefix_value(limbs, n),
    decreases n,
{
    if i < n {
        lemma_prefix_monotone(limbs, i, (n - 1) as nat);
    }
}

/// A number below the weight of limb `i` has no limbs from there on.
proof fn lemma_prefix_squeezed(limbs: Seq<u32>, i: nat, n: nat, bound: nat)
    requires
        i <= n,
        prefix_value(limbs, n) <= bound < weight(i),
    ensures
        prefix_value(limbs, i) == prefix_value(limbs, n),
    decreases n,
{
    if i < n {
        let k = (n - 1) as nat;
        lemma_weight_monotone(i, k);
        let x = limb_at(limbs, n - 1) as int;
        let w = weight(k) as int;
        if x > 0 {
            assert(x * w >= w) by (nonlinear_arith)
                requires
                    x >= 1,
                    w >= 0,
            ;
        }
        assert(0 * w == 0);
        lemma_prefix_squeezed(limbs, i, k, bound);
    }
}

proof fn lemma_weight_monotone(i: nat, n: nat)
    requires
        i <= n,
    ensures
        weight(i) <= weight(n),
    decreases n,
{
    if i < n {
        lemma_weight_monotone(i, (n - 1) as nat);
    }
}

} // verus!
