//! IEEE 754 single-precision numbers, held by their bit patterns.
//!
//! Every operation is stated over the exact rational result and [`nearest`], so a score
//! does not depend on the machine, the compiler or the order in which it fuses operations.

use vstd::prelude::*;
use vstd::arithmetic::power2::*;

use crate::rounding::{
    coarseness, lemma_coarseness_bounds, lemma_nearest_at_most, lemma_nearest_exact,
    lemma_nearest_monotone, lemma_parts, lemma_units_monotone, nearest, power_of_two, round_scaled,
    units, HIDDEN_BIT, INFINITY_BITS, SIGNIFICAND_LIMIT,
};

verus! {

/// The weight of the sign bit.
pub const SIGN_BIT: u32 = 0x8000_0000;

/// A single-precision number. Two values are equal when their bit patterns are.
#[derive(Clone, Copy, PartialEq, Eq, Structural, Debug)]
pub struct Single {
    pub bits: u32,
}

/// The bit patterns of the constants in use.
pub const ZERO: u32 = 0;

pub const ONE: u32 = 0x3f80_0000;

pub const MINUS_ONE: u32 = 0xbf80_0000;

pub const NAN: u32 = 0x7fc0_0000;

impl Single {
    #[verifier::allow_in_spec]
    pub fn from_bits(bits: u32) -> Single
        returns
            (Single { bits }),
    {
        Single { bits }
    }

    /// The bit pattern without its sign.
    pub open spec fn magnitude(self) -> nat {
        (self.bits % SIGN_BIT) as nat
    }

    pub open spec fn is_negative(self) -> bool {
        self.bits >= SIGN_BIT
    }

    pub open spec fn is_nan(self) -> bool {
        self.magnitude() > INFINITY_BITS
    }

    pub open spec fn is_infinite(self) -> bool {
        self.magnitude() == INFINITY_BITS
    }

    pub open spec fn is_finite(self) -> bool {
        self.magnitude() < INFINITY_BITS
    }

    pub open spec fn is_zero(self) -> bool {
        self.magnitude() == 0
    }

    /// The value in units of 2^-149; meant for finite numbers.
    pub open spec fn value(self) -> int {
        if self.is_negative() {
            -(units(self.magnitude()) as int)
        } else {
            units(self.magnitude()) as int
        }
    }

    /// The number with the given sign and magnitude pattern.
    pub open spec fn of(negative: bool, magnitude: nat) -> Single {
        Single {
            bits: (magnitude + if negative {
                SIGN_BIT as nat
            } else {
                0
            }) as u32,
        }
    }

    /// The place of a number in the order of the reals, infinities included.
    pub open spec fn rank(self) -> int {
        if self.is_negative() {
            -(self.magnitude() as int)
        } else {
            self.magnitude() as int
        }
    }

    /// `self < other`; false whenever one of them is not a number.
    pub open spec fn less(self, other: Single) -> bool {
        !self.is_nan() && !other.is_nan() && self.rank() < other.rank()
    }

    /// The non-negative integer `n`, rounded.
    pub open spec fn integer(n: nat) -> Single {
        Single::of(false, nearest(n * pow2(149), 1))
    }

    /// `self * other`.
    pub open spec fn product(self, other: Single) -> Single {
        let negative = self.is_negative() != other.is_negative();
        if self.is_nan() || other.is_nan() {
            Single::from_bits(NAN)
        } else if self.is_infinite() && other.is_zero() || self.is_zero() && other.is_infinite() {
            Single::from_bits(NAN)
        } else if self.is_infinite() || other.is_infinite() {
            Single::of(negative, INFINITY_BITS as nat)
        } else {
            Single::of(
                negative,
                nearest(units(self.magnitude()) * units(other.magnitude()), pow2(149)),
            )
        }
    }

    /// `self / other`.
    pub open spec fn quotient(self, other: Single) -> Single {
        let negative = self.is_negative() != other.is_negative();
        if self.is_nan() || other.is_nan() {
            Single::from_bits(NAN)
        } else if self.is_infinite() && other.is_infinite() || self.is_zero() && other.is_zero() {
            Single::from_bits(NAN)
        } else if self.is_infinite() || other.is_zero() {
            Single::of(negative, INFINITY_BITS as nat)
        } else if self.is_zero() || other.is_infinite() {
            Single::of(negative, 0)
        } else {
            Single::of(
                negative,
                nearest(units(self.magnitude()) * pow2(149), units(other.magnitude())),
            )
        }
    }

    /// `self + other`.
    pub open spec fn sum(self, other: Single) -> Single {
        if self.is_nan() || other.is_nan() {
            Single::from_bits(NAN)
        } else if self.is_infinite() && other.is_infinite() && self.is_negative()
            != other.is_negative() {
            Single::from_bits(NAN)
        } else if self.is_infinite() {
            self
        } else if other.is_infinite() {
            other
        } else {
            let v = self.value() + other.value();
            if v == 0 {
                Single::of(self.is_negative() && other.is_negative(), 0)
            } else {
                Single::of(v < 0, nearest((if v < 0 { -v } else { v }) as nat, 1))
            }
        }
    }

    /// The number of the opposite sign.
    pub open spec fn opposite(self) -> Single {
        Single::of(!self.is_negative(), self.magnitude())
    }

    /// `self - other`.
    pub open spec fn difference(self, other: Single) -> Single {
        self.sum(other.opposite())
    }

    /// `self` held within `[0, 1]`; zero when it is not a number.
    pub open spec fn unit_clamp(self) -> Single {
        if self.is_nan() || self.less(Single::from_bits(ZERO)) {
            Single::from_bits(ZERO)
        } else if Single::from_bits(ONE).less(self) {
            Single::from_bits(ONE)
        } else {
            self
        }
    }

    /// The nearest integer to a non-negative number, ties upwards.
    pub open spec fn rounded(self) -> nat {
        (2 * units(self.magnitude()) + pow2(149)) / pow2(150)
    }
}

impl Single {
    fn magnitude_bits(self) -> (m: u32)
        ensures
            m == self.magnitude(),
            m < SIGN_BIT,
    {
        self.bits % SIGN_BIT
    }

    fn has_sign(self) -> (r: bool)
        ensures
            r == self.is_negative(),
    {
        self.bits >= SIGN_BIT
    }

    fn with_sign(negative: bool, magnitude: u32) -> (r: Single)
        requires
            magnitude < SIGN_BIT,
        ensures
            r == Single::of(negative, magnitude as nat),
    {
        if negative {
            Single { bits: magnitude + SIGN_BIT }
        } else {
            Single { bits: magnitude }
        }
    }

    /// Significand and exponent: the magnitude is `m * 2^s` units.
    fn parts(self) -> (r: (u32, u32))
        requires
            self.is_finite(),
        ensures
            units(self.magnitude()) == r.0 * pow2(r.1 as nat),
            r.0 < SIGNIFICAND_LIMIT,
            r.1 <= 253,
            r.1 > 0 ==> r.0 >= HIDDEN_BIT,
            r.1 == if self.magnitude() < HIDDEN_BIT {
                0
            } else {
                self.magnitude() / HIDDEN_BIT as nat - 1
            },
            (r.0 == 0) == self.is_zero(),
            r.1 as nat * HIDDEN_BIT as nat + r.0 as nat == self.magnitude(),
    {
        let m: u32 = self.magnitude_bits();
        proof {
            lemma2_to64();
        }
        if m < HIDDEN_BIT {
            assert(m * pow2(0) == m);
            (m, 0)
        } else {
            assert((m / HIDDEN_BIT - 1) as nat == (m as nat / HIDDEN_BIT as nat - 1) as nat);
            assert((m % HIDDEN_BIT + HIDDEN_BIT) as nat == m as nat % HIDDEN_BIT as nat
                + HIDDEN_BIT as nat);
            (m % HIDDEN_BIT + HIDDEN_BIT, m / HIDDEN_BIT - 1)
        }
    }

    pub fn check_nan(self) -> (r: bool)
        ensures
            r == self.is_nan(),
    {
        self.magnitude_bits() > INFINITY_BITS
    }

    fn check_infinite(self) -> (r: bool)
        ensures
            r == self.is_infinite(),
    {
        self.magnitude_bits() == INFINITY_BITS
    }

    fn check_zero(self) -> (r: bool)
        ensures
            r == self.is_zero(),
    {
        self.magnitude_bits() == 0
    }

    /// `self < other`.
    pub fn lt(self, other: Single) -> (r: bool)
        ensures
            r == self.less(other),
    {
        if self.check_nan() || other.check_nan() {
            return false;
        }
        let a: u32 = self.magnitude_bits();
        let b: u32 = other.magnitude_bits();
        if self.has_sign() {
            if other.has_sign() {
                b < a
            } else {
                a != 0 || b != 0
            }
        } else if other.has_sign() {
            false
        } else {
            a < b
        }
    }

    /// `self >= other`; false whenever one of them is not a number.
    pub fn ge(self, other: Single) -> (r: bool)
        ensures
            r == (!self.is_nan() && !other.is_nan() && !self.less(other)),
    {
        !self.check_nan() && !other.check_nan() && !self.lt(other)
    }

    /// The integer `n`, rounded.
    pub fn from_integer(n: u64) -> (r: Single)
        ensures
            r == Single::integer(n as nat),
    {
        proof {
            lemma2_to64();
            lemma_pow2_unfold(150);
            assert((n * pow2(149)) * pow2(0) == n * pow2(149));
            assert(1 * pow2(149) == pow2(149));
            lemma_pow2_pos(149);
            let p = pow2(149) as int;
            assert(n * p < (n + 1) * p) by (nonlinear_arith)
                requires
                    p > 0,
            ;
            let h = n as int / 2;
            if n % 2 == 0 {
                assert(h * (2 * p) == n * p) by (nonlinear_arith)
                    requires
                        n == 2 * h,
                ;
                assert((h + 1) * (2 * p) > n * p) by (nonlinear_arith)
                    requires
                        n == 2 * h,
                        p > 0,
                ;
            } else {
                assert(h * (2 * p) < n * p < (h + 1) * (2 * p)) by (nonlinear_arith)
                    requires
                        n == 2 * h + 1,
                        p > 0,
                ;
            }
        }
        let bits: u32 = if n < 0x8000_0000_0000_0000 {
            round_scaled(n, 149, false, Ghost((n * pow2(149)) as nat), Ghost(1))
        } else {
            round_scaled(n / 2, 150, n % 2 == 1, Ghost((n * pow2(149)) as nat), Ghost(1))
        };
        Single::with_sign(false, bits)
    }

    /// `self * other`.
    pub fn times(self, other: Single) -> (r: Single)
        ensures
            r == self.product(other),
    {
        let negative: bool = self.has_sign() != other.has_sign();
        if self.check_nan() || other.check_nan() {
            return Single::from_bits(NAN);
        }
        if self.check_infinite() && other.check_zero() || self.check_zero()
            && other.check_infinite() {
            return Single::from_bits(NAN);
        }
        if self.check_infinite() || other.check_infinite() {
            return Single::with_sign(negative, INFINITY_BITS);
        }
        let (ma, sa) = self.parts();
        let (mb, sb) = other.parts();
        assert(ma * mb < 0x1_0000_0000_0000) by (nonlinear_arith)
            requires
                ma < 0x100_0000,
                mb < 0x100_0000,
        ;
        let m: u64 = ma as u64 * mb as u64;
        let e: i32 = sa as i32 + sb as i32 - 149;
        let ghost n = units(self.magnitude()) * units(other.magnitude());
        let ghost d = pow2(149);
        proof {
            let neg: nat = if e < 0 { (-e) as nat } else { 0 };
            let pos: nat = if e < 0 { 0 } else { e as nat };
            lemma_pow2_pos(149);
            lemma_pow2_pos(pos);
            lemma_pow2_adds(sa as nat, sb as nat);
            lemma_pow2_adds((sa + sb) as nat, neg);
            lemma_pow2_adds(149, pos);
            let pa = pow2(sa as nat) as int;
            let pb = pow2(sb as nat) as int;
            let pn = pow2(neg) as int;
            assert((ma * pa) * (mb * pb) * pn == (ma * mb) * (pa * pb * pn)) by (nonlinear_arith);
            assert(n * pn == m * (d * pow2(pos)));
            let b = (d * pow2(pos)) as int;
            assert(b > 0) by (nonlinear_arith)
                requires
                    d > 0,
                    pow2(pos) > 0,
                    b == d * pow2(pos),
            ;
            assert(m * b < (m + 1) * b) by (nonlinear_arith)
                requires
                    b > 0,
            ;
        }
        let bits: u32 = round_scaled(m, e, false, Ghost(n), Ghost(d));
        Single::with_sign(negative, bits)
    }

    /// `self / other`.
    pub fn over(self, other: Single) -> (r: Single)
        ensures
            r == self.quotient(other),
    {
        let negative: bool = self.has_sign() != other.has_sign();
        if self.check_nan() || other.check_nan() {
            return Single::from_bits(NAN);
        }
        if self.check_infinite() && other.check_infinite() || self.check_zero()
            && other.check_zero() {
            return Single::from_bits(NAN);
        }
        if self.check_infinite() || other.check_zero() {
            return Single::with_sign(negative, INFINITY_BITS);
        }
        if self.check_zero() || other.check_infinite() {
            return Single::with_sign(negative, 0);
        }
        let (ma, sa) = self.parts();
        let (mb, sb) = other.parts();
        let mut m: u32 = ma;
        let mut z: u32 = 0;
        proof {
            lemma2_to64();
        }
        while m < HIDDEN_BIT
            invariant
                0 < m < SIGNIFICAND_LIMIT,
                z <= 23,
                m == ma * pow2(z as nat),
                m >= pow2(z as nat),
                pow2(23) == HIDDEN_BIT,
            decreases 23 - z,
        {
            proof {
                lemma_pow2_unfold((z + 1) as nat);
                if z == 23 {
                    assert(false);
                }
                let p = pow2(z as nat) as int;
                assert(2 * (ma * p) == ma * (2 * p)) by (nonlinear_arith);
            }
            m = m * 2;
            z = z + 1;
        }
        let top: u64 = m as u64 * 0x40_0000_0000;
        let q: u64 = top / mb as u64;
        let sticky: bool = top % mb as u64 != 0;
        let e: i32 = sa as i32 - z as i32 + 111 - sb as i32;
        let ghost n = units(self.magnitude()) * pow2(149);
        let ghost d = units(other.magnitude());
        proof {
            let neg: nat = if e < 0 { (-e) as nat } else { 0 };
            let pos: nat = if e < 0 { 0 } else { e as nat };
            let x = (sb + pos) as nat;
            lemma_pow2_pos(sb as nat);
            lemma_pow2_pos(x);
            lemma_pow2_adds(sa as nat, 149);
            lemma_pow2_adds((sa + 149) as nat, neg);
            lemma_pow2_adds(z as nat, 38);
            lemma_pow2_adds((z + 38) as nat, x);
            lemma_pow2_adds(sb as nat, pos);
            lemma2_to64_rest();
            assert(pow2(38) == 0x40_0000_0000);
            let w = pow2(x) as int;
            let a = (n * pow2(neg)) as int;
            let b = (d * pow2(pos)) as int;
            let pa = pow2(sa as nat) as int;
            let p149 = pow2(149) as int;
            let pn = pow2(neg) as int;
            let pz = pow2(z as nat) as int;
            let p38 = pow2(38) as int;
            assert((ma * pa) * p149 * pn == ma * (pa * p149 * pn)) by (nonlinear_arith);
            assert((ma * pz) * p38 * w == ma * (pz * p38 * w)) by (nonlinear_arith);
            assert(a == top * w);
            let pb = pow2(sb as nat) as int;
            let pp = pow2(pos) as int;
            assert((mb * pb) * pp == mb * (pb * pp)) by (nonlinear_arith);
            assert(b == mb * w);
            vstd::arithmetic::div_mod::lemma_fundamental_div_mod(top as int, mb as int);
            let r = (top % mb as u64) as int;
            assert(top == mb * q + r);
            assert(q * b <= a < (q + 1) * b) by (nonlinear_arith)
                requires
                    a == top * w,
                    b == mb * w,
                    top == mb * q + r,
                    0 <= r < mb,
                    w > 0,
            ;
            assert((a != q * b) == sticky) by (nonlinear_arith)
                requires
                    a == top * w,
                    b == mb * w,
                    top == mb * q + r,
                    sticky == (r != 0),
                    w > 0,
            ;
            assert(d > 0) by (nonlinear_arith)
                requires
                    d == mb * pb,
                    mb > 0,
                    pb > 0,
            ;
            assert(q >= 0x200_0000) by (nonlinear_arith)
                requires
                    top == mb * q + r,
                    0 <= r < mb,
                    mb < 0x100_0000,
                    top >= 0x80_0000 * 0x40_0000_0000,
            ;
            assert(q <= top) by (nonlinear_arith)
                requires
                    top == mb * q + r,
                    0 <= r < mb,
                    mb >= 1,
            ;
        }
        let bits: u32 = round_scaled(q, e, sticky, Ghost(n), Ghost(d));
        Single::with_sign(negative, bits)
    }

    /// The sum of two finite numbers, the first of them with the larger exponent.
    fn add_finite(high: Single, low: Single) -> (r: Single)
        requires
            high.is_finite(),
            low.is_finite(),
            high.magnitude() / HIDDEN_BIT as nat >= low.magnitude() / HIDDEN_BIT as nat,
        ensures
            r == high.sum(low),
    {
        let (mh, sh) = high.parts();
        let (ml, sl) = low.parts();
        let gap: u32 = sh - sl;
        let negative: bool = high.has_sign();
        let same: bool = negative == low.has_sign();
        let ghost v = high.value() + low.value();
        let ghost n = (if v < 0 { -v } else { v }) as nat;
        proof {
            lemma2_to64();
            lemma2_to64_rest();
            lemma_pow2_pos(sl as nat);
        }
        if gap <= 38 {
            let f: u64 = power_of_two(gap);
            proof {
                if gap < 38 {
                    lemma_pow2_strictly_increases(gap as nat, 38);
                }
                assert(mh * f < 0x4000_0000_0000_0000) by (nonlinear_arith)
                    requires
                        mh < 0x100_0000,
                        f <= 0x40_0000_0000,
                ;
            }
            let h: u64 = mh as u64 * f;
            let ghost g = pow2(sl as nat) as int;
            proof {
                lemma_pow2_adds(gap as nat, sl as nat);
                assert(mh * (f * g) == (mh * f) * g) by (nonlinear_arith);
                assert(units(high.magnitude()) == h * g);
                assert(units(low.magnitude()) == ml * g);
                assert(h * g + ml * g == (h + ml) * g) by (nonlinear_arith);
                assert(h * g - ml * g == (h - ml) * g) by (nonlinear_arith);
                assert(ml * g - h * g == (ml - h) * g) by (nonlinear_arith);
                assert(h > ml ==> (h - ml) * g > 0) by (nonlinear_arith)
                    requires
                        g > 0,
                ;
                assert(h < ml ==> (ml - h) * g > 0) by (nonlinear_arith)
                    requires
                        g > 0,
                ;
                assert(h + ml > 0 ==> (h + ml) * g > 0) by (nonlinear_arith)
                    requires
                        g > 0,
                ;
                assert(0 * g == 0);
            }
            let m: u64 = if same {
                h + ml as u64
            } else if h >= ml as u64 {
                h - ml as u64
            } else {
                ml as u64 - h
            };
            if m == 0 {
                return Single::with_sign(negative && same, 0);
            }
            proof {
                assert(n == m * g);
                assert(n * pow2(0) == n);
                assert(1 * pow2(sl as nat) == g);
                assert(m * g < (m + 1) * g) by (nonlinear_arith)
                    requires
                        g > 0,
                ;
            }
            let bits: u32 = round_scaled(m, sl as i32, false, Ghost(n), Ghost(1));
            if same || h >= ml as u64 {
                Single::with_sign(negative, bits)
            } else {
                Single::with_sign(!negative, bits)
            }
        } else {
            let top: u64 = 8 * mh as u64;
            let sticky: bool = ml != 0;
            let m: u64 = if same || !sticky {
                top
            } else {
                top - 1
            };
            proof {
                let b = pow2((sh - 3) as nat) as int;
                let g = pow2(sl as nat) as int;
                let lo = ml * g;
                lemma_pow2_pos((sh - 3) as nat);
                lemma_pow2_adds((sh - 3) as nat, 3);
                assert(mh * (b * 8) == top * b) by (nonlinear_arith)
                    requires
                        top == 8 * mh,
                ;
                lemma_pow2_adds(sl as nat, 24);
                if sl + 24 < sh - 3 {
                    lemma_pow2_strictly_increases((sl + 24) as nat, (sh - 3) as nat);
                }
                assert(lo < b) by (nonlinear_arith)
                    requires
                        lo == ml * g,
                        ml < 0x100_0000,
                        g > 0,
                        g * 0x100_0000 <= b,
                ;
                assert(sticky ==> lo > 0) by (nonlinear_arith)
                    requires
                        lo == ml * g,
                        sticky == (ml != 0),
                        g > 0,
                ;
                assert(!sticky ==> lo == 0) by (nonlinear_arith)
                    requires
                        lo == ml * g,
                        sticky == (ml != 0),
                ;
                assert(top * b >= b) by (nonlinear_arith)
                    requires
                        top >= 1,
                        b > 0,
                ;
                if same {
                    assert(n == top * b + lo);
                } else {
                    assert(n == top * b - lo);
                }
                assert((top + 1) * b == top * b + b) by (nonlinear_arith);
                assert((top - 1) * b == top * b - b) by (nonlinear_arith);
                assert(n * pow2(0) == n);
                assert(1 * pow2((sh - 3) as nat) == b);
            }
            let bits: u32 = round_scaled(m, sh as i32 - 3, sticky, Ghost(n), Ghost(1));
            Single::with_sign(negative, bits)
        }
    }

    /// `self + other`.
    pub fn plus(self, other: Single) -> (r: Single)
        ensures
            r == self.sum(other),
    {
        if self.check_nan() || other.check_nan() {
            return Single::from_bits(NAN);
        }
        if self.check_infinite() && other.check_infinite() && self.has_sign() != other.has_sign() {
            return Single::from_bits(NAN);
        }
        if self.check_infinite() {
            return self;
        }
        if other.check_infinite() {
            return other;
        }
        if self.magnitude_bits() / HIDDEN_BIT >= other.magnitude_bits() / HIDDEN_BIT {
            Single::add_finite(self, other)
        } else {
            Single::add_finite(other, self)
        }
    }

    /// `self - other`.
    pub fn minus(self, other: Single) -> (r: Single)
        ensures
            r == self.difference(other),
    {
        self.plus(Single::with_sign(!other.has_sign(), other.magnitude_bits()))
    }

    /// `self` held within `[0, 1]`; zero when it is not a number.
    pub fn clamp01(self) -> (r: Single)
        ensures
            r == self.unit_clamp(),
    {
        if self.check_nan() || self.lt(Single::from_bits(ZERO)) {
            Single::from_bits(ZERO)
        } else if Single::from_bits(ONE).lt(self) {
            Single::from_bits(ONE)
        } else {
            self
        }
    }

    /// The nearest integer to a non-negative number below 2^32, ties upwards.
    pub fn round(self) -> (r: u64)
        requires
            0 <= self.rank() < 0x4f80_0000,
        ensures
            r == self.rounded(),
    {
        let (m, s) = self.parts();
        proof {
            lemma2_to64();
            lemma2_to64_rest();
            lemma_pow2_pos(149);
            lemma_pow2_unfold(150);
            let p = pow2(149) as int;
            if s >= 149 {
                let f = pow2((s - 149) as nat) as int;
                lemma_pow2_adds((s - 149) as nat, 149);
                assert(m * (f * p) == (m * f) * p) by (nonlinear_arith);
                let k = m * f;
                assert(2 * (k * p) + p == (2 * p) * k + p) by (nonlinear_arith);
                vstd::arithmetic::div_mod::lemma_fundamental_div_mod_converse(
                    2 * (k * p) + p,
                    2 * p,
                    k,
                    p,
                );
                if s < 157 {
                    lemma_pow2_strictly_increases((s - 149) as nat, 8);
                }
                lemma_pow2_pos((s - 149) as nat);
                assert(m * f < 0x1_0000_0000) by (nonlinear_arith)
                    requires
                        m < 0x100_0000,
                        0 < f <= 256,
                ;
            } else {
                let t = (149 - s) as nat;
                let g = pow2(s as nat) as int;
                let w = pow2(t) as int;
                lemma_pow2_pos(s as nat);
                lemma_pow2_pos(t);
                lemma_pow2_adds(s as nat, t);
                assert(p == g * w);
                assert(2 * (m * g) + p == (2 * m + w) * g) by (nonlinear_arith)
                    requires
                        p == g * w,
                ;
                assert(2 * p == (2 * w) * g) by (nonlinear_arith)
                    requires
                        p == g * w,
                ;
                vstd::arithmetic::div_mod::lemma_div_denominator((2 * m + w) * g, g, 2 * w);
                assert(((2 * m + w) * g) / g == 2 * m + w) by {
                    vstd::arithmetic::div_mod::lemma_div_by_multiple(2 * m + w, g);
                }
                assert((2 * w) * g == g * (2 * w)) by (nonlinear_arith);
                assert(self.rounded() == (2 * m + w) / (2 * w));
                if t > 32 {
                    if t > 33 {
                        lemma_pow2_strictly_increases(33, t);
                    }
                    vstd::arithmetic::div_mod::lemma_fundamental_div_mod_converse(
                        2 * m + w,
                        2 * w,
                        0,
                        2 * m + w,
                    );
                } else {
                    if t < 32 {
                        lemma_pow2_strictly_increases(t, 32);
                    }
                }
            }
        }
        if s >= 149 {
            m as u64 * power_of_two(s - 149)
        } else if s < 117 {
            0
        } else {
            let w: u64 = power_of_two(149 - s);
            (2 * m as u64 + w) / (2 * w)
        }
    }
}

/// The pattern of an integer below 2^24 is exact.
pub proof fn lemma_integer(n: nat)
    requires
        n < SIGNIFICAND_LIMIT,
    ensures
        !Single::integer(n).is_negative(),
        Single::integer(n).magnitude() == Single::integer(n).bits,
        Single::integer(n).magnitude() <= 0x4b80_0000,
        units(Single::integer(n).magnitude()) == n * pow2(149),
        n > 0 ==> Single::integer(n).magnitude() > 0,
{
    let a = n * pow2(149);
    let s = coarseness(a, 1);
    lemma2_to64();
    lemma_pow2_pos(149);
    lemma_coarseness_bounds(a, 1);
    reveal(nearest);
    if n == 0 {
        assert(a == 0);
        lemma_parts(0);
        lemma_nearest_exact(0, 1, 0);
    } else {
        let p = pow2(149) as int;
        if s > 149 {
            lemma_pow2_adds(24, 149);
            if 173 < s + 23 {
                lemma_pow2_strictly_increases(173, (s + 23) as nat);
            }
            assert(n * p < 0x100_0000 * p) by (nonlinear_arith)
                requires
                    n < 0x100_0000,
                    p > 0,
            ;
            assert(false);
        }
        if s < 126 {
            if s + 24 < 149 {
                lemma_pow2_strictly_increases(s + 24, 149);
            }
            assert(n * p >= p) by (nonlinear_arith)
                requires
                    n >= 1,
                    p > 0,
            ;
            assert(false);
        }
        let f = pow2((149 - s) as nat);
        let g = pow2(s);
        lemma_pow2_adds((149 - s) as nat, s);
        lemma_pow2_pos(s);
        lemma_pow2_adds(24, s);
        lemma_pow2_adds(23, s);
        let k = n * f;
        assert(n * (f * g) == k * g) by (nonlinear_arith)
            requires
                k == n * f,
        ;
        assert(0x80_0000 <= k < 0x100_0000) by (nonlinear_arith)
            requires
                k * g < 0x100_0000 * g,
                k * g >= 0x80_0000 * g,
                g > 0,
        ;
        let m = (s * HIDDEN_BIT as nat + k) as nat;
        lemma_parts(m);
        assert(m / HIDDEN_BIT as nat == s + 1 && m % HIDDEN_BIT as nat == k - HIDDEN_BIT) by {
            vstd::arithmetic::div_mod::lemma_fundamental_div_mod_converse(
                m as int,
                HIDDEN_BIT as int,
                s as int + 1,
                k - HIDDEN_BIT,
            );
        }
        assert(units(m) == k * g);
        lemma_nearest_exact(a, 1, m);
    }
}

/// One is 2^149 units.
pub proof fn lemma_one()
    ensures
        units(ONE as nat) == pow2(149),
        Single::from_bits(ONE).rank() == ONE,
        Single::from_bits(ZERO).rank() == 0,
{
    lemma2_to64();
    lemma_pow2_adds(23, 126);
}

pub proof fn lemma_unit_clamp(x: Single)
    ensures
        0 <= x.unit_clamp().rank() <= ONE,
        x.unit_clamp().magnitude() == x.unit_clamp().rank(),
        !x.unit_clamp().is_nan(),
        !x.unit_clamp().is_infinite(),
        units(x.unit_clamp().magnitude()) <= pow2(149),
{
    lemma_one();
    let c = x.unit_clamp();
    assert(0 <= c.rank() <= ONE);
    lemma_units_monotone(c.magnitude(), ONE as nat);
}

/// The product of a number within `[0, 1]` and an integer is at most the integer.
pub proof fn lemma_part_of_integer(x: Single, n: nat)
    requires
        0 <= x.rank() <= ONE,
        n < SIGNIFICAND_LIMIT,
    ensures
        0 <= x.product(Single::integer(n)).rank() <= Single::integer(n).rank(),
        x.product(Single::integer(n)).magnitude() == x.product(Single::integer(n)).rank(),
        units(x.product(Single::integer(n)).magnitude()) <= n * pow2(149),
{
    let y = Single::integer(n);
    lemma_integer(n);
    lemma_one();
    lemma_units_monotone(x.magnitude(), ONE as nat);
    lemma_pow2_pos(149);
    let a = units(x.magnitude());
    let b = units(y.magnitude());
    let p = pow2(149);
    assert(a * b <= p * b) by (nonlinear_arith)
        requires
            a <= p,
    ;
    lemma_nearest_at_most(a * b, p, y.magnitude());
    let m = nearest(a * b, p);
    if x.is_negative() {
        assert(x.magnitude() == 0);
        assert(a == 0);
        assert(a * b == 0) by (nonlinear_arith)
            requires
                a == 0,
        ;
        lemma_parts(0);
        lemma_nearest_exact(0, p, 0);
    }
    lemma_units_monotone(m, y.magnitude());
}

/// Rounding to an integer keeps within integers.
pub proof fn lemma_rounded_bounds(x: Single, low: nat, high: nat)
    requires
        low * pow2(149) <= units(x.magnitude()) <= high * pow2(149),
    ensures
        low <= x.rounded() <= high,
{
    let p = pow2(149) as int;
    let u = units(x.magnitude()) as int;
    lemma_pow2_pos(149);
    lemma_pow2_unfold(150);
    let q = (2 * u + p) / (2 * p);
    vstd::arithmetic::div_mod::lemma_fundamental_div_mod(2 * u + p, 2 * p);
    let r = (2 * u + p) % (2 * p);
    assert(q <= high) by (nonlinear_arith)
        requires
            2 * u + p == (2 * p) * q + r,
            0 <= r,
            u <= high * p,
            p > 0,
    ;
    assert(q >= low) by (nonlinear_arith)
        requires
            2 * u + p == (2 * p) * q + r,
            r < 2 * p,
            u >= low * p,
            p > 0,
    ;
}

/// Rounding to an integer keeps the order.
pub proof fn lemma_rounded_monotone(x: Single, y: Single)
    requires
        x.magnitude() <= y.magnitude(),
    ensures
        x.rounded() <= y.rounded(),
{
    lemma_units_monotone(x.magnitude(), y.magnitude());
    lemma_pow2_pos(150);
    let p = pow2(149) as int;
    let q = pow2(150) as int;
    vstd::arithmetic::div_mod::lemma_div_is_ordered(
        2 * units(x.magnitude()) + p,
        2 * units(y.magnitude()) + p,
        q,
    );
}

/// The product with an integer keeps the order of numbers within `[0, 1]`.
pub proof fn lemma_part_monotone(x: Single, y: Single, n: nat)
    requires
        0 <= x.rank() <= y.rank() <= ONE,
        n < SIGNIFICAND_LIMIT,
    ensures
        x.product(Single::integer(n)).magnitude() <= y.product(Single::integer(n)).magnitude(),
{
    lemma_integer(n);
    lemma_part_of_integer(x, n);
    lemma_part_of_integer(y, n);
    lemma_units_monotone(x.magnitude(), y.magnitude());
    lemma_pow2_pos(149);
    let a = units(x.magnitude());
    let b = units(y.magnitude());
    let c = units(Single::integer(n).magnitude());
    assert(a * c <= b * c) by (nonlinear_arith)
        requires
            a <= b,
    ;
    lemma_nearest_monotone(a * c, b * c, pow2(149));
    lemma_one();
    let z = Single::integer(n);
    lemma_units_monotone(x.magnitude(), ONE as nat);
    lemma_units_monotone(y.magnitude(), ONE as nat);
    assert(a * c <= pow2(149) * c) by (nonlinear_arith)
        requires
            a <= pow2(149),
    ;
    assert(b * c <= pow2(149) * c) by (nonlinear_arith)
        requires
            b <= pow2(149),
    ;
    lemma_nearest_at_most(a * c, pow2(149), z.magnitude());
    lemma_nearest_at_most(b * c, pow2(149), z.magnitude());
}

} // verus!
