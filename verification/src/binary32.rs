//! IEEE 754 single precision numbers, computed in integers.
//!
//! The geometry and colour arithmetic of this crate is defined down to the last
//! bit, so that a picture depends on its inputs alone. Every number is held as
//! its 32-bit pattern and every operation is the correctly rounded one of the
//! standard. A finite number stands for a whole number of `2^-149`, the weight of
//! the last place of the subnormal numbers; contracts speak of that whole number
//! (`units`).

use crate::rounding::{
    above, half_even, lemma_pow2_values, power_of_two, round_scaled, ulp_shift,
};
use vstd::arithmetic::power2::{lemma_pow2_adds, lemma_pow2_pos, lemma_pow2_strictly_increases, pow2};
use vstd::prelude::*;

verus! {

/// A single precision number, given by its bit pattern. `==` compares patterns;
/// [`Binary32::eq_num`] compares numbers.
#[derive(Clone, Copy, Debug, PartialEq, Eq, Structural)]
pub struct Binary32 {
    pub bits: u32,
}

/// The magnitude of an infinity.
pub const INF_MAG: u32 = 0x7f80_0000;

/// The pattern of 1.
pub const ONE: u32 = 0x3f80_0000;

/// The number of units that a magnitude pattern stands for.
pub open spec fn mag_units(mag: nat) -> nat {
    let e = mag / 0x80_0000;
    let f = mag % 0x80_0000;
    if e == 0 {
        f
    } else {
        (f + 0x80_0000) * pow2((e - 1) as nat)
    }
}

/// The magnitude pattern of `n / d` units, rounded; an infinity where it is too large.
pub open spec fn round32(n: nat, d: nat) -> nat {
    let s = ulp_shift(24, n, d);
    let m = s * 0x80_0000 + half_even(n, d * pow2(s));
    if m < INF_MAG {
        m
    } else {
        INF_MAG as nat
    }
}

/// The number with the given sign and magnitude pattern.
pub open spec fn signed_mag(negative: bool, mag: nat) -> Binary32 {
    Binary32 {
        bits: (mag + if negative {
            0x8000_0000int
        } else {
            0
        }) as u32,
    }
}

/// The result of an operation that has none.
pub open spec fn nan() -> Binary32 {
    Binary32 { bits: 0x7fc0_0000 }
}

impl Binary32 {
    pub open spec fn negative(self) -> bool {
        self.bits >= 0x8000_0000
    }

    pub open spec fn mag(self) -> nat {
        (self.bits % 0x8000_0000) as nat
    }

    pub open spec fn nan_pattern(self) -> bool {
        self.mag() > INF_MAG
    }

    pub open spec fn infinite(self) -> bool {
        self.mag() == INF_MAG
    }

    pub open spec fn finite(self) -> bool {
        self.mag() < INF_MAG
    }

    /// The exponent of the last place of the significand.
    pub open spec fn exponent(self) -> nat {
        let e = self.mag() / 0x80_0000;
        if e == 0 {
            0
        } else {
            (e - 1) as nat
        }
    }

    /// The absolute value, in units.
    pub open spec fn units(self) -> nat {
        mag_units(self.mag())
    }

    /// The value, in units.
    pub open spec fn value(self) -> int {
        if self.negative() {
            -(self.units() as int)
        } else {
            self.units() as int
        }
    }

    /// A number that orders as the value does (see [`lemma_rank_orders_values`]).
    pub open spec fn rank(self) -> int {
        if self.negative() {
            -(self.mag() as int)
        } else {
            self.mag() as int
        }
    }

    /// A number that orders all patterns: `-NaN`, `-inf`, the negative numbers,
    /// `-0`, `+0`, the positive numbers, `inf`, `NaN`.
    pub open spec fn total_rank(self) -> int {
        if self.negative() {
            -1 - self.mag()
        } else {
            self.mag() as int
        }
    }

    pub open spec fn less(self, other: Binary32) -> bool {
        !self.nan_pattern() && !other.nan_pattern() && self.rank() < other.rank()
    }

    pub open spec fn at_most(self, other: Binary32) -> bool {
        !self.nan_pattern() && !other.nan_pattern() && self.rank() <= other.rank()
    }

    pub open spec fn opposite(self) -> Binary32 {
        signed_mag(!self.negative(), self.mag())
    }

    /// The absolute value.
    pub open spec fn absolute(self) -> Binary32 {
        signed_mag(false, self.mag())
    }

    /// The rounded sum.
    #[verifier::opaque]
    pub open spec fn plus(self, other: Binary32) -> Binary32 {
        if self.nan_pattern() || other.nan_pattern() {
            nan()
        } else if self.infinite() {
            if other.infinite() && self.negative() != other.negative() {
                nan()
            } else {
                self
            }
        } else if other.infinite() {
            other
        } else {
            let v = self.value() + other.value();
            if v == 0 {
                signed_mag(self.negative() && other.negative(), 0)
            } else {
                signed_mag(v < 0, round32(above(v) + above(-v), 1))
            }
        }
    }

    /// The rounded difference.
    pub open spec fn minus(self, other: Binary32) -> Binary32 {
        if other.nan_pattern() {
            nan()
        } else {
            self.plus(other.opposite())
        }
    }

    /// The rounded product.
    #[verifier::opaque]
    pub open spec fn times(self, other: Binary32) -> Binary32 {
        let negative = self.negative() != other.negative();
        if self.nan_pattern() || other.nan_pattern() {
            nan()
        } else if self.infinite() || other.infinite() {
            if self.mag() == 0 || other.mag() == 0 {
                nan()
            } else {
                signed_mag(negative, INF_MAG as nat)
            }
        } else {
            signed_mag(negative, round32(self.units() * other.units(), pow2(149)))
        }
    }

    /// The rounded quotient.
    #[verifier::opaque]
    pub open spec fn over(self, other: Binary32) -> Binary32 {
        let negative = self.negative() != other.negative();
        if self.nan_pattern() || other.nan_pattern() {
            nan()
        } else if self.infinite() {
            if other.infinite() {
                nan()
            } else {
                signed_mag(negative, INF_MAG as nat)
            }
        } else if other.infinite() {
            signed_mag(negative, 0)
        } else if other.mag() == 0 {
            if self.mag() == 0 {
                nan()
            } else {
                signed_mag(negative, INF_MAG as nat)
            }
        } else {
            signed_mag(negative, round32(self.units() * pow2(149), other.units()))
        }
    }

    /// The larger number; the other one where one is not a number.
    pub open spec fn larger(self, other: Binary32) -> Binary32 {
        if self.nan_pattern() || self.less(other) {
            other
        } else {
            self
        }
    }

    /// The smaller number; the other one where one is not a number.
    pub open spec fn smaller(self, other: Binary32) -> Binary32 {
        if self.nan_pattern() || other.less(self) {
            other
        } else {
            self
        }
    }

    /// The nearest number within `[low, high]`; a NaN stays.
    pub open spec fn clamped(self, low: Binary32, high: Binary32) -> Binary32 {
        if self.less(low) {
            low
        } else if high.less(self) {
            high
        } else {
            self
        }
    }

    pub fn from_bits(bits: u32) -> (r: Binary32)
        ensures
            r.bits == bits,
    {
        Binary32 { bits }
    }

    pub fn is_negative(self) -> (r: bool)
        ensures
            r == self.negative(),
    {
        self.bits >= 0x8000_0000
    }

    fn magnitude(self) -> (r: u32)
        ensures
            r == self.mag(),
            r < 0x8000_0000,
    {
        self.bits % 0x8000_0000
    }

    pub fn is_nan(self) -> (r: bool)
        ensures
            r == self.nan_pattern(),
    {
        self.magnitude() > INF_MAG
    }

    pub fn is_finite(self) -> (r: bool)
        ensures
            r == self.finite(),
    {
        self.magnitude() < INF_MAG
    }

    fn ranking(self) -> (r: i64)
        ensures
            r == self.rank(),
    {
        let m: i64 = self.magnitude() as i64;
        if self.is_negative() {
            -m
        } else {
            m
        }
    }

    /// `self < other`.
    pub fn lt(self, other: Binary32) -> (r: bool)
        ensures
            r == self.less(other),
    {
        !self.is_nan() && !other.is_nan() && self.ranking() < other.ranking()
    }

    /// `self <= other`.
    pub fn le(self, other: Binary32) -> (r: bool)
        ensures
            r == self.at_most(other),
    {
        !self.is_nan() && !other.is_nan() && self.ranking() <= other.ranking()
    }

    /// Whether both stand for one number: the two zeros do, a NaN and itself do not.
    pub fn eq_num(self, other: Binary32) -> (r: bool)
        ensures
            r == (self.at_most(other) && other.at_most(self)),
    {
        self.le(other) && other.le(self)
    }

    /// Whether `self` comes before `other` in the order of all patterns.
    pub fn total_lt(self, other: Binary32) -> (r: bool)
        ensures
            r == (self.total_rank() < other.total_rank()),
    {
        let a: i64 = if self.is_negative() {
            -1 - self.magnitude() as i64
        } else {
            self.magnitude() as i64
        };
        let b: i64 = if other.is_negative() {
            -1 - other.magnitude() as i64
        } else {
            other.magnitude() as i64
        };
        a < b
    }

    pub fn neg(self) -> (r: Binary32)
        ensures
            r == self.opposite(),
    {
        if self.is_negative() {
            Binary32 { bits: self.magnitude() }
        } else {
            Binary32 { bits: self.bits + 0x8000_0000 }
        }
    }

    pub fn abs(self) -> (r: Binary32)
        ensures
            r == self.absolute(),
    {
        Binary32 { bits: self.magnitude() }
    }

    pub fn max(self, other: Binary32) -> (r: Binary32)
        ensures
            r == self.larger(other),
    {
        if self.is_nan() || self.lt(other) {
            other
        } else {
            self
        }
    }

    pub fn min(self, other: Binary32) -> (r: Binary32)
        ensures
            r == self.smaller(other),
    {
        if self.is_nan() || other.lt(self) {
            other
        } else {
            self
        }
    }

    pub fn clamp(self, low: Binary32, high: Binary32) -> (r: Binary32)
        ensures
            r == self.clamped(low, high),
    {
        if self.lt(low) {
            low
        } else if high.lt(self) {
            high
        } else {
            self
        }
    }

    /// Significand and exponent of a finite number, in units.
    pub(crate) fn parts(self) -> (r: (u32, u32))
        requires
            self.finite(),
        ensures
            r.0 < 0x100_0000,
            r.1 == self.exponent(),
            r.1 <= 253,
            self.units() == r.0 * pow2(r.1 as nat),
            r.1 > 0 ==> r.0 >= 0x80_0000,
            r.0 == 0 <==> self.mag() == 0,
    {
        let m: u32 = self.magnitude();
        let e: u32 = m / 0x80_0000;
        let f: u32 = m % 0x80_0000;
        proof {
            lemma_pow2_values();
        }
        if e == 0 {
            assert(f * pow2(0) == f) by (nonlinear_arith)
                requires
                    pow2(0) == 1,
            ;
            (f, 0)
        } else {
            (f + 0x80_0000, e - 1)
        }
    }

    /// The rounded sum of the two numbers.
    pub fn add(self, other: Binary32) -> (r: Binary32)
        ensures
            r == self.plus(other),
    {
        proof {
            reveal(Binary32::plus);
        }
        if self.is_nan() || other.is_nan() {
            return Binary32 { bits: 0x7fc0_0000 };
        }
        if !self.is_finite() {
            if !other.is_finite() && self.is_negative() != other.is_negative() {
                return Binary32 { bits: 0x7fc0_0000 };
            }
            return self;
        }
        if !other.is_finite() {
            return other;
        }
        if self.parts().1 >= other.parts().1 {
            add_aligned(self, other)
        } else {
            add_aligned(other, self)
        }
    }

    /// The rounded difference of the two numbers.
    pub fn sub(self, other: Binary32) -> (r: Binary32)
        ensures
            r == self.minus(other),
    {
        if other.is_nan() {
            return Binary32 { bits: 0x7fc0_0000 };
        }
        self.add(other.neg())
    }

    /// The rounded product of the two numbers.
    pub fn mul(self, other: Binary32) -> (r: Binary32)
        ensures
            r == self.times(other),
    {
        proof {
            reveal(Binary32::times);
        }
        let negative: bool = self.is_negative() != other.is_negative();
        if self.is_nan() || other.is_nan() {
            return Binary32 { bits: 0x7fc0_0000 };
        }
        if !self.is_finite() || !other.is_finite() {
            if self.magnitude() == 0 || other.magnitude() == 0 {
                return Binary32 { bits: 0x7fc0_0000 };
            }
            return with_sign(negative, INF_MAG);
        }
        let (ma, ea) = self.parts();
        let (mb, eb) = other.parts();
        let ghost n = (self.units() * other.units()) as nat;
        proof {
            lemma_pow2_pos(149);
        }
        if ma == 0 || mb == 0 {
            proof {
                assert(n == 0) by (nonlinear_arith)
                    requires
                        self.units() == 0 || other.units() == 0,
                        n == self.units() * other.units(),
                ;
                lemma_round32_zero(pow2(149));
            }
            return with_sign(negative, 0);
        }
        proof {
            assert(ma * mb < 0x1_0000_0000_0000) by (nonlinear_arith)
                requires
                    ma < 0x100_0000,
                    mb < 0x100_0000,
            ;
            assert(ma * mb >= 1) by (nonlinear_arith)
                requires
                    ma >= 1,
                    mb >= 1,
            ;
            lemma_pow2_values();
            lemma_pow2_adds(ea as nat, eb as nat);
            assert(n == (ma * mb) * pow2((ea + eb) as nat)) by (nonlinear_arith)
                requires
                    n == (ma * pow2(ea as nat)) * (mb * pow2(eb as nat)),
                    pow2(ea as nat) * pow2(eb as nat) == pow2((ea + eb) as nat),
            ;
        }
        let m: u128 = (ma as u64 * mb as u64) as u128;
        let q: u128 = m * 0x4000_0000;
        let x: i32 = ea as i32 + eb as i32 - 179;
        proof {
            lemma_scale(m as nat, (ea + eb) as nat, 149, 30, x as int);
            lemma_pow2_pos(above(x as int));
            lemma_one_step(q as nat, pow2(149), pow2(above(x as int)));
        }
        round_pack(negative, q, false, x, Ghost(n), Ghost(pow2(149)))
    }

    /// The rounded quotient of the two numbers.
    pub fn div(self, other: Binary32) -> (r: Binary32)
        ensures
            r == self.over(other),
    {
        proof {
            reveal(Binary32::over);
        }
        let negative: bool = self.is_negative() != other.is_negative();
        if self.is_nan() || other.is_nan() {
            return Binary32 { bits: 0x7fc0_0000 };
        }
        if !self.is_finite() {
            if !other.is_finite() {
                return Binary32 { bits: 0x7fc0_0000 };
            }
            return with_sign(negative, INF_MAG);
        }
        if !other.is_finite() {
            return with_sign(negative, 0);
        }
        if other.magnitude() == 0 {
            if self.magnitude() == 0 {
                return Binary32 { bits: 0x7fc0_0000 };
            }
            return with_sign(negative, INF_MAG);
        }
        let (ma, ea) = self.parts();
        let (mb, eb) = other.parts();
        let ghost n = (self.units() * pow2(149)) as nat;
        let ghost d = other.units();
        proof {
            lemma_pow2_pos(eb as nat);
            assert(d > 0) by (nonlinear_arith)
                requires
                    d == mb * pow2(eb as nat),
                    mb > 0,
                    pow2(eb as nat) > 0,
            ;
        }
        if ma == 0 {
            proof {
                assert(n == 0) by (nonlinear_arith)
                    requires
                        self.units() == 0,
                        n == self.units() * pow2(149),
                ;
                lemma_round32_zero(d);
            }
            return with_sign(negative, 0);
        }
        let w: u128 = ma as u128 * 0x1000_0000_0000_0000;
        let q: u128 = w / (mb as u128);
        let rest: u128 = w % (mb as u128);
        let x: i32 = ea as i32 - eb as i32 + 89;
        proof {
            lemma_pow2_values();
            vstd::arithmetic::div_mod::lemma_fundamental_div_mod(w as int, mb as int);
            assert(0x100_0000 <= q < 0x4000_0000_0000_0000_0000_0000_0000_0000) by (nonlinear_arith)
                requires
                    w == mb * q + rest,
                    0 <= rest < mb,
                    mb < 0x100_0000,
                    0x1000_0000_0000_0000 <= w < 0x10_0000_0000_0000_0000_0000,
            ;
            let xp = above(x as int);
            let xn = above(-x);
            lemma_pow2_adds(ea as nat, 149);
            lemma_pow2_adds((ea + 149) as nat, xn);
            lemma_pow2_adds(eb as nat, xp);
            lemma_pow2_adds(60, (eb + xp) as nat);
            assert(ea + 149 + xn == 60 + eb + xp);
            let c = pow2((eb + xp) as nat);
            lemma_pow2_pos((eb + xp) as nat);
            assert(d * pow2(xp) == mb * c) by (nonlinear_arith)
                requires
                    d == mb * pow2(eb as nat),
                    pow2(eb as nat) * pow2(xp) == c,
            ;
            lemma_regroup(ma as nat, pow2(ea as nat), pow2(149), pow2(xn), pow2(60), c);
            assert(q * (mb * c) <= w * c && w * c < (q + 1) * (mb * c)) by (nonlinear_arith)
                requires
                    w == mb * q + rest,
                    0 <= rest < mb,
                    c > 0,
            ;
            assert((rest > 0) == (q * (mb * c) < w * c)) by (nonlinear_arith)
                requires
                    w == mb * q + rest,
                    0 <= rest < mb,
                    c > 0,
            ;
        }
        round_pack(negative, q, rest > 0, x, Ghost(n), Ghost(d))
    }
}

/// The number with the given sign and magnitude.
pub(crate) fn with_sign(negative: bool, mag: u32) -> (r: Binary32)
    requires
        mag <= INF_MAG,
    ensures
        r == signed_mag(negative, mag as nat),
{
    if negative {
        Binary32 { bits: mag + 0x8000_0000 }
    } else {
        Binary32 { bits: mag }
    }
}

pub(crate) proof fn lemma_round32_zero(d: nat)
    requires
        d > 0,
    ensures
        round32(0, d) == 0,
{
    lemma_pow2_values();
    assert(d * pow2(24) > 0) by (nonlinear_arith)
        requires
            d > 0,
            pow2(24) > 0,
    ;
    assert(d * pow2(0) == d) by (nonlinear_arith)
        requires
            pow2(0) == 1,
    ;
    vstd::arithmetic::div_mod::lemma_div_of0(d as int);
    vstd::arithmetic::div_mod::lemma_small_mod(0, d);
}

/// `m * 2^a` over `2^b`, written with a significand of `g` more digits.
pub(crate) proof fn lemma_scale(m: nat, a: nat, b: nat, g: nat, x: int)
    requires
        x == a - b - g,
    ensures
        (m * pow2(g)) * (pow2(b) * pow2(above(x))) == (m * pow2(a)) * pow2(above(-x)),
{
    let xp = above(x);
    let xn = above(-x);
    lemma_pow2_adds(b, xp);
    lemma_pow2_adds(g, b + xp);
    lemma_pow2_adds(a, xn);
    assert(g + (b + xp) == a + xn);
    assert((m * pow2(g)) * pow2(b + xp) == m * (pow2(g) * pow2(b + xp))) by (nonlinear_arith);
    assert((m * pow2(a)) * pow2(xn) == m * (pow2(a) * pow2(xn))) by (nonlinear_arith);
}

pub(crate) proof fn lemma_regroup(m: nat, a: nat, b: nat, x: nat, g: nat, c: nat)
    requires
        (a * b) * x == g * c,
    ensures
        ((m * a) * b) * x == (m * g) * c,
{
    assert(((m * a) * b) * x == m * ((a * b) * x)) by (nonlinear_arith);
    assert(m * (g * c) == (m * g) * c) by (nonlinear_arith);
}

pub(crate) proof fn lemma_one_step(q: nat, d: nat, c: nat)
    requires
        d > 0,
        c > 0,
    ensures
        q * (d * c) < (q + 1) * (d * c),
{
    assert(d * c > 0) by (nonlinear_arith)
        requires
            d > 0,
            c > 0,
    ;
    assert(q * (d * c) < (q + 1) * (d * c)) by (nonlinear_arith)
        requires
            d * c > 0,
    ;
}

/// Rounds `(q + f) * 2^x` units and puts the number together.
pub(crate) fn round_pack(
    negative: bool,
    q: u128,
    sticky: bool,
    x: i32,
    Ghost(n): Ghost<nat>,
    Ghost(d): Ghost<nat>,
) -> (r: Binary32)
    requires
        pow2(24) <= q < pow2(126),
        -4000 <= x <= 4000,
        d > 0,
        q * (d * pow2(above(x as int))) <= n * pow2(above(-x)) < (q + 1) * (d * pow2(
            above(x as int),
        )),
        sticky <==> q * (d * pow2(above(x as int))) < n * pow2(above(-x)),
    ensures
        r == signed_mag(negative, round32(n, d)),
{
    let (k, s) = round_scaled(24, q, sticky, x, Ghost(n), Ghost(d));
    proof {
        lemma_pow2_values();
    }
    let m: u64 = s as u64 * 0x80_0000 + k;
    if m < INF_MAG as u64 {
        with_sign(negative, m as u32)
    } else {
        with_sign(negative, INF_MAG)
    }
}

/// The rounded sum of two finite numbers, the first with the larger exponent.
fn add_aligned(a: Binary32, b: Binary32) -> (r: Binary32)
    requires
        a.finite(),
        b.finite(),
        a.exponent() >= b.exponent(),
    ensures
        r == a.plus(b),
        r == b.plus(a),
{
    proof {
        reveal(Binary32::plus);
    }
    let (ma, ea) = a.parts();
    let (mb, eb) = b.parts();
    let ghost v = a.value() + b.value();
    let ghost n = (above(v) + above(-v)) as nat;
    let same: bool = a.is_negative() == b.is_negative();
    let gap: u32 = ea - eb;
    proof {
        lemma_pow2_values();
    }
    if gap <= 60 {
        let step: u128 = power_of_two(gap);
        proof {
            if gap < 60 {
                lemma_pow2_strictly_increases(gap as nat, 60);
            }
            lemma_pow2_pos(gap as nat);
            assert(ma * step < 0x10_0000_0000_0000_0000_0000) by (nonlinear_arith)
                requires
                    ma < 0x100_0000,
                    step <= 0x1000_0000_0000_0000,
            ;
            lemma_pow2_adds(gap as nat, eb as nat);
            lemma_pow2_pos(eb as nat);
            assert(a.units() == (ma * step) * pow2(eb as nat)) by (nonlinear_arith)
                requires
                    a.units() == ma * pow2(ea as nat),
                    pow2(ea as nat) == step * pow2(eb as nat),
            ;
        }
        let wa: u128 = ma as u128 * step;
        let wb: u128 = mb as u128;
        let negative: bool = if wa >= wb {
            a.is_negative()
        } else {
            b.is_negative()
        };
        let m: u128 = if same {
            wa + wb
        } else if wa >= wb {
            wa - wb
        } else {
            wb - wa
        };
        proof {
            let c = pow2(eb as nat);
            assert((wa + wb) * c == wa * c + wb * c) by (nonlinear_arith);
            assert((wa - wb) * c == wa * c - wb * c) by (nonlinear_arith);
            assert((wb - wa) * c == wb * c - wa * c) by (nonlinear_arith);
            assert(wa < wb ==> wa * c < wb * c) by (nonlinear_arith)
                requires
                    c > 0,
            ;
            assert(wa > wb ==> wa * c > wb * c) by (nonlinear_arith)
                requires
                    c > 0,
            ;
            assert(n == m * c);
            assert(m == 0 <==> n == 0) by (nonlinear_arith)
                requires
                    n == m * c,
                    c > 0,
            ;
            assert(m != 0 ==> negative == (v < 0));
        }
        if m == 0 {
            return with_sign(a.is_negative() && b.is_negative(), 0);
        }
        let q: u128 = m * 0x4000_0000;
        let x: i32 = eb as i32 - 30;
        proof {
            lemma_scale(m as nat, eb as nat, 0, 30, x as int);
            lemma_pow2_pos(above(x as int));
            lemma_one_step(q as nat, 1, pow2(above(x as int)));
        }
        return round_pack(negative, q, false, x, Ghost(n), Ghost(1));
    }
    let x: i32 = ea as i32 - 30;
    let w: u128 = ma as u128 * 0x4000_0000;
    proof {
        // the smaller number is less than one step of the extended significand
        lemma_pow2_adds(30, x as nat);
        lemma_pow2_adds(24, eb as nat);
        lemma_pow2_strictly_increases((24 + eb) as nat, x as nat);
        lemma_pow2_pos(eb as nat);
        let c = pow2(x as nat);
        assert(pow2(0) == 1);
        assert(a.units() == w * c) by (nonlinear_arith)
            requires
                a.units() == ma * (0x4000_0000 * c),
                w == ma * 0x4000_0000,
        ;
        assert(b.units() < c) by (nonlinear_arith)
            requires
                b.units() == mb * pow2(eb as nat),
                mb < 0x100_0000,
                0x100_0000 * pow2(eb as nat) < c,
                pow2(eb as nat) > 0,
        ;
        assert(b.units() == 0 <==> mb == 0) by (nonlinear_arith)
            requires
                b.units() == mb * pow2(eb as nat),
                pow2(eb as nat) > 0,
        ;
        assert((w + 1) * c == w * c + c) by (nonlinear_arith);
        assert((w - 1) * c == w * c - c) by (nonlinear_arith);
        assert(w * c >= c) by (nonlinear_arith)
            requires
                w >= 1,
                c >= 0,
        ;
        assert(1 * c == c) by (nonlinear_arith);
        assert(n * 1 == n) by (nonlinear_arith);
    }
    if same || mb == 0 {
        round_pack(a.is_negative(), w, mb != 0, x, Ghost(n), Ghost(1))
    } else {
        round_pack(a.is_negative(), w - 1, true, x, Ghost(n), Ghost(1))
    }
}

} // verus!
