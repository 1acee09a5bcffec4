//! Between single precision numbers and integers.

use crate::binary32::{round_pack, round32, signed_mag, with_sign, Binary32, INF_MAG, ONE};
use crate::binary32::{lemma_one_step, lemma_scale};
use crate::binary32_laws::{
    lemma_mag_units_increases, lemma_one_units, lemma_ulp_shift_bounds, lemma_units_order,
};
use crate::rounding::{above, bit_length, lemma_pow2_values, power_of_two, ulp_shift};
use vstd::arithmetic::div_mod::{lemma_fundamental_div_mod, lemma_fundamental_div_mod_converse};
use vstd::arithmetic::power2::{
    lemma2_to64_rest, lemma_pow2_adds, lemma_pow2_pos, lemma_pow2_strictly_increases, lemma_pow2_unfold, pow2,
};
use vstd::prelude::*;

verus! {

/// The integer `n` with a sign, rounded to single precision.
pub open spec fn of_int(negative: bool, n: nat) -> Binary32 {
    signed_mag(negative, round32(n * pow2(149), 1))
}

/// The largest `r` with `r * r <= n`.
pub open spec fn isqrt(n: nat) -> nat
    decreases n,
{
    if n == 0 {
        0
    } else {
        let r = isqrt((n - 1) as nat);
        if (r + 1) * (r + 1) <= n {
            r + 1
        } else {
            r
        }
    }
}

impl Binary32 {
    /// The integer part of the absolute value.
    pub open spec fn whole(self) -> nat {
        self.units() / pow2(149)
    }

    /// What the integer part leaves, in units.
    pub open spec fn rest(self) -> nat {
        self.units() % pow2(149)
    }

    /// The integer part, the next one up where something is left.
    pub open spec fn whole_up(self) -> nat {
        if self.rest() == 0 {
            self.whole()
        } else {
            self.whole() + 1
        }
    }

    /// The nearest integer to the absolute value, the larger one on a tie.
    pub open spec fn whole_near(self) -> nat {
        if 2 * self.rest() >= pow2(149) {
            self.whole() + 1
        } else {
            self.whole()
        }
    }

    /// Whether every number of this size is an integer.
    pub open spec fn coarse(self) -> bool {
        self.exponent() >= 149
    }

    /// The largest integer not above the number.
    pub open spec fn floored(self) -> Binary32 {
        if self.coarse() {
            self
        } else if self.negative() {
            of_int(true, self.whole_up())
        } else {
            of_int(false, self.whole())
        }
    }

    /// The smallest integer not below the number.
    pub open spec fn ceiled(self) -> Binary32 {
        if self.coarse() {
            self
        } else if self.negative() {
            of_int(true, self.whole())
        } else {
            of_int(false, self.whole_up())
        }
    }

    /// The nearest integer, the one further from zero on a tie.
    pub open spec fn rounded(self) -> Binary32 {
        if self.coarse() {
            self
        } else {
            of_int(self.negative(), self.whole_near())
        }
    }

    /// The integer part within `0..=max`: 0 for what is negative or not a number.
    pub open spec fn as_unsigned(self, max: nat) -> nat {
        if self.nan_pattern() || self.negative() {
            0
        } else if self.infinite() || self.whole() > max {
            max
        } else {
            self.whole()
        }
    }

    /// The integer part within `-2^31..2^31`; 0 for what is not a number.
    pub open spec fn as_i32(self) -> int {
        if self.nan_pattern() {
            0
        } else if self.negative() {
            if self.infinite() || self.whole() > 0x8000_0000 {
                -0x8000_0000
            } else {
                -(self.whole() as int)
            }
        } else if self.infinite() || self.whole() > 0x7fff_ffff {
            0x7fff_ffff
        } else {
            self.whole() as int
        }
    }

    /// The rounded square root.
    #[verifier::opaque]
    pub open spec fn root(self) -> Binary32 {
        if self.nan_pattern() {
            crate::binary32::nan()
        } else if self.mag() == 0 {
            self
        } else if self.negative() {
            crate::binary32::nan()
        } else if self.infinite() {
            self
        } else {
            // In units the root is that of `v`; with `s` the weight of its last
            // place, `isqrt` gives it in half steps of that place, which round up.
            let v = self.units() * pow2(149);
            let s = root_shift(v);
            signed_mag(false, s * 0x80_0000 + (isqrt(v / pow2((2 * (s - 1)) as nat)) + 1) / 2)
        }
    }

    pub fn from_u64(n: u64) -> (r: Binary32)
        ensures
            r == of_int(false, n as nat),
    {
        rounded_integer(false, n as u128)
    }

    pub fn from_u128(n: u128) -> (r: Binary32)
        requires
            n < 0x400_0000_0000_0000_0000_0000,
        ensures
            r == of_int(false, n as nat),
    {
        rounded_integer(false, n)
    }

    pub fn from_i64(n: i64) -> (r: Binary32)
        requires
            n > i64::MIN,
        ensures
            r == of_int(n < 0, above(n as int) + above(-n)),
    {
        if n < 0 {
            rounded_integer(true, (-n) as u128)
        } else {
            rounded_integer(false, n as u128)
        }
    }

    /// Integer part of a number that is not coarse, and what it leaves: nothing,
    /// less than a half, or at least a half.
    fn split(self) -> (r: (u64, bool, bool))
        requires
            self.finite(),
            !self.coarse(),
        ensures
            r.0 == self.whole(),
            r.0 <= 0x100_0000,
            r.1 == (self.rest() > 0),
            r.2 == (2 * self.rest() >= pow2(149)),
    {
        let (m, e) = self.parts();
        let t: u32 = 149 - e;
        proof {
            lemma_pow2_pos(e as nat);
            lemma_pow2_pos(t as nat);
            lemma_pow2_adds(e as nat, t as nat);
            lemma_split(m as nat, pow2(e as nat), pow2(t as nat));
            lemma_pow2_values();
        }
        if t >= 30 {
            proof {
                if t > 30 {
                    lemma_pow2_strictly_increases(30, t as nat);
                }
                vstd::arithmetic::div_mod::lemma_basic_div(m as int, pow2(t as nat) as int);
                vstd::arithmetic::div_mod::lemma_small_mod(m as nat, pow2(t as nat));
            }
            return (0, m > 0, false);
        }
        let w: u64 = power_of_two_small(t);
        let a: u64 = m as u64 / w;
        let b: u64 = m as u64 % w;
        proof {
            lemma_pow2_strictly_increases(t as nat, 30);
            vstd::arithmetic::div_mod::lemma_div_nonincreasing(m as int, w as int);
        }
        (a, b > 0, 2 * b >= w)
    }

    pub fn floor(self) -> (r: Binary32)
        ensures
            r == self.floored(),
    {
        if self.is_coarse() {
            return self;
        }
        let (a, some, _half) = self.split();
        if self.is_negative() && some {
            rounded_integer(true, a as u128 + 1)
        } else {
            rounded_integer(self.is_negative(), a as u128)
        }
    }

    pub fn ceil(self) -> (r: Binary32)
        ensures
            r == self.ceiled(),
    {
        if self.is_coarse() {
            return self;
        }
        let (a, some, _half) = self.split();
        if !self.is_negative() && some {
            rounded_integer(false, a as u128 + 1)
        } else {
            rounded_integer(self.is_negative(), a as u128)
        }
    }

    pub fn round(self) -> (r: Binary32)
        ensures
            r == self.rounded(),
    {
        if self.is_coarse() {
            return self;
        }
        let (a, _some, half) = self.split();
        if half {
            rounded_integer(self.is_negative(), a as u128 + 1)
        } else {
            rounded_integer(self.is_negative(), a as u128)
        }
    }

    /// The integer part of the absolute value, at most `cap`.
    fn whole_capped(self, cap: u64) -> (r: u64)
        requires
            !self.nan_pattern(),
        ensures
            r == if self.infinite() || self.whole() > cap {
                cap as nat
            } else {
                self.whole()
            },
    {
        if !self.is_finite() {
            return cap;
        }
        if !self.is_coarse() {
            let (a, _some, _half) = self.split();
            return if a > cap {
                cap
            } else {
                a
            };
        }
        let (m, e) = self.parts();
        let t: u32 = e - 149;
        proof {
            lemma_pow2_values();
            lemma_pow2_pos(149);
            lemma_pow2_pos(t as nat);
            lemma_pow2_adds(t as nat, 149);
            assert(self.units() == (m * pow2(t as nat)) * pow2(149)) by (nonlinear_arith)
                requires
                    self.units() == m * pow2(e as nat),
                    pow2(e as nat) == pow2(t as nat) * pow2(149),
            ;
            vstd::arithmetic::div_mod::lemma_div_by_multiple(
                (m * pow2(t as nat)) as int,
                pow2(149) as int,
            );
            assert(self.whole() == m * pow2(t as nat));
        }
        if t >= 41 {
            proof {
                lemma2_to64_rest();
                if t > 41 {
                    lemma_pow2_strictly_increases(41, t as nat);
                }
                assert(m * pow2(t as nat) >= 0x80_0000 * 0x200_0000_0000) by (nonlinear_arith)
                    requires
                        m >= 0x80_0000,
                        pow2(t as nat) >= 0x200_0000_0000,
                ;
            }
            return cap;
        }
        let w: u128 = power_of_two(t);
        proof {
            lemma2_to64_rest();
            lemma_pow2_strictly_increases(t as nat, 41);
            assert(m * w < 0x100_0000 * 0x200_0000_0000) by (nonlinear_arith)
                requires
                    m < 0x100_0000,
                    w < 0x200_0000_0000,
            ;
        }
        let a: u128 = m as u128 * w;
        if a > cap as u128 {
            cap
        } else {
            a as u64
        }
    }

    fn is_coarse(self) -> (r: bool)
        ensures
            r == self.coarse(),
            !r ==> self.finite(),
    {
        self.bits % 0x8000_0000 >= 0x4b00_0000
    }

    /// The integer part, within `u8`.
    pub fn to_u8(self) -> (r: u8)
        ensures
            r == self.as_unsigned(0xff),
    {
        if self.is_nan() || self.is_negative() {
            0
        } else {
            self.whole_capped(0xff) as u8
        }
    }

    /// The integer part, within `u32`.
    pub fn to_u32(self) -> (r: u32)
        ensures
            r == self.as_unsigned(0xffff_ffff),
    {
        if self.is_nan() || self.is_negative() {
            0
        } else {
            self.whole_capped(0xffff_ffff) as u32
        }
    }

    /// The integer part, within `u64`.
    pub fn to_u64(self) -> (r: u64)
        ensures
            r == self.as_unsigned(0xffff_ffff_ffff_ffff),
    {
        if self.is_nan() || self.is_negative() {
            0
        } else {
            self.whole_capped(0xffff_ffff_ffff_ffff)
        }
    }

    /// The integer part, within `i32`.
    pub fn to_i32(self) -> (r: i32)
        ensures
            r == self.as_i32(),
    {
        if self.is_nan() {
            0
        } else if self.is_negative() {
            (-(self.whole_capped(0x8000_0000) as i64)) as i32
        } else {
            self.whole_capped(0x7fff_ffff) as i32
        }
    }

    /// The rounded square root.
    pub fn sqrt(self) -> (r: Binary32)
        ensures
            r == self.root(),
            !self.nan_pattern() && !self.negative() ==> !r.nan_pattern() && !r.negative(),
            !self.nan_pattern() && !self.negative() && self.mag() > 0 ==> r.mag() >= 0x100_0000,
            self.finite() && !self.negative() ==> r.mag() <= 0x6080_0000,
    {
        proof {
            reveal(Binary32::root);
        }
        if self.is_nan() {
            return Binary32 { bits: 0x7fc0_0000 };
        }
        if self.bits % 0x8000_0000 == 0 {
            return self;
        }
        if self.is_negative() {
            return Binary32 { bits: 0x7fc0_0000 };
        }
        if !self.is_finite() {
            return self;
        }
        let (m, e) = self.parts();
        let b: u32 = bit_length(m as u128);
        proof {
            lemma_pow2_values();
            if b > 24 {
                if b - 1 > 24 {
                    lemma_pow2_strictly_increases(24, (b - 1) as nat);
                }
                assert(false);
            }
        }
        let g: u32 = e + 149;
        let top: u32 = b + g;
        let s: u32 = (top + 1) / 2 - 24;
        let sh: u32 = g + 2 - 2 * s;
        let ghost v = (self.units() * pow2(149)) as nat;
        proof {
            lemma_pow2_adds(e as nat, 149);
            assert(v == m * pow2(g as nat)) by (nonlinear_arith)
                requires
                    v == (m * pow2(e as nat)) * pow2(149),
                    pow2(e as nat) * pow2(149) == pow2(g as nat),
            ;
            lemma_root_shift(m as nat, b as nat, g as nat, s as nat);
            lemma_pow2_adds(sh as nat, (2 * (s - 1)) as nat);
            lemma_pow2_pos((2 * (s - 1)) as nat);
            assert(v == (m * pow2(sh as nat)) * pow2((2 * (s - 1)) as nat)) by (nonlinear_arith)
                requires
                    v == m * pow2(g as nat),
                    pow2(g as nat) == pow2(sh as nat) * pow2((2 * (s - 1)) as nat),
            ;
            vstd::arithmetic::div_mod::lemma_div_by_multiple(
                (m * pow2(sh as nat)) as int,
                pow2((2 * (s - 1)) as nat) as int,
            );
            lemma_pow2_adds(b as nat, sh as nat);
            if b + sh < 52 {
                lemma_pow2_strictly_increases((b + sh) as nat, 52);
            }
            lemma_pow2_pos(sh as nat);
            assert(m * pow2(sh as nat) < 0x10_0000_0000_0000) by (nonlinear_arith)
                requires
                    m < pow2(b as nat),
                    pow2(b as nat) * pow2(sh as nat) <= 0x10_0000_0000_0000,
                    pow2(sh as nat) > 0,
            ;
            if sh < 60 {
                lemma_pow2_strictly_increases(sh as nat, 60);
            }
        }
        let w: u64 = m as u64 * power_of_two(sh) as u64;
        let r: u64 = integer_sqrt(w);
        proof {
            lemma_pow2_adds(24, 24);
            lemma_pow2_adds((b - 1) as nat, sh as nat);
            if 48 < b - 1 + sh {
                lemma_pow2_strictly_increases(48, (b - 1 + sh) as nat);
            }
            assert(w >= 0x1_0000_0000_0000) by (nonlinear_arith)
                requires
                    w == m * pow2(sh as nat),
                    m >= pow2((b - 1) as nat),
                    pow2((b - 1) as nat) * pow2(sh as nat) >= 0x1_0000_0000_0000,
            ;
            lemma_isqrt(w as nat);
            assert(r >= 0x100_0000) by (nonlinear_arith)
                requires
                    (r + 1) * (r + 1) > w,
                    w >= 0x1_0000_0000_0000,
                    r >= 0,
            ;
        }
        let mag: u64 = s as u64 * 0x80_0000 + (r + 1) / 2;
        Binary32 { bits: mag as u32 }
    }
}

/// The weight of the last place of the root of `v`: the smallest `s` for which
/// the root is below `2^(24 + s)`.
pub open spec fn root_shift(v: nat) -> nat {
    ((ulp_shift(48, v, 1) + 1) / 2) as nat
}

proof fn lemma_root_shift(m: nat, b: nat, g: nat, s: nat)
    requires
        1 <= b <= 24,
        g >= 149,
        pow2((b - 1) as nat) <= m < pow2(b),
        s == (b + g + 1) / 2 - 24,
    ensures
        root_shift(m * pow2(g)) == s,
        s >= 1,
{
    let v = m * pow2(g);
    let t = (b + g - 48) as nat;
    lemma_pow2_pos(g);
    lemma_pow2_adds(b, g);
    lemma_pow2_adds((b - 1) as nat, g);
    lemma_pow2_adds(48, t);
    lemma_pow2_adds(48, (t - 1) as nat);
    assert(v < pow2(b) * pow2(g)) by (nonlinear_arith)
        requires
            v == m * pow2(g),
            m < pow2(b),
            pow2(g) > 0,
    ;
    assert(v >= pow2((b - 1) as nat) * pow2(g)) by (nonlinear_arith)
        requires
            v == m * pow2(g),
            m >= pow2((b - 1) as nat),
            pow2(g) > 0,
    ;
    assert(1 * (pow2(48) * pow2(t)) == pow2(48) * pow2(t)) by (nonlinear_arith);
    assert(1 * (pow2(48) * pow2((t - 1) as nat)) == pow2(48) * pow2((t - 1) as nat))
        by (nonlinear_arith);
    crate::rounding::lemma_ulp_shift_is(48, v, 1, t);
}

proof fn lemma_split(m: nat, c: nat, w: nat)
    requires
        c > 0,
        w > 0,
    ensures
        (m * c) / (c * w) == m / w,
        (m * c) % (c * w) == (m % w) * c,
        ((m % w) * c > 0) == (m % w > 0),
        (2 * ((m % w) * c) >= c * w) == (2 * (m % w) >= w),
{
    lemma_fundamental_div_mod(m as int, w as int);
    let a = m / w;
    let b = m % w;
    assert(m * c == a * (c * w) + b * c) by (nonlinear_arith)
        requires
            m == w * a + b,
    ;
    assert(0 <= b * c < c * w) by (nonlinear_arith)
        requires
            0 <= b < w,
            c > 0,
    ;
    lemma_fundamental_div_mod_converse((m * c) as int, (c * w) as int, a as int, (b * c) as int);
    assert((b * c > 0) == (b > 0)) by (nonlinear_arith)
        requires
            c > 0,
            b >= 0,
    ;
    assert((2 * (b * c) >= c * w) == (2 * b >= w)) by (nonlinear_arith)
        requires
            c > 0,
    ;
}

fn power_of_two_small(t: u32) -> (r: u64)
    requires
        t <= 60,
    ensures
        r == pow2(t as nat),
{
    proof {
        lemma_pow2_values();
        if t < 60 {
            lemma_pow2_strictly_increases(t as nat, 60);
        }
    }
    power_of_two(t) as u64
}

fn rounded_integer(negative: bool, n: u128) -> (r: Binary32)
    requires
        n < 0x400_0000_0000_0000_0000_0000,
    ensures
        r == of_int(negative, n as nat),
{
    proof {
        lemma_pow2_values();
        lemma_pow2_pos(149);
        lemma_pow2_pos(119);
    }
    if n == 0 {
        proof {
            assert(0 * pow2(149) == 0) by (nonlinear_arith);
            crate::binary32::lemma_round32_zero(1);
        }
        return with_sign(negative, 0);
    }
    let q: u128 = n * 0x4000_0000;
    proof {
        lemma_scale(n as nat, 149, 0, 30, 119);
        lemma_one_step(q as nat, 1, pow2(119));
    }
    round_pack(negative, q, false, 119, Ghost(n as nat * pow2(149)), Ghost(1))
}

pub(crate) proof fn lemma_isqrt(n: nat)
    ensures
        isqrt(n) * isqrt(n) <= n < (isqrt(n) + 1) * (isqrt(n) + 1),
    decreases n,
{
    if n > 0 {
        lemma_isqrt((n - 1) as nat);
        let r = isqrt((n - 1) as nat);
        assert((r + 2) * (r + 2) > (r + 1) * (r + 1)) by (nonlinear_arith)
            requires
                r >= 0,
        ;
        let k = isqrt(n);
        if (r + 1) * (r + 1) <= n {
            assert(k == r + 1);
            assert(k * k <= n < (k + 1) * (k + 1));
        } else {
            assert(k == r);
            assert(k * k <= n < (k + 1) * (k + 1));
        }
    } else {
        let k = isqrt(n);
        assert(k * k <= n < (k + 1) * (k + 1)) by (nonlinear_arith)
            requires
                k == 0,
                n == 0,
        ;
    }
}

/// Only one number squares to the largest square not above `n`.
proof fn lemma_isqrt_is(n: nat, r: nat)
    requires
        r * r <= n < (r + 1) * (r + 1),
    ensures
        isqrt(n) == r,
{
    lemma_isqrt(n);
    let k = isqrt(n);
    if k < r {
        assert((k + 1) * (k + 1) <= r * r) by (nonlinear_arith)
            requires
                0 <= k < r,
        ;
    } else if k > r {
        assert((r + 1) * (r + 1) <= k * k) by (nonlinear_arith)
            requires
                0 <= r < k,
        ;
    }
}

/// The integer square root, by bisection.
fn integer_sqrt(n: u64) -> (r: u64)
    requires
        n < 0x10_0000_0000_0000,
    ensures
        r == isqrt(n as nat),
        r < 0x400_0000,
{
    let mut low: u64 = 0;
    let mut high: u64 = 0x400_0000;
    while low + 1 < high
        invariant
            low < high <= 0x400_0000,
            low * low <= n < high * high,
        decreases high - low,
    {
        let mid: u64 = (low + high) / 2;
        proof {
            assert(mid * mid <= 0x400_0000 * 0x400_0000) by (nonlinear_arith)
                requires
                    0 <= mid <= 0x400_0000,
            ;
        }
        if mid * mid <= n {
            low = mid;
        } else {
            high = mid;
        }
    }
    proof {
        lemma_isqrt_is(n as nat, low as nat);
    }
    low
}

/// An integer of at most 24 binary digits, scaled by a power of two in the middle of
/// the range, is a single precision number.
pub proof fn lemma_scaled_exact(n: nat, g: nat)
    requires
        0 < n < 0x100_0000,
        100 <= g <= 149,
    ensures
        round32(n * pow2(g), 1) < INF_MAG,
        crate::binary32::mag_units(round32(n * pow2(g), 1)) == n * pow2(g),
        round32(n * pow2(g), 1) / 0x80_0000 <= g + 1,
{
    let v = n * pow2(g);
    lemma_pow2_pos(g);
    lemma_pow2_values();
    let s = ulp_shift(24, v, 1);
    lemma_ulp_shift_bounds(24, v, 1);
    lemma_pow2_adds(24, s);
    lemma_pow2_adds(24, g);
    assert(v >= pow2(g)) by (nonlinear_arith)
        requires
            v == n * pow2(g),
            n >= 1,
            pow2(g) > 0,
    ;
    assert(v < pow2(24 + g)) by (nonlinear_arith)
        requires
            v == n * pow2(g),
            n < 0x100_0000,
            pow2(24 + g) == 0x100_0000 * pow2(g),
            pow2(g) > 0,
    ;
    if s == 0 {
        lemma_pow2_strictly_increases(24, g);
        assert(false);
    }
    lemma_pow2_adds(24, (s - 1) as nat);
    if s > g {
        if s - 1 > g {
            lemma_pow2_strictly_increases(24 + g, (24 + s - 1) as nat);
        }
        assert(false);
    }
    let t = (g - s) as nat;
    let k = n * pow2(t);
    let c = pow2(s);
    lemma_pow2_pos(s);
    lemma_pow2_adds(t, s);
    assert(v == k * c) by (nonlinear_arith)
        requires
            v == n * pow2(g),
            k == n * pow2(t),
            pow2(g) == pow2(t) * c,
    ;
    assert(1 * c == c) by (nonlinear_arith);
    lemma_fundamental_div_mod_converse(v as int, c as int, k as int, 0);
    assert(k < 0x100_0000) by (nonlinear_arith)
        requires
            k * c < 0x100_0000 * c,
            c > 0,
    ;
    lemma_pow2_unfold(s);
    let h = pow2((s - 1) as nat);
    assert(0x80_0000 <= k) by (nonlinear_arith)
        requires
            0x100_0000 * h <= k * c,
            c == 2 * h,
            c > 0,
    ;
    let mag = s * 0x80_0000 + k;
    assert(mag / 0x80_0000 == s + 1 && mag % 0x80_0000 == k - 0x80_0000);
}

/// An integer of at most 24 binary digits is a single precision number.
pub proof fn lemma_of_int_exact(negative: bool, n: nat)
    requires
        n < 0x100_0000,
    ensures
        of_int(negative, n).finite(),
        of_int(negative, n).negative() == negative,
        of_int(negative, n).units() == n * pow2(149),
        of_int(negative, n).whole() == n,
        of_int(negative, n).rest() == 0,
{
    let v = n * pow2(149);
    lemma_pow2_pos(149);
    lemma_pow2_values();
    if n == 0 {
        assert(v == 0) by (nonlinear_arith)
            requires
                v == n * pow2(149),
                n == 0,
        ;
        crate::binary32::lemma_round32_zero(1);
        vstd::arithmetic::div_mod::lemma_div_of0(pow2(149) as int);
        vstd::arithmetic::div_mod::lemma_small_mod(0, pow2(149));
    } else {
        lemma_scaled_exact(n, 149);
        lemma_fundamental_div_mod_converse(v as int, pow2(149) as int, n as int, 0);
    }
}

/// Rounding stays between two integers that enclose the number.
pub proof fn lemma_rounded_between(x: Binary32, low: nat, high: nat)
    requires
        x.finite(),
        !x.negative(),
        !x.coarse(),
        low * pow2(149) <= x.units() <= high * pow2(149),
        high < 0x100_0000,
    ensures
        low <= x.whole_near() <= high,
        x.rounded().as_i32() == x.whole_near(),
        x.rounded().as_unsigned(0xffff_ffff) == x.whole_near(),
{
    let c = pow2(149);
    let u = x.units();
    lemma_pow2_pos(149);
    lemma_fundamental_div_mod(u as int, c as int);
    let w = x.whole();
    let r = x.rest();
    assert(w >= low) by (nonlinear_arith)
        requires
            u == c * w + r,
            r < c,
            low * c <= u,
            c > 0,
    ;
    assert(w <= high && (w == high ==> r == 0)) by (nonlinear_arith)
        requires
            u == c * w + r,
            0 <= r,
            u <= high * c,
            c > 0,
    ;
    lemma_of_int_exact(false, x.whole_near());
}

/// What the root of a number from 1 on is made of.
proof fn lemma_root_parts(x: Binary32)
    requires
        x.finite(),
        !x.negative(),
        x.mag() >= ONE,
    ensures
        ({
            let v = x.units() * pow2(149);
            let t = ulp_shift(48, v, 1);
            let s = root_shift(v);
            let r = isqrt(v / pow2((2 * (s - 1)) as nat));
            &&& 251 <= t <= 378
            &&& s == (t + 1) / 2
            &&& pow2((48 + t - 1) as nat) <= v < pow2(48 + t)
            &&& 0x100_0000 <= r < 0x200_0000
            &&& x.root() == signed_mag(false, s * 0x80_0000 + (r + 1) / 2)
        }),
{
    reveal(Binary32::root);
    let k = pow2(149);
    let v = x.units() * k;
    let t = ulp_shift(48, v, 1);
    let s = root_shift(v);
    lemma_pow2_values();
    lemma_pow2_pos(149);
    lemma_one_units();
    lemma_units_order(ONE as nat, x.mag());
    lemma_mag_units_increases(x.mag(), INF_MAG as nat);
    lemma_pow2_adds(149, 149);
    lemma_pow2_adds(23, 254);
    lemma_pow2_adds(277, 149);
    assert(INF_MAG as nat / 0x80_0000 == 255);
    assert(crate::binary32::mag_units(INF_MAG as nat) == pow2(277));
    assert(pow2(298) <= v < pow2(426)) by (nonlinear_arith)
        requires
            k <= x.units() < pow2(277),
            v == x.units() * k,
            k > 0,
            pow2(298) == k * k,
            pow2(426) == pow2(277) * k,
    ;
    lemma_ulp_shift_bounds(48, v, 1);
    lemma_pow2_adds(48, t);
    if t < 251 {
        if t < 250 {
            lemma_pow2_strictly_increases(48 + t, 298);
        }
        assert(false);
    }
    lemma_pow2_adds(48, (t - 1) as nat);
    if t > 378 {
        if t > 379 {
            lemma_pow2_strictly_increases(426, 48 + (t - 1) as nat);
        }
        assert(false);
    }
    lemma_root_place(v, t, s, (2 * (s - 1)) as nat);
}

/// What the root of `v` comes to in half steps of its last place.
pub(crate) proof fn lemma_root_place(v: nat, t: nat, s: nat, g: nat)
    requires
        pow2((48 + t - 1) as nat) <= v < pow2(48 + t),
        t >= 1,
        s == (t + 1) / 2,
        g == 2 * (s - 1),
    ensures
        0x100_0000 <= isqrt(v / pow2(g)) < 0x200_0000,
{
    let c = pow2(g);
    let w = v / c;
    let r = isqrt(w);
    lemma_pow2_values();
    vstd::arithmetic::power2::lemma2_to64();
    lemma2_to64_rest();
    lemma_pow2_pos(g);
    lemma_fundamental_div_mod(v as int, c as int);
    lemma_isqrt(w);
    lemma_pow2_adds(50, g);
    lemma_pow2_adds(48, g);
    if 48 + t < 50 + g {
        lemma_pow2_strictly_increases(48 + t, 50 + g);
    }
    if 48 + g < 48 + t - 1 {
        lemma_pow2_strictly_increases(48 + g, (48 + t - 1) as nat);
    }
    assert(w < pow2(50)) by (nonlinear_arith)
        requires
            v < pow2(50) * c,
            c * w <= v,
            c > 0,
    ;
    assert(r < 0x200_0000) by (nonlinear_arith)
        requires
            r * r <= w,
            w < 0x4_0000_0000_0000,
    ;
    assert(w >= pow2(48)) by (nonlinear_arith)
        requires
            v >= pow2(48) * c,
            v < c * w + c,
            c > 0,
    ;
    assert(r >= 0x100_0000) by (nonlinear_arith)
        requires
            (r + 1) * (r + 1) > w,
            w >= 0x1_0000_0000_0000,
    ;
}

/// The root of a number from 1 on is a number from 1 on.
pub proof fn lemma_root_from_one(x: Binary32)
    requires
        x.finite(),
        !x.negative(),
        x.mag() >= ONE,
    ensures
        !x.root().negative(),
        ONE <= x.root().mag() <= 0x6080_0000,
{
    lemma_root_parts(x);
}

/// The root of a larger number is no smaller.
pub proof fn lemma_root_rises(x: Binary32, y: Binary32)
    requires
        x.finite(),
        y.finite(),
        !x.negative(),
        !y.negative(),
        ONE <= x.mag() <= y.mag(),
    ensures
        x.root().mag() <= y.root().mag(),
{
    let k = pow2(149);
    lemma_root_parts(x);
    lemma_root_parts(y);
    lemma_units_order(x.mag(), y.mag());
    let (a, b) = (x.units() * k, y.units() * k);
    assert(a <= b) by (nonlinear_arith)
        requires
            a == x.units() * k,
            b == y.units() * k,
            x.units() <= y.units(),
            k >= 0,
    ;
    let (t, u) = (ulp_shift(48, a, 1), ulp_shift(48, b, 1));
    if u < t {
        if u + 48 < t + 48 - 1 {
            lemma_pow2_strictly_increases(48 + u, (48 + t - 1) as nat);
        }
        assert(false);
    }
    if root_shift(a) == root_shift(b) {
        let c = pow2((2 * (root_shift(a) - 1)) as nat);
        lemma_pow2_pos((2 * (root_shift(a) - 1)) as nat);
        vstd::arithmetic::div_mod::lemma_div_is_ordered(a as int, b as int, c as int);
        let (p, q) = (isqrt(a / c), isqrt(b / c));
        lemma_isqrt(a / c);
        lemma_isqrt(b / c);
        assert(p <= q) by (nonlinear_arith)
            requires
                p * p <= a / c,
                (q + 1) * (q + 1) > b / c,
                a / c <= b / c,
        ;
    }
}

} // verus!
