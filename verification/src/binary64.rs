//! IEEE 754 double precision numbers that are neither negative nor NaN, computed
//! in integers. A finite one stands for a whole number of `2^-1074`.

use crate::binary32::{lemma_one_step, lemma_regroup, lemma_round32_zero, lemma_scale, round32, round_pack};
use crate::binary32::{signed_mag, with_sign, Binary32, INF_MAG};
use crate::rounding::{
    above, bit_length, half_even, lemma_pow2_values, power_of_two, round_scaled, ulp_shift,
};
use vstd::arithmetic::power2::{lemma_pow2_adds, lemma_pow2_pos, lemma_pow2_strictly_increases, pow2};
use vstd::prelude::*;

verus! {

/// A double precision number, given by its bit pattern, the sign bit clear.
#[derive(Clone, Copy, Debug, PartialEq, Eq, Structural)]
pub struct Binary64 {
    pub bits: u64,
}

/// The pattern of infinity.
pub const INF64: u64 = 0x7ff0_0000_0000_0000;

/// The pattern of 1.
pub const ONE64: u64 = 0x3ff0_0000_0000_0000;

/// The pattern of `n / d` units, rounded; infinity where it is too large.
pub open spec fn round64(n: nat, d: nat) -> nat {
    let s = ulp_shift(53, n, d);
    let m = s * 0x10_0000_0000_0000 + half_even(n, d * pow2(s));
    if m < INF64 {
        m
    } else {
        INF64 as nat
    }
}

/// The double precision number nearest to `n`.
pub open spec fn double(n: nat) -> Binary64 {
    Binary64 { bits: round64(n * pow2(1074), 1) as u64 }
}

impl Binary64 {
    pub open spec fn finite(self) -> bool {
        self.bits < INF64
    }

    /// The value, in units.
    pub open spec fn units(self) -> nat {
        let e = self.bits / 0x10_0000_0000_0000;
        let f = self.bits % 0x10_0000_0000_0000;
        if e == 0 {
            f as nat
        } else {
            (f + 0x10_0000_0000_0000) as nat * pow2((e - 1) as nat)
        }
    }

    /// The rounded quotient by a number that is neither zero nor infinite.
    pub open spec fn over(self, other: Binary64) -> Binary64 {
        if self.finite() {
            Binary64 { bits: round64(self.units() * pow2(1074), other.units()) as u64 }
        } else {
            Binary64 { bits: INF64 }
        }
    }

    /// The rounded product of two finite numbers.
    pub open spec fn times(self, other: Binary64) -> Binary64 {
        Binary64 { bits: round64(self.units() * other.units(), pow2(1074)) as u64 }
    }

    /// The rounded difference of two finite numbers, zero where it would be negative.
    pub open spec fn minus(self, other: Binary64) -> Binary64 {
        if self.units() <= other.units() {
            Binary64 { bits: 0 }
        } else {
            Binary64 { bits: round64((self.units() - other.units()) as nat, 1) as u64 }
        }
    }

    /// The single precision number, which must be neither negative nor NaN, in double
    /// precision.
    pub open spec fn wide(x: Binary32) -> Binary64 {
        if x.finite() {
            Binary64 { bits: round64(x.units() * pow2(925), 1) as u64 }
        } else {
            Binary64 { bits: INF64 }
        }
    }

    /// The number rounded to single precision.
    pub open spec fn single(self) -> Binary32 {
        if self.finite() {
            signed_mag(false, round32(self.units(), pow2(925)))
        } else {
            Binary32 { bits: INF_MAG }
        }
    }

    /// The number, or 1 where it is larger.
    pub open spec fn at_most_one(self) -> Binary64 {
        if self.bits > ONE64 {
            Binary64 { bits: ONE64 }
        } else {
            self
        }
    }

    /// Significand and exponent.
    pub(crate) fn parts(self) -> (r: (u64, u32))
        requires
            self.finite(),
        ensures
            r.0 < 0x20_0000_0000_0000,
            r.1 <= 2045,
            self.units() == r.0 * pow2(r.1 as nat),
            r.0 == 0 <==> self.bits == 0,
            r.1 > 0 ==> r.0 >= 0x10_0000_0000_0000,
    {
        let e: u64 = self.bits / 0x10_0000_0000_0000;
        let f: u64 = self.bits % 0x10_0000_0000_0000;
        proof {
            lemma_pow2_values();
        }
        if e == 0 {
            assert(f * pow2(0) == f) by (nonlinear_arith)
                requires
                    pow2(0) == 1,
            ;
            (f, 0)
        } else {
            (f + 0x10_0000_0000_0000, (e - 1) as u32)
        }
    }

    /// The number nearest to `n`.
    pub fn from_u64(n: u64) -> (r: Binary64)
        ensures
            r == double(n as nat),
            r.finite(),
            r.bits == 0 <==> n == 0,
    {
        proof {
            lemma_pow2_values();
            lemma_pow2_pos(1074);
            lemma_pow2_pos(1014);
        }
        if n == 0 {
            proof {
                assert(0 * pow2(1074) == 0) by (nonlinear_arith);
                lemma_round64_zero(1);
            }
            return Binary64 { bits: 0 };
        }
        let q: u128 = n as u128 * 0x1000_0000_0000_0000;
        let ghost big = n as nat * pow2(1074);
        proof {
            lemma_scale(n as nat, 1074, 0, 60, 1014);
            lemma_one_step(q as nat, 1, pow2(1014));
        }
        let (k, s) = round_scaled(53, q, false, 1014, Ghost(big), Ghost(1));
        proof {
            lemma_integer_shift(n as nat, s as nat);
            lemma_round_window64(big, 1);
        }
        Binary64 { bits: s as u64 * 0x10_0000_0000_0000 + k }
    }

    /// The rounded quotient of the two numbers.
    pub fn div(self, other: Binary64) -> (r: Binary64)
        requires
            other.finite(),
            other.bits > 0,
        ensures
            r == self.over(other),
    {
        if self.bits >= INF64 {
            return Binary64 { bits: INF64 };
        }
        let (ma, ea) = self.parts();
        let (mb, eb) = other.parts();
        let ghost n = (self.units() * pow2(1074)) as nat;
        let ghost d = other.units();
        proof {
            lemma_pow2_values();
            lemma_pow2_pos(eb as nat);
            assert(d > 0) by (nonlinear_arith)
                requires
                    d == mb * pow2(eb as nat),
                    mb > 0,
                    pow2(eb as nat) > 0,
            ;
        }
        if ma == 0 {
            proof {
                assert(n == 0) by (nonlinear_arith)
                    requires
                        self.units() == 0,
                        n == self.units() * pow2(1074),
                ;
                lemma_round64_zero(d);
            }
            return Binary64 { bits: 0 };
        }
        let b: u32 = bit_length(ma as u128);
        proof {
            if b > 53 {
                if b - 1 > 53 {
                    lemma_pow2_strictly_increases(53, (b - 1) as nat);
                }
                assert(false);
            }
        }
        let g: u32 = 125 - b;
        let step: u128 = power_of_two(g);
        proof {
            lemma_pow2_pos(g as nat);
            lemma_pow2_adds(b as nat, g as nat);
            lemma_pow2_adds((b - 1) as nat, g as nat);
            lemma_pow2_adds(124, 1);
            lemma_pow2_adds(124, 2);
            lemma_pow2_adds(71, 53);
            assert(pow2(124) <= ma * step < pow2(125)) by (nonlinear_arith)
                requires
                    pow2((b - 1) as nat) <= ma < pow2(b as nat),
                    pow2((b - 1) as nat) * step == pow2(124),
                    pow2(b as nat) * step == pow2(125),
                    step > 0,
            ;
            lemma_pow2_strictly_increases(125, 126);
        }
        let w: u128 = ma as u128 * step;
        let q: u128 = w / (mb as u128);
        let rest: u128 = w % (mb as u128);
        let x: i32 = ea as i32 - eb as i32 + 1074 - g as i32;
        proof {
            vstd::arithmetic::div_mod::lemma_fundamental_div_mod(w as int, mb as int);
            lemma_pow2_strictly_increases(53, 71);
            assert(pow2(53) <= q < pow2(126)) by (nonlinear_arith)
                requires
                    w == mb * q + rest,
                    0 <= rest < mb,
                    mb < pow2(53),
                    pow2(71) * pow2(53) == pow2(124),
                    pow2(124) <= w < pow2(126),
                    pow2(53) < pow2(71),
            ;
            let xp = above(x as int);
            let xn = above(-x);
            lemma_pow2_adds(ea as nat, 1074);
            lemma_pow2_adds((ea + 1074) as nat, xn);
            lemma_pow2_adds(eb as nat, xp);
            lemma_pow2_adds(g as nat, (eb + xp) as nat);
            assert(ea + 1074 + xn == g + eb + xp);
            let c = pow2((eb + xp) as nat);
            lemma_pow2_pos((eb + xp) as nat);
            assert(d * pow2(xp) == mb * c) by (nonlinear_arith)
                requires
                    d == mb * pow2(eb as nat),
                    pow2(eb as nat) * pow2(xp) == c,
            ;
            lemma_regroup(ma as nat, pow2(ea as nat), pow2(1074), pow2(xn), pow2(g as nat), c);
            assert(q * (mb * c) <= w * c && w * c < (q + 1) * (mb * c)) by (nonlinear_arith)
                requires
                    w == mb * q + rest,
                    0 <= rest < mb,
                    c > 0,
            ;
            assert((rest > 0) == (q * (mb * c) < w * c)) by (nonlinear_arith)
                requires
                    w == mb * q + rest,
                    0 <= rest < mb,
                    c > 0,
            ;
        }
        let (k, s) = round_scaled(53, q, rest > 0, x, Ghost(n), Ghost(d));
        let m: u128 = s as u128 * 0x10_0000_0000_0000 + k as u128;
        if m < INF64 as u128 {
            Binary64 { bits: m as u64 }
        } else {
            Binary64 { bits: INF64 }
        }
    }

    /// Rounds `m * 2^a / 2^b` units.
    fn rounded(m: u128, a: u32, b: u32) -> (r: Binary64)
        requires
            m < pow2(125),
            a <= 5000,
            b <= 1074,
            -3800 <= a - b <= 3800,
        ensures
            r.bits == round64(m as nat * pow2(a as nat), pow2(b as nat)),
    {
        let ghost n = (m * pow2(a as nat)) as nat;
        let ghost d = pow2(b as nat);
        proof {
            lemma_pow2_values();
            lemma_pow2_pos(b as nat);
            lemma_pow2_pos(a as nat);
        }
        if m == 0 {
            proof {
                assert(n == 0) by (nonlinear_arith)
                    requires
                        m == 0,
                        n == m * pow2(a as nat),
                ;
                lemma_round64_zero(d);
            }
            return Binary64 { bits: 0 };
        }
        let len: u32 = bit_length(m);
        proof {
            if len > 125 {
                if len - 1 > 125 {
                    lemma_pow2_strictly_increases(125, (len - 1) as nat);
                }
                assert(false);
            }
        }
        let g: u32 = 125 - len;
        let step: u128 = power_of_two(g);
        let x: i32 = a as i32 - b as i32 - g as i32;
        proof {
            lemma_pow2_pos(g as nat);
            lemma_pow2_adds(len as nat, g as nat);
            lemma_pow2_adds((len - 1) as nat, g as nat);
            lemma_pow2_strictly_increases(53, 124);
            lemma_pow2_strictly_increases(125, 126);
            assert(pow2(124) <= m * step < pow2(125)) by (nonlinear_arith)
                requires
                    pow2((len - 1) as nat) <= m < pow2(len as nat),
                    pow2((len - 1) as nat) * step == pow2(124),
                    pow2(len as nat) * step == pow2(125),
                    step > 0,
            ;
            lemma_pow2_strictly_increases(126, 128);
            lemma_scale(m as nat, a as nat, b as nat, g as nat, x as int);
            lemma_pow2_pos(above(x as int));
            lemma_one_step((m * step) as nat, d, pow2(above(x as int)));
        }
        let q: u128 = m * step;
        let (k, s) = round_scaled(53, q, false, x, Ghost(n), Ghost(d));
        let r: u128 = s as u128 * 0x10_0000_0000_0000 + k as u128;
        if r < INF64 as u128 {
            Binary64 { bits: r as u64 }
        } else {
            Binary64 { bits: INF64 }
        }
    }

    /// The rounded product of two finite numbers.
    pub fn mul(self, other: Binary64) -> (r: Binary64)
        requires
            self.finite(),
            other.finite(),
        ensures
            r == self.times(other),
    {
        let (ma, ea) = self.parts();
        let (mb, eb) = other.parts();
        proof {
            lemma_pow2_values();
            lemma_pow2_adds(53, 53);
            lemma_pow2_strictly_increases(106, 125);
            lemma_pow2_strictly_increases(125, 128);
            assert(ma * mb < pow2(106)) by (nonlinear_arith)
                requires
                    ma < pow2(53),
                    mb < pow2(53),
                    pow2(53) * pow2(53) == pow2(106),
            ;
            lemma_pow2_adds(ea as nat, eb as nat);
            assert((ma * pow2(ea as nat)) * (mb * pow2(eb as nat)) == (ma * mb) * pow2(
                (ea + eb) as nat,
            )) by (nonlinear_arith)
                requires
                    pow2(ea as nat) * pow2(eb as nat) == pow2((ea + eb) as nat),
            ;
        }
        Binary64::rounded(ma as u128 * mb as u128, ea + eb, 1074)
    }

    /// The rounded difference of two finite numbers, zero where it would be negative.
    pub fn sub(self, other: Binary64) -> (r: Binary64)
        requires
            self.finite(),
            other.finite(),
        ensures
            r == self.minus(other),
    {
        let (ma, ea) = self.parts();
        let (mb, eb) = other.parts();
        let ghost a = self.units();
        let ghost b = other.units();
        proof {
            lemma_pow2_values();
            lemma_pow2_pos(ea as nat);
            lemma_pow2_pos(eb as nat);
        }
        if ea < eb {
            proof {
                let d = (eb - ea) as nat;
                lemma_pow2_adds(ea as nat, d);
                if d > 1 {
                    lemma_pow2_strictly_increases(1, d);
                }
                assert(a <= b) by (nonlinear_arith)
                    requires
                        a == ma * pow2(ea as nat),
                        b == mb * pow2(eb as nat),
                        pow2(eb as nat) == pow2(ea as nat) * pow2(d),
                        pow2(d) >= 2,
                        ma < 2 * mb,
                        pow2(ea as nat) > 0,
                ;
            }
            return Binary64 { bits: 0 };
        }
        let gap: u32 = ea - eb;
        if gap > 60 {
            return far_difference(ma, ea, mb, eb);
        }
        let step: u128 = power_of_two(gap);
        proof {
            lemma_pow2_adds(eb as nat, gap as nat);
            lemma_pow2_adds(53, 60);
            lemma_pow2_strictly_increases(113, 125);
            lemma_pow2_strictly_increases(125, 128);
            lemma_pow2_pos(gap as nat);
            if gap < 60 {
                lemma_pow2_strictly_increases(gap as nat, 60);
            }
            assert(0 <= ma * step < pow2(113)) by (nonlinear_arith)
                requires
                    0 <= ma < pow2(53),
                    0 < step <= pow2(60),
                    pow2(53) * pow2(60) == pow2(113),
            ;
            assert(a == (ma * step) * pow2(eb as nat)) by (nonlinear_arith)
                requires
                    a == ma * pow2(ea as nat),
                    pow2(ea as nat) == pow2(eb as nat) * step,
            ;
        }
        let w: u128 = ma as u128 * step;
        if w <= mb as u128 {
            proof {
                assert(a <= b) by (nonlinear_arith)
                    requires
                        a == w * pow2(eb as nat),
                        b == mb * pow2(eb as nat),
                        w <= mb,
                        pow2(eb as nat) > 0,
                ;
            }
            return Binary64 { bits: 0 };
        }
        proof {
            assert(a > b && a - b == (w - mb) * pow2(eb as nat)) by (nonlinear_arith)
                requires
                    a == w * pow2(eb as nat),
                    b == mb * pow2(eb as nat),
                    w > mb,
                    pow2(eb as nat) > 0,
            ;
        }
        Binary64::rounded(w - mb as u128, eb, 0)
    }

    /// A single precision number that is neither negative nor NaN, in double precision.
    pub fn from_binary32(x: Binary32) -> (r: Binary64)
        requires
            !x.negative(),
            !x.nan_pattern(),
        ensures
            r == Binary64::wide(x),
            x.finite() ==> r.finite(),
    {
        if !x.is_finite() {
            return Binary64 { bits: INF64 };
        }
        let (m, e) = x.parts();
        proof {
            lemma_pow2_values();
            lemma_pow2_adds(e as nat, 925);
            lemma_pow2_strictly_increases(53, 125);
            assert((m * pow2(e as nat)) * pow2(925) == m * pow2((e + 925) as nat))
                by (nonlinear_arith)
                requires
                    pow2(e as nat) * pow2(925) == pow2((e + 925) as nat),
            ;
            lemma_wide_finite(m as nat, (e + 925) as nat);
        }
        Binary64::rounded(m as u128, e + 925, 0)
    }

    /// The number, or 1 where it is larger.
    pub fn min_one(self) -> (r: Binary64)
        ensures
            r == self.at_most_one(),
            r.finite(),
    {
        if self.bits > ONE64 {
            Binary64 { bits: ONE64 }
        } else {
            self
        }
    }

    /// The number rounded to single precision.
    pub fn to_binary32(self) -> (r: Binary32)
        ensures
            r == self.single(),
    {
        if self.bits >= INF64 {
            return Binary32 { bits: INF_MAG };
        }
        let (m, e) = self.parts();
        let ghost n = self.units();
        proof {
            lemma_pow2_values();
            lemma_pow2_pos(925);
            lemma_pow2_pos(e as nat);
        }
        if m == 0 {
            proof {
                lemma_round32_zero(pow2(925));
            }
            return with_sign(false, 0);
        }
        let q: u128 = m as u128 * 0x4000_0000;
        let x: i32 = e as i32 - 955;
        proof {
            lemma_scale(m as nat, e as nat, 925, 30, x as int);
            lemma_pow2_pos(above(x as int));
            lemma_one_step(q as nat, pow2(925), pow2(above(x as int)));
        }
        round_pack(false, q, false, x, Ghost(n), Ghost(pow2(925)))
    }
}

/// The difference of two numbers of which one is larger by many binary digits.
fn far_difference(ma: u64, ea: u32, mb: u64, eb: u32) -> (r: Binary64)
    requires
        0x10_0000_0000_0000 <= ma < 0x20_0000_0000_0000,
        mb < 0x20_0000_0000_0000,
        ea <= 2045,
        ea > eb + 60,
    ensures
        ma * pow2(ea as nat) > mb * pow2(eb as nat),
        r.bits == round64((ma * pow2(ea as nat) - mb * pow2(eb as nat)) as nat, 1),
{
    let x: u32 = ea - 60;
    let h: u32 = x - eb;
    let top: u128 = ma as u128 * 0x1000_0000_0000_0000;
    let mut c: u128 = 0;
    let mut rest: u128 = mb as u128;
    let ghost step = pow2(h as nat);
    let ghost unit = pow2(x as nat);
    let ghost small = pow2(eb as nat);
    proof {
        lemma_pow2_values();
        lemma_pow2_pos(h as nat);
        lemma_pow2_pos(eb as nat);
        lemma_pow2_adds(x as nat, 60);
        lemma_pow2_adds(eb as nat, h as nat);
        lemma_pow2_adds(53, 60);
        lemma_pow2_strictly_increases(113, 126);
        lemma_pow2_strictly_increases(53, 111);
        lemma_pow2_adds(51, 60);
        if h > 60 {
            lemma_pow2_strictly_increases(60, h as nat);
        }
    }
    if h <= 60 {
        let power: u128 = power_of_two(h);
        c = mb as u128 / power;
        rest = mb as u128 % power;
        proof {
            vstd::arithmetic::div_mod::lemma_fundamental_div_mod(mb as int, power as int);
            assert(power * c == c * power) by (nonlinear_arith);
            assert(c <= mb) by (nonlinear_arith)
                requires
                    mb == c * power + rest,
                    power >= 1,
                    rest >= 0,
                    c >= 0,
            ;
        }
    } else {
        assert(mb == 0 * step + mb) by (nonlinear_arith);
    }
    assert(mb == c * step + rest && 0 <= rest < step && c <= mb);
    let ghost n = ma * pow2(ea as nat) - mb * small;
    proof {
        assert(ma * pow2(ea as nat) == top * unit) by (nonlinear_arith)
            requires
                pow2(ea as nat) == unit * 0x1000_0000_0000_0000,
                top == ma * 0x1000_0000_0000_0000,
        ;
        assert(n == (top - c) * unit - rest * small) by (nonlinear_arith)
            requires
                n == top * unit - mb * small,
                mb == c * step + rest,
                unit == small * step,
        ;
        assert(rest * small < unit && rest * small >= 0 && (rest > 0 ==> rest * small > 0))
            by (nonlinear_arith)
            requires
                0 <= rest < step,
                unit == small * step,
                small > 0,
        ;
    }
    let q: u128 = if rest > 0 {
        top - c - 1
    } else {
        top - c
    };
    proof {
        assert((top - c) * unit - unit == (top - c - 1) * unit) by (nonlinear_arith);
        assert((top - c) * unit + unit == (top - c + 1) * unit) by (nonlinear_arith);
        if rest > 0 {
            assert(q * unit == (top - c - 1) * unit && (q + 1) * unit == (top - c) * unit);
        } else {
            assert(rest * small == 0) by (nonlinear_arith)
                requires
                    rest == 0,
            ;
            assert(q * unit == (top - c) * unit && (q + 1) * unit == (top - c + 1) * unit);
        }
        assert(q * unit <= n < (q + 1) * unit);
        assert(n > 0) by (nonlinear_arith)
            requires
                q * unit <= n,
                q > 0,
                unit > 0,
        ;
        assert(1 * unit == unit);
        assert(n * pow2(0) == n) by (nonlinear_arith)
            requires
                pow2(0) == 1,
        ;
    }
    let (k, s) = round_scaled(53, q, rest > 0, x as i32, Ghost(n as nat), Ghost(1));
    let r: u128 = s as u128 * 0x10_0000_0000_0000 + k as u128;
    if r < INF64 as u128 {
        Binary64 { bits: r as u64 }
    } else {
        Binary64 { bits: INF64 }
    }
}

pub(crate) proof fn lemma_round64_zero(d: nat)
    requires
        d > 0,
    ensures
        round64(0, d) == 0,
{
    lemma_pow2_values();
    assert(d * pow2(53) > 0) by (nonlinear_arith)
        requires
            d > 0,
            pow2(53) > 0,
    ;
    assert(d * pow2(0) == d) by (nonlinear_arith)
        requires
            pow2(0) == 1,
    ;
    vstd::arithmetic::div_mod::lemma_div_of0(d as int);
    vstd::arithmetic::div_mod::lemma_small_mod(0, d);
}

/// A 64-bit integer is far from the largest exponent.
proof fn lemma_integer_shift(n: nat, s: nat)
    requires
        0 < n < 0x1_0000_0000_0000_0000,
        s == ulp_shift(53, n * pow2(1074), 1),
    ensures
        0 < s <= 1085,
{
    let v = n * pow2(1074);
    crate::binary32_laws::lemma_ulp_shift_bounds(53, v, 1);
    lemma_pow2_values();
    lemma_pow2_pos(1074);
    lemma_pow2_adds(64, 1074);
    lemma_pow2_adds(53, s);
    assert(v < pow2(1138)) by (nonlinear_arith)
        requires
            v == n * pow2(1074),
            n < pow2(64),
            pow2(64) * pow2(1074) == pow2(1138),
            pow2(1074) > 0,
    ;
    assert(v >= pow2(1074)) by (nonlinear_arith)
        requires
            v == n * pow2(1074),
            n >= 1,
            pow2(1074) > 0,
    ;
    if s == 0 {
        lemma_pow2_strictly_increases(53, 1074);
    } else if s > 1085 {
        lemma_pow2_adds(53, (s - 1) as nat);
        if s - 1 + 53 > 1138 {
            lemma_pow2_strictly_increases(1138, (s - 1 + 53) as nat);
        }
    }
}

/// A single precision number is far from the largest exponent.
proof fn lemma_wide_finite(m: nat, a: nat)
    requires
        m < 0x100_0000,
        a <= 1178,
    ensures
        round64(m * pow2(a), 1) < INF64,
{
    let v = m * pow2(a);
    let s = ulp_shift(53, v, 1);
    crate::binary32_laws::lemma_ulp_shift_bounds(53, v, 1);
    lemma_pow2_values();
    lemma_pow2_pos(a);
    lemma_pow2_pos(s);
    lemma_pow2_adds(24, a);
    lemma_pow2_adds(53, s);
    if a < 1178 {
        lemma_pow2_strictly_increases(a + 24, 1202);
    }
    assert(v < pow2(a + 24)) by (nonlinear_arith)
        requires
            v == m * pow2(a),
            m < pow2(24),
            pow2(24) * pow2(a) == pow2(a + 24),
            pow2(a) > 0,
    ;
    if s > 1150 {
        lemma_pow2_adds(53, (s - 1) as nat);
        lemma_pow2_strictly_increases(1202, (s - 1 + 53) as nat);
    }
    let k = half_even(v, 1 * pow2(s));
    vstd::arithmetic::div_mod::lemma_fundamental_div_mod(v as int, pow2(s) as int);
    let q = v / pow2(s);
    assert(q < pow2(53)) by (nonlinear_arith)
        requires
            v == pow2(s) * q + v % pow2(s),
            v % pow2(s) >= 0,
            v < pow2(53) * pow2(s),
            pow2(s) > 0,
    ;
}

pub(crate) proof fn lemma_round_window64(n: nat, d: nat)
    requires
        d > 0,
        ulp_shift(53, n, d) > 0,
    ensures
        half_even(n, d * pow2(ulp_shift(53, n, d))) >= 0x10_0000_0000_0000,
{
    let s = ulp_shift(53, n, d);
    crate::binary32_laws::lemma_ulp_shift_bounds(53, n, d);
    lemma_pow2_pos(s);
    lemma_pow2_values();
    vstd::arithmetic::power2::lemma_pow2_unfold(s);
    let c = d * pow2(s);
    let g = pow2((s - 1) as nat);
    assert(c > 0) by (nonlinear_arith)
        requires
            c == d * pow2(s),
            d > 0,
            pow2(s) > 0,
    ;
    assert(d * (0x20_0000_0000_0000 * g) == 0x10_0000_0000_0000 * c) by (nonlinear_arith)
        requires
            c == d * (2 * g),
    ;
    vstd::arithmetic::div_mod::lemma_fundamental_div_mod(n as int, c as int);
    assert(n / c >= 0x10_0000_0000_0000) by (nonlinear_arith)
        requires
            n >= 0x10_0000_0000_0000 * c,
            n == c * (n / c) + n % c,
            n % c < c,
            c > 0,
    ;
}

/// An integer of at most 53 binary digits is a double precision number.
pub proof fn lemma_double_exact(n: nat)
    requires
        n < 0x20_0000_0000_0000,
    ensures
        double(n).finite(),
        double(n).units() == n * pow2(1074),
{
    let v = n * pow2(1074);
    lemma_pow2_values();
    lemma_pow2_pos(1074);
    if n == 0 {
        assert(v == 0) by (nonlinear_arith)
            requires
                v == n * pow2(1074),
                n == 0,
        ;
        lemma_round64_zero(1);
    } else {
        let s = ulp_shift(53, v, 1);
        lemma_integer_shift(n, s);
        crate::binary32_laws::lemma_ulp_shift_bounds(53, v, 1);
        lemma_pow2_adds(53, s);
        lemma_pow2_adds(53, (s - 1) as nat);
        lemma_pow2_adds(53, 1074);
        assert(v < pow2(1127)) by (nonlinear_arith)
            requires
                v == n * pow2(1074),
                n < pow2(53),
                pow2(53) * pow2(1074) == pow2(1127),
                pow2(1074) > 0,
        ;
        if s > 1074 {
            if s > 1075 {
                lemma_pow2_strictly_increases(1127, (53 + s - 1) as nat);
            }
            assert(false);
        }
        let t = (1074 - s) as nat;
        let k = n * pow2(t);
        let c = pow2(s);
        lemma_pow2_pos(s);
        lemma_pow2_adds(t, s);
        assert(v == k * c) by (nonlinear_arith)
            requires
                v == n * pow2(1074),
                k == n * pow2(t),
                pow2(1074) == pow2(t) * c,
        ;
        vstd::arithmetic::div_mod::lemma_fundamental_div_mod_converse(
            v as int,
            c as int,
            k as int,
            0,
        );
        assert(k < 0x20_0000_0000_0000) by (nonlinear_arith)
            requires
                k * c < 0x20_0000_0000_0000 * c,
                c > 0,
        ;
        vstd::arithmetic::power2::lemma_pow2_unfold(s);
        let h = pow2((s - 1) as nat);
        assert(0x10_0000_0000_0000 <= k) by (nonlinear_arith)
            requires
                0x20_0000_0000_0000 * h <= k * c,
                c == 2 * h,
                c > 0,
        ;
        let m = s * 0x10_0000_0000_0000 + k;
        assert(m / 0x10_0000_0000_0000 == s + 1 && m % 0x10_0000_0000_0000 == k
            - 0x10_0000_0000_0000);
    }
}

/// A part of a whole, neither of more than 53 binary digits, comes to at most 1.
pub proof fn lemma_double_ratio(i: nat, n: nat)
    requires
        i <= n < 0x20_0000_0000_0000,
        n > 0,
    ensures
        double(i).over(double(n)).bits <= ONE64,
{
    lemma_double_exact(i);
    lemma_double_exact(n);
    lemma_pow2_values();
    lemma_pow2_pos(1074);
    let d = n * pow2(1074);
    let v = (i * pow2(1074)) * pow2(1074);
    assert(d > 0 && v <= d * pow2(1074)) by (nonlinear_arith)
        requires
            d == n * pow2(1074),
            v == (i * pow2(1074)) * pow2(1074),
            i <= n,
            n > 0,
            pow2(1074) > 0,
    ;
    let s = ulp_shift(53, v, d);
    crate::binary32_laws::lemma_ulp_shift_bounds(53, v, d);
    lemma_pow2_pos(s);
    lemma_pow2_adds(53, s);
    if s > 1022 {
        lemma_pow2_adds(53, (s - 1) as nat);
        lemma_pow2_strictly_increases(1074, (53 + s - 1) as nat);
        assert(d * pow2(1074) < d * pow2((53 + s - 1) as nat)) by (nonlinear_arith)
            requires
                d > 0,
                pow2(1074) < pow2((53 + s - 1) as nat),
        ;
        assert(false);
    }
    let c = d * pow2(s);
    assert(c > 0 && d * pow2((53 + s) as nat) == 0x20_0000_0000_0000 * c) by (nonlinear_arith)
        requires
            c == d * pow2(s),
            d > 0,
            pow2(s) > 0,
            pow2((53 + s) as nat) == 0x20_0000_0000_0000 * pow2(s),
    ;
    lemma_half_even_at_most(v, c, 0x20_0000_0000_0000);
    if s == 1022 {
        lemma_pow2_adds(52, 1022);
        assert(d * pow2(1074) == 0x10_0000_0000_0000 * c) by (nonlinear_arith)
            requires
                c == d * pow2(1022),
                pow2(1074) == 0x10_0000_0000_0000 * pow2(1022),
        ;
        lemma_half_even_at_most(v, c, 0x10_0000_0000_0000);
    }
}

proof fn lemma_half_even_at_most(n: nat, c: nat, k: nat)
    requires
        c > 0,
        n <= k * c,
    ensures
        half_even(n, c) <= k,
{
    vstd::arithmetic::div_mod::lemma_fundamental_div_mod(n as int, c as int);
    let (q, r) = (n / c, n % c);
    assert(q <= k && (r > 0 ==> q < k)) by (nonlinear_arith)
        requires
            n == c * q + r,
            0 <= r < c,
            n <= k * c,
    ;
}

/// A number of at most 1 stays at most 1 in single precision.
pub proof fn lemma_single_unit(x: Binary64)
    requires
        x.bits <= ONE64,
    ensures
        x.single().finite(),
        !x.single().negative(),
        x.single().at_most(Binary32 { bits: crate::binary32::ONE }),
{
    let e = x.bits / 0x10_0000_0000_0000;
    let f = x.bits % 0x10_0000_0000_0000;
    lemma_pow2_values();
    lemma_pow2_adds(52, 1022);
    lemma_pow2_adds(149, 925);
    lemma_pow2_adds(23, 126);
    lemma_pow2_pos(925);
    let u = x.units();
    assert(u <= pow2(1074)) by {
        if e == 1023 {
            assert(f == 0);
        } else if e > 0 {
            let p = pow2((e - 1) as nat);
            lemma_pow2_adds(53, (e - 1) as nat);
            lemma_pow2_pos((e - 1) as nat);
            lemma_pow2_strictly_increases((53 + e - 1) as nat, 1075);
            if e < 1022 {
                lemma_pow2_strictly_increases((53 + e - 1) as nat, 1074);
            }
            assert((f + 0x10_0000_0000_0000) * p <= 0x20_0000_0000_0000 * p) by (nonlinear_arith)
                requires
                    f < 0x10_0000_0000_0000,
                    p > 0,
            ;
        } else {
            lemma_pow2_strictly_increases(52, 1074);
        }
    }
    let one = crate::binary32::ONE as nat;
    assert(crate::binary32::mag_units(one) == pow2(149));
    assert(0 * pow2(925) == 0) by (nonlinear_arith);
    assert(crate::binary32::mag_units(0) == 0);
    crate::binary32_laws::lemma_round32_between(u, pow2(925), 0, one);
}

} // verus!
