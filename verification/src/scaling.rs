//! Scaling the sides of a picture.

use crate::binary32::{mag_units, round32, Binary32, INF_MAG, ONE};
use crate::binary32_laws::{
    lemma_mag_units_increases, lemma_one_units, lemma_rank_orders_values, lemma_round32_between,
    lemma_round32_monotone, lemma_ulp_shift_bounds, lemma_units_order,
};
use crate::integers::{lemma_of_int_exact, of_int};
use crate::rounding::{half_even, lemma_pow2_values, ulp_shift};
use vstd::arithmetic::div_mod::lemma_fundamental_div_mod;
use vstd::arithmetic::power2::{lemma_pow2_adds, lemma_pow2_pos, lemma_pow2_unfold, pow2};
use vstd::prelude::*;

verus! {

/// Rounding to `p` binary digits changes a number that fills them by less than one part in
/// `2^p`.
pub(crate) proof fn lemma_rounding_close(p: nat, n: nat, d: nat)
    requires
        p >= 1,
        d > 0,
        n >= pow2((p - 1) as nat) * d,
    ensures
        ({
            let h = pow2((p - 1) as nat);
            let c = d * pow2(ulp_shift(p, n, d));
            let k = half_even(n, c);
            &&& h <= k <= 2 * h
            &&& (k * c) * (2 * h) <= n * (2 * h + 1)
            &&& (k * c) * (2 * h) >= n * (2 * h - 1)
        }),
{
    let h = pow2((p - 1) as nat);
    let s = ulp_shift(p, n, d);
    let w = pow2(s);
    let c = d * w;
    let k = half_even(n, c);
    lemma_pow2_pos(s);
    lemma_pow2_pos((p - 1) as nat);
    lemma_pow2_unfold(p);
    lemma_pow2_values();
    lemma_ulp_shift_bounds(p, n, d);
    assert(c > 0) by (nonlinear_arith)
        requires
            c == d * w,
            d > 0,
            w > 0,
    ;
    lemma_fundamental_div_mod(n as int, c as int);
    assert(n >= h * c) by {
        if s > 0 {
            lemma_pow2_unfold(s);
            let g = pow2((s - 1) as nat);
            assert(d * ((2 * h) * g) == h * c) by (nonlinear_arith)
                requires
                    c == d * (2 * g),
            ;
        } else {
            assert(d * 1 == d) by (nonlinear_arith);
        }
    }
    assert(d * ((2 * h) * w) == (2 * h) * c) by (nonlinear_arith)
        requires
            c == d * w,
    ;
    let (q, r) = (n / c, n % c);
    assert(c * q == q * c) by (nonlinear_arith);
    assert(h <= q < 2 * h) by (nonlinear_arith)
        requires
            h * c <= n < (2 * h) * c,
            n == q * c + r,
            0 <= r < c,
    ;
    assert(2 * (k * c) <= 2 * n + c && 2 * (k * c) >= 2 * n - c) by (nonlinear_arith)
        requires
            n == q * c + r,
            (k == q && 2 * r <= c) || (k == q + 1 && 2 * r >= c),
            0 <= r < c,
    ;
    let kc = k * c;
    assert((2 * kc) * h <= (2 * n + c) * h && (2 * kc) * h >= (2 * n - c) * h) by (nonlinear_arith)
        requires
            2 * n - c <= 2 * kc <= 2 * n + c,
            h > 0,
    ;
    assert((2 * kc) * h == kc * (2 * h)) by (nonlinear_arith);
    assert((2 * n + c) * h == n * (2 * h) + h * c && (2 * n - c) * h == n * (2 * h) - h * c)
        by (nonlinear_arith);
    assert(n * (2 * h + 1) == n * (2 * h) + n && n * (2 * h - 1) == n * (2 * h) - n)
        by (nonlinear_arith);
}

/// Rounding to single precision changes a number that is not subnormal by less than one
/// part in `2^24`.
pub proof fn lemma_round32_close(n: nat, d: nat)
    requires
        d > 0,
        n >= 0x80_0000 * d,
        round32(n, d) < INF_MAG,
    ensures
        (mag_units(round32(n, d)) * d) * 0x100_0000 <= n * 0x100_0001,
        (mag_units(round32(n, d)) * d) * 0x100_0000 >= n * 0xff_ffff,
{
    let s = ulp_shift(24, n, d);
    let w = pow2(s);
    let c = d * w;
    let k = half_even(n, c);
    lemma_pow2_values();
    lemma_rounding_close(24, n, d);
    // the pattern stands for k * 2^s units
    let m = s * 0x80_0000 + k;
    assert(mag_units(m) == k * w) by {
        if k < 0x100_0000 {
            assert(m / 0x80_0000 == s + 1 && m % 0x80_0000 == k - 0x80_0000);
        } else {
            assert(m / 0x80_0000 == s + 2 && m % 0x80_0000 == 0);
            lemma_pow2_unfold(s + 1);
            assert(0x80_0000 * (2 * w) == 0x100_0000 * w) by (nonlinear_arith);
        }
    }
    assert((k * w) * d == k * c) by (nonlinear_arith)
        requires
            c == d * w,
    ;
}

/// What [`scale_side`] returns: the side times the scale, rounded.
pub open spec fn scaled_side(side: u32, scale: Binary32) -> nat {
    of_int(false, side as nat).times(scale).rounded().as_unsigned(0xffff_ffff)
}

/// The side times the scale, rounded.
pub fn scale_side(side: u32, scale: Binary32) -> (r: u32)
    ensures
        r == scaled_side(side, scale),
{
    Binary32::from_u64(side as u64).mul(scale).round().to_u32()
}

/// A positive `u32` as a number lies from 1 to `2^32`, and no smaller than that of a
/// smaller one.
proof fn lemma_side_number(small: u32, side: u32)
    requires
        0 < small <= side,
    ensures
        of_int(false, side as nat).finite(),
        !of_int(false, side as nat).negative(),
        pow2(149) <= of_int(false, small as nat).units() <= of_int(false, side as nat).units()
            <= 0x1_0000_0000 * pow2(149),
        of_int(false, side as nat).mag() > 0,
{
    let k = pow2(149);
    lemma_pow2_pos(149);
    lemma_pow2_values();
    vstd::arithmetic::power2::lemma2_to64();
    lemma_pow2_adds(23, 158);
    lemma_pow2_adds(32, 149);
    lemma_one_units();
    assert(0x4f80_0000nat / 0x80_0000 == 159);
    assert(mag_units(0x4f80_0000) == pow2(181));
    assert(k <= small * k <= side * k <= 0x1_0000_0000 * k) by (nonlinear_arith)
        requires
            1 <= small <= side <= 0x1_0000_0000,
            k > 0,
    ;
    lemma_round32_between(small as nat * k, 1, ONE as nat, 0x4f80_0000);
    lemma_round32_between(side as nat * k, 1, ONE as nat, 0x4f80_0000);
    lemma_round32_monotone(small as nat * k, 1, side as nat * k, 1);
    let (a, b) = (of_int(false, small as nat), of_int(false, side as nat));
    lemma_units_order(ONE as nat, a.mag());
    lemma_units_order(a.mag(), b.mag());
    lemma_units_order(b.mag(), 0x4f80_0000);
}

/// The scale from `longest` to `target` is off by less than one part in `2^24` of the
/// quotient of both as numbers.
pub proof fn lemma_scale_close(longest: u32, target: u32)
    requires
        0 < longest,
        0 < target <= 0x10_0000,
    ensures
        ({
            let l = of_int(false, longest as nat);
            let q = of_int(false, target as nat).over(l);
            &&& q.finite()
            &&& !q.negative()
            &&& (q.units() * l.units()) * 0x100_0000 <= ((target * pow2(149)) * pow2(149))
                * 0x100_0001
            &&& (q.units() * l.units()) * 0x100_0000 >= ((target * pow2(149)) * pow2(149))
                * 0xff_ffff
        }),
{
    reveal(Binary32::over);
    let c = pow2(149);
    let t = of_int(false, target as nat);
    let l = of_int(false, longest as nat);
    lemma_pow2_values();
    lemma_pow2_pos(149);
    lemma_of_int_exact(false, target as nat);
    lemma_side_number(longest, longest);
    let n = t.units() * c;
    let d = l.units();
    lemma_pow2_adds(64, 85);
    lemma_pow2_pos(85);
    let g = pow2(85);
    assert(n >= 0x80_0000 * d) by (nonlinear_arith)
        requires
            n == (target * c) * c,
            target >= 1,
            d <= 0x1_0000_0000 * c,
            c == 0x1_0000_0000_0000_0000 * g,
            g >= 1,
    ;
    let top = of_int(false, 0x10_0000);
    lemma_of_int_exact(false, 0x10_0000);
    assert(0 * d <= n <= top.units() * d) by (nonlinear_arith)
        requires
            n == (target * c) * c,
            d >= c,
            0 <= target <= 0x10_0000,
            top.units() == 0x10_0000 * c,
            c > 0,
    ;
    assert(mag_units(0) == 0);
    lemma_round32_between(n, d, 0, top.mag());
    lemma_round32_close(n, d);
}

/// The same where `longest` needs no rounding.
pub(crate) proof fn lemma_scale_close_exact(longest: u32, target: u32)
    requires
        0 < longest < 0x100_0000,
        0 < target <= 0x10_0000,
    ensures
        ({
            let q = of_int(false, target as nat).over(of_int(false, longest as nat));
            &&& q.finite()
            &&& !q.negative()
            &&& (q.units() * longest) * 0x100_0000 <= (target * pow2(149)) * 0x100_0001
            &&& (q.units() * longest) * 0x100_0000 >= (target * pow2(149)) * 0xff_ffff
        }),
{
    let c = pow2(149);
    let u = of_int(false, target as nat).over(of_int(false, longest as nat)).units();
    lemma_pow2_pos(149);
    lemma_of_int_exact(false, longest as nat);
    lemma_scale_close(longest, target);
    let (a, b) = (u * longest, target * c);
    assert(u * (longest * c) == a * c) by (nonlinear_arith)
        requires
            a == u * longest,
    ;
    assert(a * 0x100_0000 <= b * 0x100_0001) by (nonlinear_arith)
        requires
            (a * c) * 0x100_0000 <= (b * c) * 0x100_0001,
            c > 0,
    ;
    assert(a * 0x100_0000 >= b * 0xff_ffff) by (nonlinear_arith)
        requires
            (a * c) * 0x100_0000 >= (b * c) * 0xff_ffff,
            c > 0,
    ;
}

/// A side that is no longer than `longest`, scaled so that `longest` becomes `target`
/// or less, does not become longer than `target`.
pub proof fn lemma_scaled_side_fits(side: u32, longest: u32, target: u32, scale: Binary32)
    requires
        0 < side <= longest,
        0 < target <= 0x10_0000,
        !scale.negative(),
        scale.at_most(of_int(false, target as nat).over(of_int(false, longest as nat))),
    ensures
        scaled_side(side, scale) <= target,
{
    reveal(Binary32::times);
    let c = pow2(149);
    let e = pow2(147);
    let a = of_int(false, side as nat);
    let l = of_int(false, longest as nat);
    let q = of_int(false, target as nat).over(l);
    lemma_scale_close(longest, target);
    lemma_side_number(side, longest);
    lemma_side_number(side, side);
    lemma_pow2_pos(149);
    lemma_pow2_pos(147);
    lemma_rank_orders_values(scale, q);
    lemma_pow2_adds(2, 147);
    assert(pow2(2) == 4) by {
        vstd::arithmetic::power2::lemma2_to64();
    }
    let z = q.units() * l.units();
    let p = a.units() * scale.units();
    assert(p <= z) by (nonlinear_arith)
        requires
            p == a.units() * scale.units(),
            z == q.units() * l.units(),
            0 <= a.units() <= l.units(),
            0 <= scale.units() <= q.units(),
    ;
    let w = c * c;
    assert((target * c) * c == target * w) by (nonlinear_arith)
        requires
            w == c * c,
    ;
    assert(w >= 0) by (nonlinear_arith)
        requires
            w == c * c,
    ;
    assert(16 * z <= (16 * target + 1) * w) by (nonlinear_arith)
        requires
            z * 0x100_0000 <= (target * w) * 0x100_0001,
            target <= 0x10_0000,
            w >= 0,
    ;
    assert(z <= ((4 * target + 1) * e) * c) by (nonlinear_arith)
        requires
            16 * z <= (16 * target + 1) * w,
            w == c * c,
            c == 4 * e,
            e > 0,
            target >= 0,
    ;
    lemma_quarter(target as nat);
    let cap = quarter_mag(target as nat);
    assert(0 * c <= p) by (nonlinear_arith)
        requires
            p >= 0,
    ;
    assert(mag_units(0) == 0);
    lemma_round32_between(p, c, 0, cap);
    let x = a.times(scale);
    assert(x.mag() == round32(p, c));
    lemma_units_order(x.mag(), cap);
    lemma_near_quarter(x, target as nat);
}

/// The pattern of `n + 1/4`.
spec fn quarter_mag(n: nat) -> nat {
    round32((4 * n + 1) * pow2(147), 1)
}

/// `n + 1/4` is a single precision number for every `n` of some twenty digits.
proof fn lemma_quarter(n: nat)
    requires
        0 < n <= 0x10_0000,
    ensures
        quarter_mag(n) < INF_MAG,
        mag_units(quarter_mag(n)) == (4 * n + 1) * pow2(147),
        quarter_mag(n) / 0x80_0000 < 150,
{
    lemma_pow2_pos(147);
    crate::integers::lemma_scaled_exact((4 * n + 1) as nat, 147);
}

proof fn lemma_near_quarter(x: Binary32, n: nat)
    requires
        !x.negative(),
        x.mag() <= quarter_mag(n),
        x.units() <= (4 * n + 1) * pow2(147),
        0 < n <= 0x10_0000,
    ensures
        x.rounded().as_unsigned(0xffff_ffff) <= n,
{
    let c = pow2(149);
    let e = pow2(147);
    lemma_quarter(n);
    lemma_pow2_pos(149);
    lemma_pow2_pos(147);
    lemma_pow2_adds(2, 147);
    assert(pow2(2) == 4) by {
        vstd::arithmetic::power2::lemma2_to64();
    }
    assert(!x.coarse());
    let u = x.units();
    let w = x.whole();
    let r = x.rest();
    lemma_fundamental_div_mod(u as int, c as int);
    assert(w <= n && (w == n ==> 2 * r < c)) by (nonlinear_arith)
        requires
            u == c * w + r,
            0 <= r,
            u <= (4 * n + 1) * e,
            c == 4 * e,
            e > 0,
    ;
    lemma_of_int_exact(false, x.whole_near());
}

/// The pattern of `n - 1/4`.
spec fn below_mag(n: nat) -> nat {
    round32((4 * n - 1) as nat * pow2(147), 1)
}

/// A fraction of a small integer, times that integer, rounds to the numerator.
pub proof fn lemma_fraction_round_trip(part: u32, whole: u32)
    requires
        part <= 0x1_0000,
        0 < whole < 0x1_0000,
    ensures
        ({
            let w = of_int(false, whole as nat);
            let x = of_int(false, part as nat).over(w).times(w);
            x.rounded() == of_int(false, part as nat) && !x.nan_pattern()
        }),
{
    let a = of_int(false, part as nat);
    let w = of_int(false, whole as nat);
    let q = a.over(w);
    let x = q.times(w);
    let c = pow2(149);
    let e = pow2(147);
    lemma_pow2_values();
    lemma_pow2_pos(149);
    lemma_pow2_pos(147);
    lemma_pow2_adds(2, 147);
    assert(pow2(2) == 4) by {
        vstd::arithmetic::power2::lemma2_to64();
    }
    lemma_of_int_exact(false, part as nat);
    lemma_of_int_exact(false, whole as nat);
    assert(mag_units(0) == 0);
    assert(w.units() > 0) by (nonlinear_arith)
        requires
            w.units() == whole * c,
            whole > 0,
            c > 0,
    ;
    reveal(Binary32::times);
    if part == 0 {
        reveal(Binary32::over);
        assert(a.units() == 0);
        assert(0 * c == 0);
        crate::binary32::lemma_round32_zero(w.units());
        assert(0 * w.units() == 0);
        crate::binary32::lemma_round32_zero(c);
        vstd::arithmetic::div_mod::lemma_div_of0(c as int);
        vstd::arithmetic::div_mod::lemma_small_mod(0, c);
        return;
    }
    lemma_scale_close_exact(whole, part);
    let u = q.units();
    let z = u * whole;
    assert((4 * part - 1) * e <= z <= (4 * part + 1) * e) by (nonlinear_arith)
        requires
            z * 0x100_0000 <= (part * c) * 0x100_0001,
            z * 0x100_0000 >= (part * c) * 0xff_ffff,
            0 < part <= 0x1_0000,
            c == 4 * e,
            e > 0,
    ;
    lemma_quarter(part as nat);
    crate::integers::lemma_scaled_exact((4 * part - 1) as nat, 147);
    let low = below_mag(part as nat);
    let high = quarter_mag(part as nat);
    let p = u * w.units();
    assert(p == z * c) by (nonlinear_arith)
        requires
            p == u * w.units(),
            w.units() == whole * c,
            z == u * whole,
    ;
    assert(mag_units(low) * c <= p <= mag_units(high) * c) by (nonlinear_arith)
        requires
            p == z * c,
            mag_units(low) <= z <= mag_units(high),
            c > 0,
    ;
    lemma_round32_between(p, c, low, high);
    assert(x.mag() == round32(p, c));
    if low < x.mag() {
        lemma_mag_units_increases(low, x.mag());
    }
    if x.mag() < high {
        lemma_mag_units_increases(x.mag(), high);
    }
    let v = x.units();
    lemma_fundamental_div_mod(v as int, c as int);
    let k = x.whole();
    let r = x.rest();
    assert((k == part && 2 * r < c) || (k == part - 1 && 2 * r >= c)) by (nonlinear_arith)
        requires
            v == c * k + r,
            0 <= r < c,
            (4 * part - 1) * e <= v <= (4 * part + 1) * e,
            c == 4 * e,
            e > 0,
    ;
    assert(x.whole_near() == part);
}

} // verus!
