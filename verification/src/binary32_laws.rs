//! What single precision arithmetic keeps: exact results stay exact, rounding
//! keeps order, and 0 and 1 are neutral.

use crate::binary32::{lemma_round32_zero, mag_units, round32, Binary32, INF_MAG, ONE};
use crate::rounding::{
    above, half_even, lemma_half_even_scale, lemma_pow2_values, lemma_ulp_shift_is, ulp_shift,
};
use vstd::arithmetic::div_mod::{lemma_fundamental_div_mod, lemma_fundamental_div_mod_converse};
use vstd::arithmetic::power2::{
    lemma_pow2_adds, lemma_pow2_pos, lemma_pow2_strictly_increases, lemma_pow2_unfold, pow2,
};
use vstd::prelude::*;

verus! {

/// A larger magnitude pattern stands for more units.
pub proof fn lemma_mag_units_increases(a: nat, b: nat)
    requires
        a < b,
    ensures
        mag_units(a) < mag_units(b),
{
    let (ea, fa) = (a / 0x80_0000, a % 0x80_0000);
    let (eb, fb) = (b / 0x80_0000, b % 0x80_0000);
    lemma_pow2_values();
    if ea == eb {
        if ea > 0 {
            let c = pow2((ea - 1) as nat);
            lemma_pow2_pos((ea - 1) as nat);
            assert((fa + 0x80_0000) * c < (fb + 0x80_0000) * c) by (nonlinear_arith)
                requires
                    fa < fb,
                    c > 0,
            ;
        }
    } else {
        let cb = pow2((eb - 1) as nat);
        lemma_pow2_pos((eb - 1) as nat);
        assert((fb + 0x80_0000) * cb >= 0x80_0000 * cb) by (nonlinear_arith)
            requires
                fb >= 0,
                cb > 0,
        ;
        if ea == 0 {
            assert(0x80_0000 * cb >= 0x80_0000) by (nonlinear_arith)
                requires
                    cb >= 1,
            ;
        } else {
            let ca = pow2((ea - 1) as nat);
            lemma_pow2_pos((ea - 1) as nat);
            lemma_pow2_unfold(ea);
            if ea < eb - 1 {
                lemma_pow2_strictly_increases(ea, (eb - 1) as nat);
            }
            assert((fa + 0x80_0000) * ca < 0x80_0000 * (2 * ca)) by (nonlinear_arith)
                requires
                    fa < 0x80_0000,
                    ca > 0,
            ;
            assert(0x80_0000 * (2 * ca) <= 0x80_0000 * cb);
        }
    }
}

/// `rank` orders finite numbers as their values do.
pub proof fn lemma_rank_orders_values(a: Binary32, b: Binary32)
    ensures
        a.rank() < b.rank() <==> a.value() < b.value(),
        a.rank() == b.rank() <==> a.value() == b.value(),
{
    assert(mag_units(0) == 0);
    if a.mag() < b.mag() {
        lemma_mag_units_increases(a.mag(), b.mag());
    } else if b.mag() < a.mag() {
        lemma_mag_units_increases(b.mag(), a.mag());
    }
    if a.mag() > 0 {
        lemma_mag_units_increases(0, a.mag());
    }
    if b.mag() > 0 {
        lemma_mag_units_increases(0, b.mag());
    }
}

/// Rounding a number that needs no rounding gives that number.
pub proof fn lemma_round32_exact(mag: nat)
    requires
        mag < INF_MAG,
    ensures
        round32(mag_units(mag), 1) == mag,
{
    let e = mag / 0x80_0000;
    let f = mag % 0x80_0000;
    let n = mag_units(mag);
    lemma_pow2_values();
    let (m, s): (nat, nat) = if e == 0 {
        (f, 0)
    } else {
        (f + 0x80_0000, (e - 1) as nat)
    };
    let c = pow2(s);
    lemma_pow2_pos(s);
    assert(f * 1 == f) by (nonlinear_arith);
    assert(n == m * c);
    assert(n < 1 * (pow2(24) * c)) by (nonlinear_arith)
        requires
            n == m * c,
            m < 0x100_0000,
            pow2(24) == 0x100_0000,
            c > 0,
    ;
    if s > 0 {
        lemma_pow2_unfold(s);
        let g = pow2((s - 1) as nat);
        assert(1 * (pow2(24) * g) <= n) by (nonlinear_arith)
            requires
                n == m * c,
                m >= 0x80_0000,
                pow2(24) == 0x100_0000,
                c == 2 * g,
                g >= 0,
        ;
    }
    lemma_ulp_shift_is(24, n, 1, s);
    assert(1 * c == c) by (nonlinear_arith);
    assert(n == m * c + 0);
    lemma_fundamental_div_mod_converse(n as int, c as int, m as int, 0);
    assert(s * 0x80_0000 + m == mag);
}

proof fn lemma_half_even_monotone_same(a: nat, b: nat, d: nat)
    requires
        d > 0,
        a <= b,
    ensures
        half_even(a, d) <= half_even(b, d),
{
    lemma_fundamental_div_mod(a as int, d as int);
    lemma_fundamental_div_mod(b as int, d as int);
    vstd::arithmetic::div_mod::lemma_div_is_ordered(a as int, b as int, d as int);
}

/// Rounding to an integer keeps order.
pub proof fn lemma_half_even_monotone(a: nat, c: nat, b: nat, d: nat)
    requires
        c > 0,
        d > 0,
        a * d <= b * c,
    ensures
        half_even(a, c) <= half_even(b, d),
{
    lemma_half_even_scale(a, c, d);
    lemma_half_even_scale(b, d, c);
    assert(c * d == d * c) by (nonlinear_arith);
    assert(c * d > 0) by (nonlinear_arith)
        requires
            c > 0,
            d > 0,
    ;
    lemma_half_even_monotone_same(a * d, b * c, c * d);
}

/// The two powers between which `ulp_shift` puts `n / d`.
pub proof fn lemma_ulp_shift_bounds(p: nat, n: nat, d: nat)
    requires
        d > 0,
    ensures
        n < d * (pow2(p) * pow2(ulp_shift(p, n, d))),
        ulp_shift(p, n, d) > 0 ==> d * (pow2(p) * pow2((ulp_shift(p, n, d) - 1) as nat)) <= n,
    decreases (if d <= n { n - d + 1 } else { 0 }),
{
    lemma_pow2_pos(p);
    lemma_pow2_values();
    let s = ulp_shift(p, n, d);
    assert(d * (pow2(p) * 1) == d * pow2(p)) by (nonlinear_arith);
    if n < d * pow2(p) {
    } else {
        assert(d * pow2(p) >= d) by (nonlinear_arith)
            requires
                pow2(p) >= 1,
                d >= 0,
        ;
        lemma_ulp_shift_bounds(p, n, 2 * d);
        lemma_pow2_unfold(s);
        let h = pow2((s - 1) as nat);
        assert(d * (pow2(p) * (2 * h)) == (2 * d) * (pow2(p) * h)) by (nonlinear_arith);
        if s > 1 {
            lemma_pow2_unfold((s - 1) as nat);
            let g = pow2((s - 2) as nat);
            assert(d * (pow2(p) * (2 * g)) == (2 * d) * (pow2(p) * g)) by (nonlinear_arith);
        }
    }
}

/// The unbounded pattern before overflow is cut off, between two binades.
proof fn lemma_round_window(n: nat, d: nat)
    requires
        d > 0,
    ensures
        half_even(n, d * pow2(ulp_shift(24, n, d))) <= 0x100_0000,
        ulp_shift(24, n, d) > 0 ==> half_even(n, d * pow2(ulp_shift(24, n, d))) >= 0x80_0000,
{
    let s = ulp_shift(24, n, d);
    lemma_ulp_shift_bounds(24, n, d);
    lemma_pow2_pos(s);
    lemma_pow2_values();
    let c = d * pow2(s);
    assert(c > 0) by (nonlinear_arith)
        requires
            c == d * pow2(s),
            d > 0,
            pow2(s) > 0,
    ;
    assert(d * (0x100_0000 * pow2(s)) == 0x100_0000 * c) by (nonlinear_arith)
        requires
            c == d * pow2(s),
    ;
    lemma_fundamental_div_mod(n as int, c as int);
    assert(n / c < 0x100_0000) by (nonlinear_arith)
        requires
            n < 0x100_0000 * c,
            n == c * (n / c) + n % c,
            n % c >= 0,
            c > 0,
    ;
    if s > 0 {
        lemma_pow2_unfold(s);
        let g = pow2((s - 1) as nat);
        assert(d * (0x100_0000 * g) == 0x80_0000 * c) by (nonlinear_arith)
            requires
                c == d * (2 * g),
        ;
        assert(n / c >= 0x80_0000) by (nonlinear_arith)
            requires
                n >= 0x80_0000 * c,
                n == c * (n / c) + n % c,
                n % c < c,
                c > 0,
        ;
    }
}

/// Rounding to single precision keeps order.
pub proof fn lemma_round32_monotone(a: nat, c: nat, b: nat, d: nat)
    requires
        c > 0,
        d > 0,
        a * d <= b * c,
    ensures
        round32(a, c) <= round32(b, d),
{
    let sa = ulp_shift(24, a, c);
    let sb = ulp_shift(24, b, d);
    lemma_round_window(a, c);
    lemma_round_window(b, d);
    lemma_pow2_pos(sa);
    lemma_pow2_pos(sb);
    if sa == sb {
        let w = pow2(sa);
        assert(c * w > 0 && d * w > 0) by (nonlinear_arith)
            requires
                c > 0,
                d > 0,
                w > 0,
        ;
        assert(a * (d * w) <= b * (c * w)) by (nonlinear_arith)
            requires
                a * d <= b * c,
                w > 0,
        ;
        lemma_half_even_monotone(a, c * w, b, d * w);
    } else if sa > sb {
        lemma_ulp_shift_bounds(24, a, c);
        lemma_ulp_shift_bounds(24, b, d);
        let pa = pow2(24) * pow2((sa - 1) as nat);
        let pb = pow2(24) * pow2(sb);
        if sb < sa - 1 {
            lemma_pow2_strictly_increases(sb, (sa - 1) as nat);
        }
        lemma_pow2_values();
        assert(pb <= pa) by (nonlinear_arith)
            requires
                pa == 0x100_0000 * pow2((sa - 1) as nat),
                pb == 0x100_0000 * pow2(sb),
                pow2(sb) <= pow2((sa - 1) as nat),
        ;
        // a / c is at least the power that b / d stays below
        assert(false) by {
            assert((c * pa) * d <= a * d) by (nonlinear_arith)
                requires
                    c * pa <= a,
                    d > 0,
            ;
            assert(b * c < (d * pb) * c) by (nonlinear_arith)
                requires
                    b < d * pb,
                    c > 0,
            ;
            assert((d * pb) * c <= (c * pa) * d) by (nonlinear_arith)
                requires
                    pb <= pa,
                    c > 0,
                    d > 0,
            ;
        }
    }
}

/// A rounded number lies between any two representable ones that enclose it.
pub proof fn lemma_round32_between(n: nat, d: nat, low: nat, high: nat)
    requires
        d > 0,
        low < INF_MAG,
        high < INF_MAG,
        mag_units(low) * d <= n <= mag_units(high) * d,
    ensures
        low <= round32(n, d) <= high,
{
    lemma_round32_exact(low);
    lemma_round32_exact(high);
    assert(n * 1 == n) by (nonlinear_arith);
    lemma_round32_monotone(mag_units(low), 1, n, d);
    lemma_round32_monotone(n, d, mag_units(high), 1);
}

/// Adding a zero changes no number but `-0`, which a positive zero turns positive.
pub proof fn lemma_plus_zero(a: Binary32, zero: Binary32)
    requires
        a.finite(),
        zero.mag() == 0,
    ensures
        a.mag() > 0 ==> a.plus(zero) == a && zero.plus(a) == a,
        a.mag() == 0 ==> a.plus(zero).mag() == 0 && zero.plus(a).mag() == 0,
{
    reveal(Binary32::plus);
    assert(mag_units(0) == 0);
    if a.mag() > 0 {
        lemma_mag_units_increases(0, a.mag());
    }
    lemma_round32_exact(a.mag());
}

/// A number less itself is zero.
pub proof fn lemma_minus_self(a: Binary32)
    requires
        a.finite(),
    ensures
        a.minus(a) == (Binary32 { bits: 0 }),
{
    reveal(Binary32::plus);
    assert(a.opposite().value() == -a.value());
}

/// Multiplying by 1 changes nothing.
pub proof fn lemma_times_one(a: Binary32)
    requires
        a.finite(),
    ensures
        a.times(Binary32 { bits: ONE }) == a,
        (Binary32 { bits: ONE }).times(a) == a,
{
    reveal(Binary32::times);
    let one = Binary32 { bits: ONE };
    lemma_pow2_values();
    lemma_pow2_adds(23, 126);
    assert(one.units() == pow2(149));
    lemma_pow2_pos(149);
    let u = a.units();
    assert(u * pow2(149) == pow2(149) * u) by (nonlinear_arith);
    lemma_round32_scale(u, pow2(149));
    lemma_round32_exact(a.mag());
}

/// A common factor changes no rounding.
pub proof fn lemma_round32_scale(n: nat, c: nat)
    requires
        c > 0,
    ensures
        round32(n * c, c) == round32(n, 1),
{
    assert((n * c) * 1 == n * c) by (nonlinear_arith);
    lemma_round32_monotone(n * c, c, n, 1);
    lemma_round32_monotone(n, 1, n * c, c);
}

/// A product with zero is zero.
pub proof fn lemma_times_zero(a: Binary32, zero: Binary32)
    requires
        a.finite(),
        zero.mag() == 0,
    ensures
        a.times(zero).mag() == 0,
        zero.times(a).mag() == 0,
{
    reveal(Binary32::times);
    assert(mag_units(0) == 0);
    assert(a.units() * 0 == 0) by (nonlinear_arith);
    assert(0 * a.units() == 0) by (nonlinear_arith);
    lemma_pow2_pos(149);
    lemma_round32_zero(pow2(149));
}

/// A product is a number unless a factor is none or an infinity meets a zero.
pub proof fn lemma_times_number(a: Binary32, b: Binary32)
    requires
        !a.nan_pattern(),
        !b.nan_pattern(),
        a.infinite() ==> b.mag() > 0,
        b.infinite() ==> a.mag() > 0,
    ensures
        !a.times(b).nan_pattern(),
        a.times(b).negative() == (a.negative() != b.negative()),
{
    reveal(Binary32::times);
}

/// A factor of at least 1 makes no number smaller.
pub proof fn lemma_times_grows(a: Binary32, b: Binary32)
    requires
        !a.nan_pattern(),
        b.finite(),
        b.mag() >= ONE,
    ensures
        a.times(b).mag() >= a.mag(),
{
    reveal(Binary32::times);
    let one = Binary32 { bits: ONE };
    let k = pow2(149);
    if a.finite() {
        lemma_pow2_values();
        lemma_pow2_pos(149);
        lemma_pow2_adds(23, 126);
        assert(one.units() == k);
        if b.mag() > ONE {
            lemma_mag_units_increases(ONE as nat, b.mag());
        }
        lemma_round32_exact(a.mag());
        assert(a.units() * k <= (a.units() * b.units()) * 1) by (nonlinear_arith)
            requires
                k <= b.units(),
        ;
        lemma_round32_monotone(a.units(), 1, a.units() * b.units(), k);
    }
}

/// The difference of two numbers below 8 is below 16.
pub proof fn lemma_minus_below(a: Binary32, b: Binary32)
    requires
        !a.negative(),
        !b.negative(),
        a.mag() <= 0x4100_0000,
        b.mag() <= 0x4100_0000,
    ensures
        a.minus(b).less(Binary32 { bits: 0x7f00_0000 }),
{
    reveal(Binary32::plus);
    let v = a.value() - b.value();
    assert(mag_units(0) == 0);
    if a.mag() < 0x4100_0000 {
        lemma_mag_units_increases(a.mag(), 0x4100_0000);
    }
    if b.mag() < 0x4100_0000 {
        lemma_mag_units_increases(b.mag(), 0x4100_0000);
    }
    let n = if v < 0 {
        (-v) as nat
    } else {
        v as nat
    };
    assert(mag_units(0) * 1 <= n <= mag_units(0x4100_0000) * 1);
    lemma_round32_between(n, 1, 0, 0x4100_0000);
}

/// A proper fraction of small integers is a number below 1.
pub proof fn lemma_small_ratio(i: nat, n: nat)
    requires
        i < n < 0x80_0000,
    ensures
        ({
            let q = crate::integers::of_int(false, i).over(crate::integers::of_int(false, n));
            !q.negative() && q.less(Binary32 { bits: ONE })
        }),
{
    reveal(Binary32::over);
    let (a, b) = (crate::integers::of_int(false, i), crate::integers::of_int(false, n));
    crate::integers::lemma_of_int_exact(false, i);
    crate::integers::lemma_of_int_exact(false, n);
    let k = pow2(149);
    let num = a.units() * k;
    let d = b.units();
    lemma_pow2_values();
    lemma_pow2_pos(149);
    lemma_pow2_pos(125);
    lemma_pow2_adds(24, 125);
    assert(d > 0) by (nonlinear_arith)
        requires
            d == n * k,
            n > 0,
            k > 0,
    ;
    assert(mag_units(0) == 0);
    // the largest number below 1 is 1 - 2^-24
    let below = mag_units(0x3f7f_ffff);
    let h = pow2(125);
    assert(below == 0xff_ffff * h);
    assert(k == 0x100_0000 * h);
    assert(i * 0x100_0000 <= n * 0xff_ffff) by (nonlinear_arith)
        requires
            i + 1 <= n,
            n < 0x80_0000,
    ;
    assert(num == (i * 0x100_0000) * (h * k)) by (nonlinear_arith)
        requires
            num == (i * k) * k,
            k == 0x100_0000 * h,
    ;
    assert(below * d == (n * 0xff_ffff) * (h * k)) by (nonlinear_arith)
        requires
            below == 0xff_ffff * h,
            d == n * k,
    ;
    assert((i * 0x100_0000) * (h * k) <= (n * 0xff_ffff) * (h * k)) by (nonlinear_arith)
        requires
            i * 0x100_0000 <= n * 0xff_ffff,
            h > 0,
            k > 0,
    ;
    assert(0 * d <= num) by (nonlinear_arith)
        requires
            num >= 0,
    ;
    lemma_round32_between(num, d, 0, 0x3f7f_ffff);
    assert(b.mag() > 0);
}

/// A part of a whole is a number from 0 to 1, also where both are rounded first.
pub proof fn lemma_ratio_within(i: nat, n: nat)
    requires
        i <= n <= u64::MAX,
        n > 0,
    ensures
        ({
            let q = crate::integers::of_int(false, i).over(crate::integers::of_int(false, n));
            q.finite() && !q.negative() && q.at_most(Binary32 { bits: ONE })
        }),
{
    reveal(Binary32::over);
    let (a, b) = (crate::integers::of_int(false, i), crate::integers::of_int(false, n));
    let k = pow2(149);
    lemma_pow2_values();
    lemma_pow2_pos(149);
    lemma_pow2_adds(23, 126);
    lemma_pow2_adds(64, 149);
    lemma_pow2_adds(23, 190);
    // 2^64 is representable, so no integer below it rounds beyond
    let top = mag_units(0x5f80_0000);
    assert(top == 0x80_0000 * pow2(190));
    assert(mag_units(ONE as nat) == k);
    assert(i * k <= n * k && n * k <= top * 1 && k * 1 <= n * k && 0 <= i * k) by (nonlinear_arith)
        requires
            0 <= i <= n,
            1 <= n <= pow2(64),
            pow2(64) * k == top,
            k > 0,
    ;
    assert(mag_units(0) * 1 <= i * k <= top * 1);
    lemma_round32_between(i * k, 1, 0, 0x5f80_0000);
    lemma_round32_between(n * k, 1, ONE as nat, 0x5f80_0000);
    assert((i * k) * 1 <= (n * k) * 1);
    lemma_round32_monotone(i * k, 1, n * k, 1);
    if a.mag() < b.mag() {
        lemma_mag_units_increases(a.mag(), b.mag());
    }
    lemma_mag_units_increases(0, b.mag());
    let (num, d) = (a.units() * k, b.units());
    assert(0 * d <= num && num <= k * d) by (nonlinear_arith)
        requires
            0 <= a.units() <= d,
            num == a.units() * k,
            k > 0,
    ;
    lemma_round32_between(num, d, 0, ONE as nat);
}

/// The units of numbers that are not negative order as their patterns do.
pub proof fn lemma_units_order(a: nat, b: nat)
    ensures
        a <= b <==> mag_units(a) <= mag_units(b),
{
    if a < b {
        lemma_mag_units_increases(a, b);
    } else if b < a {
        lemma_mag_units_increases(b, a);
    }
}

/// A product of numbers that are not negative does not fall when a factor grows.
pub proof fn lemma_times_rises(a: Binary32, b: Binary32, c: Binary32)
    requires
        a.finite(),
        b.finite(),
        c.finite(),
        !a.negative(),
        !b.negative(),
        !c.negative(),
        a.units() <= b.units(),
    ensures
        !a.times(c).negative(),
        !b.times(c).negative(),
        a.times(c).mag() <= b.times(c).mag() <= INF_MAG,
        c.times(a) == a.times(c),
        c.times(b) == b.times(c),
{
    reveal(Binary32::times);
    lemma_pow2_pos(149);
    let k = pow2(149);
    let (x, y, z) = (a.units(), b.units(), c.units());
    assert((x * z) * k <= (y * z) * k) by (nonlinear_arith)
        requires
            x <= y,
            z >= 0,
            k > 0,
    ;
    assert(z * x == x * z) by (nonlinear_arith);
    assert(z * y == y * z) by (nonlinear_arith);
    lemma_round32_monotone(x * z, k, y * z, k);
}

/// A sum of two numbers that are not negative.
pub proof fn lemma_sum_units(a: Binary32, m: Binary32)
    requires
        a.finite(),
        m.finite(),
        !a.negative(),
        !m.negative(),
    ensures
        !a.plus(m).negative(),
        a.plus(m).mag() == round32(a.units() + m.units(), 1),
{
    reveal(Binary32::plus);
    if a.units() + m.units() == 0 {
        lemma_round32_zero(1);
    }
}

/// A difference of two numbers that are not negative, the first no less than the second.
pub proof fn lemma_difference_units(a: Binary32, b: Binary32)
    requires
        a.finite(),
        b.finite(),
        !a.negative(),
        !b.negative(),
        b.units() <= a.units(),
    ensures
        !a.minus(b).negative(),
        a.minus(b).mag() == round32((a.units() - b.units()) as nat, 1),
{
    reveal(Binary32::plus);
    assert(b.opposite().value() == -b.value());
    if a.units() == b.units() {
        lemma_round32_zero(1);
    }
}

/// The units of 1.
pub proof fn lemma_one_units()
    ensures
        (Binary32 { bits: ONE }).units() == pow2(149),
        mag_units(ONE as nat) == pow2(149),
{
    lemma_pow2_values();
    lemma_pow2_adds(23, 126);
}

/// A quotient of a number by one that is no smaller lies within 0 to 1 and follows the first.
pub proof fn lemma_ratio_rises(a: Binary32, b: Binary32, d: Binary32)
    requires
        a.finite(),
        b.finite(),
        d.finite(),
        !a.negative(),
        !b.negative(),
        !d.negative(),
        d.mag() > 0,
        a.units() <= b.units() <= d.units(),
    ensures
        !a.over(d).negative(),
        !b.over(d).negative(),
        a.over(d).mag() <= b.over(d).mag() <= ONE,
{
    reveal(Binary32::over);
    let k = pow2(149);
    let (x, y, z) = (a.units(), b.units(), d.units());
    assert(mag_units(0) == 0);
    lemma_mag_units_increases(0, d.mag());
    lemma_one_units();
    assert((x * k) * z <= (y * k) * z) by (nonlinear_arith)
        requires
            x <= y,
            z > 0,
            k >= 0,
    ;
    assert(0 * z <= y * k <= k * z) by (nonlinear_arith)
        requires
            0 <= y <= z,
            k >= 0,
    ;
    lemma_round32_monotone(x * k, z, y * k, z);
    lemma_round32_between(y * k, z, 0, ONE as nat);
}

/// A difference of two finite numbers that are not negative is finite.
pub proof fn lemma_difference_finite(a: Binary32, b: Binary32)
    requires
        a.finite(),
        b.finite(),
        !a.negative(),
        !b.negative(),
    ensures
        a.minus(b).finite(),
{
    reveal(Binary32::plus);
    assert(b.opposite().value() == -b.value());
    let v = a.value() - b.value();
    assert(mag_units(0) == 0);
    if v >= 0 {
        lemma_round32_between(above(v) + above(-v), 1, 0, a.mag());
    } else {
        lemma_round32_between(above(v) + above(-v), 1, 0, b.mag());
    }
}

/// A number that is not negative stays where none of a difference to it is added.
pub proof fn lemma_no_way_towards(a: Binary32, b: Binary32, zero: Binary32)
    requires
        a.finite(),
        b.finite(),
        !a.negative(),
        !b.negative(),
        zero.mag() == 0,
    ensures
        a.plus(b.minus(a).times(zero)) == a,
{
    lemma_difference_finite(b, a);
    let z = b.minus(a).times(zero);
    lemma_times_zero(b.minus(a), zero);
    lemma_plus_zero(a, z);
    if a.mag() == 0 {
        reveal(Binary32::plus);
        assert(mag_units(0) == 0);
    }
}

/// A difference of finite numbers is a number.
pub proof fn lemma_difference_number(a: Binary32, b: Binary32)
    requires
        a.finite(),
        b.finite(),
    ensures
        !a.minus(b).nan_pattern(),
{
    reveal(Binary32::plus);
    assert(b.opposite().mag() == b.mag());
}

/// A number that is kept within positive bounds lies within them.
pub proof fn lemma_clamped_within(x: Binary32, low: Binary32, high: Binary32)
    requires
        !x.nan_pattern(),
        !low.negative(),
        !high.negative(),
        0 < low.mag() <= high.mag() < INF_MAG,
    ensures
        !x.clamped(low, high).negative(),
        low.mag() <= x.clamped(low, high).mag() <= high.mag(),
{
}

} // verus!
