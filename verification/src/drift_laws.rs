//! Laws of how orbs wander across their way.

use crate::animate::{across, drift_at, KEYFRAME_DRIFT_GAIN};
use crate::binary32::{mag_units, round32, Binary32, ONE};
use crate::binary32_laws::{
    lemma_one_units, lemma_plus_zero, lemma_round32_between, lemma_round32_exact,
    lemma_round32_scale, lemma_units_order,
};
use crate::cluster::within_unit;
use crate::keyframe_track::{
    at_time, key_from, keyframe_at, number_between, point_within, span_from, span_part, spans,
    KeyframeClusterPoint,
};
use crate::rounding::{half_even, lemma_pow2_values, ulp_shift};
use crate::scaling::lemma_round32_close;
use vstd::arithmetic::div_mod::lemma_fundamental_div_mod;
use vstd::arithmetic::power2::{lemma2_to64, lemma_pow2_adds, lemma_pow2_pos, pow2};
use vstd::prelude::*;

verus! {

/// Half of the last place of a number just below 1: `2^-24`, in units.
spec fn slip() -> int {
    pow2(125) as int
}

/// Rounding a number of at most `c` slips by at most `c` such halves.
proof fn lemma_rounding_slips(n: nat, d: nat, c: nat)
    requires
        d > 0,
        1 <= c <= 2,
        n <= (c * pow2(149)) * d,
    ensures
        round32(n, d) <= if c == 1 {
            0x3f80_0000nat
        } else {
            0x4000_0000
        },
        mag_units(round32(n, d)) * d <= n + (c * slip()) * d,
        mag_units(round32(n, d)) * d >= n - (c * slip()) * d,
{
    let k = pow2(149);
    let e = pow2(125);
    lemma_pow2_values();
    lemma2_to64();
    lemma_pow2_pos(125);
    lemma_pow2_adds(24, 125);
    lemma_pow2_adds(1, 149);
    lemma_pow2_adds(23, 127);
    lemma_one_units();
    assert(0x4000_0000nat / 0x80_0000 == 128);
    assert(mag_units(0x4000_0000) == pow2(150));
    assert(mag_units(0) == 0);
    let top: nat = if c == 1 {
        ONE as nat
    } else {
        0x4000_0000
    };
    assert(c * k == mag_units(top));
    assert(0 * d == 0) by (nonlinear_arith);
    lemma_round32_between(n, d, 0, top);
    let m = mag_units(round32(n, d));
    if n >= 0x80_0000 * d {
        lemma_round32_close(n, d);
        let md = m * d;
        let ced = (c * e) * d;
        assert(n <= 0x100_0000 * ced) by (nonlinear_arith)
            requires
                n <= (c * k) * d,
                k == 0x100_0000 * e,
                ced == (c * e) * d,
        ;
    } else {
        lemma_small_rounding(n, d);
        assert(d <= (c * e) * d) by (nonlinear_arith)
            requires
                c >= 1,
                e >= 1,
                d > 0,
        ;
    }
}

/// A number that fills no significand is rounded to whole units.
pub(crate) proof fn lemma_small_rounding(n: nat, d: nat)
    requires
        d > 0,
        n < 0x80_0000 * d,
    ensures
        mag_units(round32(n, d)) * d <= n + d,
        mag_units(round32(n, d)) * d >= n - d,
{
    lemma_pow2_values();
    assert(d * pow2(24) == 0x100_0000 * d) by (nonlinear_arith)
        requires
            pow2(24) == 0x100_0000,
    ;
    assert(ulp_shift(24, n, d) == 0);
    assert(d * pow2(0) == d) by (nonlinear_arith)
        requires
            pow2(0) == 1,
    ;
    let m = half_even(n, d);
    lemma_fundamental_div_mod(n as int, d as int);
    let (q, r) = (n / d, n % d);
    assert(q < 0x80_0000) by (nonlinear_arith)
        requires
            n == d * q + r,
            r >= 0,
            n < 0x80_0000 * d,
            d > 0,
    ;
    assert(mag_units(m) == m) by {
        if m == 0x80_0000 {
            assert(m / 0x80_0000 == 1 && m % 0x80_0000 == 0);
            assert(0x80_0000 * pow2(0) == 0x80_0000) by (nonlinear_arith)
                requires
                    pow2(0) == 1,
            ;
        } else {
            assert(m / 0x80_0000 == 0 && m % 0x80_0000 == m);
        }
    }
    assert(m * d <= n + d && m * d >= n - d) by (nonlinear_arith)
        requires
            n == d * q + r,
            0 <= r < d,
            m == q || m == q + 1,
    ;
}

/// A rounded sum.
proof fn lemma_sum_slips(a: Binary32, b: Binary32, c: nat)
    requires
        a.finite(),
        b.finite(),
        1 <= c <= 2,
        -(c * pow2(149)) <= a.value() + b.value() <= c * pow2(149),
    ensures
        a.plus(b).finite(),
        c == 1 ==> a.plus(b).mag() <= ONE,
        -(c * slip()) <= a.plus(b).value() - (a.value() + b.value()) <= c * slip(),
{
    let v = a.value() + b.value();
    let n = if v >= 0 {
        v as nat
    } else {
        (-v) as nat
    };
    assert((c * pow2(149)) * 1 == c * pow2(149)) by (nonlinear_arith);
    lemma_rounding_slips(n, 1, c);
    assert(mag_units(0) == 0);
    lemma_pow2_pos(125);
    assert(c * slip() >= 0) by (nonlinear_arith)
        requires
            c >= 1,
            slip() >= 0,
    ;
    reveal(Binary32::plus);
}

/// A rounded difference.
proof fn lemma_difference_slips(a: Binary32, b: Binary32)
    requires
        a.finite(),
        b.finite(),
        -pow2(149) <= a.value() - b.value() <= pow2(149),
    ensures
        a.minus(b).finite(),
        a.minus(b).mag() <= ONE,
        -slip() <= a.minus(b).value() - (a.value() - b.value()) <= slip(),
{
    assert(b.opposite().value() == -b.value() && b.opposite().finite());
    lemma_sum_slips(a, b.opposite(), 1);
}

/// A rounded product of numbers within -1 to 1.
proof fn lemma_product_slips(a: Binary32, b: Binary32)
    requires
        a.mag() <= ONE,
        b.mag() <= ONE,
    ensures
        a.times(b).finite(),
        a.times(b).mag() <= ONE,
        -(slip() * pow2(149)) <= a.times(b).value() * pow2(149) - a.value() * b.value() <= slip()
            * pow2(149),
{
    let k = pow2(149);
    lemma_pow2_pos(149);
    lemma_one_units();
    lemma_units_order(a.mag(), ONE as nat);
    lemma_units_order(b.mag(), ONE as nat);
    let (u, v) = (a.units(), b.units());
    assert(u * v <= (1 * k) * k) by (nonlinear_arith)
        requires
            0 <= u <= k,
            0 <= v <= k,
    ;
    lemma_rounding_slips(u * v, k, 1);
    assert((1 * slip()) * k == slip() * k);
    reveal(Binary32::times);
    let r = a.times(b);
    let w = r.units();
    assert(r.mag() == round32(u * v, k));
    assert((-(u as int)) * v == -(u * v) && u * (-(v as int)) == -(u * v) && (-(u as int)) * (-(
    v as int)) == u * v && (-(w as int)) * k == -(w * k)) by (nonlinear_arith);
}

/// The part of a span from time 0 to time 1 is the time.
proof fn lemma_part_is_time(t: Binary32)
    requires
        (Binary32 { bits: 0 }).less(t),
        t.less(Binary32 { bits: ONE }),
    ensures
        span_part(Binary32 { bits: 0 }, Binary32 { bits: ONE }, t) == t,
{
    let zero = Binary32 { bits: 0 };
    let one = Binary32 { bits: ONE };
    lemma_plus_zero(one, zero.opposite());
    lemma_plus_zero(t, zero.opposite());
    assert(one.minus(zero) == one && t.minus(zero) == t);
    lemma_one_units();
    lemma_pow2_pos(149);
    lemma_round32_scale(t.units(), pow2(149));
    lemma_round32_exact(t.mag());
    assert(t.over(one) == t) by {
        reveal(Binary32::over);
    }
}

/// The drift between two places.
spec fn straight_drift(a: Binary32, b: Binary32, t: Binary32) -> Binary32 {
    (Binary32 { bits: KEYFRAME_DRIFT_GAIN }).times(
        number_between(a, b, t).minus(
            a.times((Binary32 { bits: ONE }).minus(t)).plus(b.times(t)),
        ),
    )
}

/// The drift of a track of two keyframes between them.
#[verifier::rlimit(40)]
proof fn lemma_between_two(track: Seq<KeyframeClusterPoint>, t: Binary32, horizontal: bool)
    requires
        track.len() == 2,
        track[0].time.bits == 0,
        track[1].time.bits == ONE,
        point_within(track[0]),
        point_within(track[1]),
        (Binary32 { bits: 0 }).less(t),
        t.less(Binary32 { bits: ONE }),
    ensures
        drift_at(track, t, horizontal).absolute().at_most(Binary32 { bits: 0x3480_0000 }),
{
    assert(!at_time(track[0], t) && !at_time(track[1], t));
    assert(key_from(track, 2, t) is None);
    assert(key_from(track, 1, t) is None);
    assert(key_from(track, 0, t) is None);
    assert(spans(track, 0, t));
    assert(span_from(track, 0, t) == 0);
    assert(track[0].time == (Binary32 { bits: 0 }) && track[1].time == (Binary32 { bits: ONE }));
    lemma_part_is_time(t);
    let (a, b) = (across(track[0].centroid, horizontal), across(track[1].centroid, horizontal));
    assert(across(keyframe_at(track, t).1, horizontal) == number_between(a, b, t));
    assert(across(keyframe_at(track, Binary32 { bits: 0 }).1, horizontal) == a);
    assert(across(keyframe_at(track, Binary32 { bits: ONE }).1, horizontal) == b);
    lemma_straight_drift(a, b, t);
}

/// Two ways to reach a point of a straight line end close together.
proof fn lemma_ways_meet(a: Binary32, b: Binary32, t: Binary32) -> (gap: (Binary32, Binary32))
    requires
        !a.negative(),
        a.mag() <= ONE,
        !b.negative(),
        b.mag() <= ONE,
        !t.negative(),
        t.mag() <= ONE,
    ensures
        gap.0 == number_between(a, b, t),
        gap.1 == a.times((Binary32 { bits: ONE }).minus(t)).plus(b.times(t)),
        gap.0.finite(),
        gap.1.finite(),
        -(9 * slip()) <= gap.0.value() - gap.1.value() <= 9 * slip(),
{
    let k = pow2(149) as int;
    let e = slip();
    let one = Binary32 { bits: ONE };
    lemma_pow2_pos(149);
    lemma_pow2_pos(125);
    lemma_one_units();
    lemma_units_order(a.mag(), ONE as nat);
    lemma_units_order(b.mag(), ONE as nat);
    lemma_units_order(t.mag(), ONE as nat);
    // along the way
    let d = b.minus(a);
    lemma_difference_slips(b, a);
    let m = d.times(t);
    lemma_product_slips(d, t);
    lemma_units_order(m.mag(), ONE as nat);
    lemma_sum_slips(a, m, 2);
    let h = a.plus(m);
    // by the shares of the ends
    let s = one.minus(t);
    lemma_difference_slips(one, t);
    let p = a.times(s);
    lemma_product_slips(a, s);
    let q = b.times(t);
    lemma_product_slips(b, t);
    lemma_units_order(p.mag(), ONE as nat);
    lemma_units_order(q.mag(), ONE as nat);
    lemma_sum_slips(p, q, 2);
    let l = p.plus(q);
    lemma_meeting(
        a.value(),
        b.value(),
        t.value(),
        d.value(),
        m.value(),
        h.value(),
        s.value(),
        p.value(),
        q.value(),
        l.value(),
        k,
        e,
    );
    (h, l)
}

/// The errors of both ways added up.
proof fn lemma_meeting(
    a: int,
    b: int,
    t: int,
    d: int,
    m: int,
    h: int,
    s: int,
    p: int,
    q: int,
    l: int,
    k: int,
    e: int,
)
    requires
        0 <= a <= k,
        0 <= t <= k,
        k > 0,
        e >= 0,
        -e <= d - (b - a) <= e,
        -(e * k) <= m * k - d * t <= e * k,
        -(2 * e) <= h - (a + m) <= 2 * e,
        -e <= s - (k - t) <= e,
        -(e * k) <= p * k - a * s <= e * k,
        -(e * k) <= q * k - b * t <= e * k,
        -(2 * e) <= l - (p + q) <= 2 * e,
    ensures
        -(9 * e) <= h - l <= 9 * e,
{
    let (x, y) = (d - (b - a), s - (k - t));
    assert(-(e * k) <= x * t <= e * k) by (nonlinear_arith)
        requires
            -e <= x <= e,
            0 <= t <= k,
            e >= 0,
    ;
    assert(-(e * k) <= y * a <= e * k) by (nonlinear_arith)
        requires
            -e <= y <= e,
            0 <= a <= k,
            e >= 0,
    ;
    assert(d * t == b * t - a * t + x * t) by (nonlinear_arith)
        requires
            d == b - a + x,
    ;
    assert(a * s == a * k - a * t + y * a) by (nonlinear_arith)
        requires
            s == k - t + y,
    ;
    let (hx, lx) = (h - (a + m), l - (p + q));
    assert(-(2 * (e * k)) <= hx * k <= 2 * (e * k) && -(2 * (e * k)) <= lx * k <= 2 * (e * k))
        by (nonlinear_arith)
        requires
            -(2 * e) <= hx <= 2 * e,
            -(2 * e) <= lx <= 2 * e,
            k > 0,
    ;
    assert(h * k == a * k + m * k + hx * k) by (nonlinear_arith)
        requires
            h == a + m + hx,
    ;
    assert(l * k == p * k + q * k + lx * k) by (nonlinear_arith)
        requires
            l == p + q + lx,
    ;
    let z = h - l;
    assert(z * k == h * k - l * k) by (nonlinear_arith)
        requires
            z == h - l,
    ;
    assert(-(9 * e) <= z <= 9 * e) by (nonlinear_arith)
        requires
            -(9 * (e * k)) <= z * k <= 9 * (e * k),
            k > 0,
    ;
}

/// An orb on a straight way does not wander: the drift of a track of two keyframes, at the
/// times 0 and 1, is nothing but what rounding leaves, at most `2^-22`.
#[verifier::rlimit(40)]
pub proof fn lemma_straight_way_has_no_drift(
    track: Seq<KeyframeClusterPoint>,
    t: Binary32,
    horizontal: bool,
)
    requires
        track.len() == 2,
        track[0].time.bits == 0,
        track[1].time.bits == ONE,
        point_within(track[0]),
        point_within(track[1]),
        (Binary32 { bits: 0 }).at_most(t),
        t.at_most(Binary32 { bits: ONE }),
    ensures
        drift_at(track, t, horizontal).absolute().at_most(Binary32 { bits: 0x3480_0000 }),
{
    if (Binary32 { bits: 0 }).less(t) && t.less(Binary32 { bits: ONE }) {
        lemma_between_two(track, t, horizontal);
    } else {
        lemma_drift_at_ends(track, t, horizontal);
    }
}

/// The drift between two places is next to nothing.
proof fn lemma_straight_drift(a: Binary32, b: Binary32, t: Binary32)
    requires
        within_unit(a),
        within_unit(b),
        !t.negative(),
        t.mag() <= ONE,
    ensures
        straight_drift(a, b, t).absolute().at_most(Binary32 { bits: 0x3480_0000 }),
{
    let (h, l) = lemma_ways_meet(a, b, t);
    lemma_drift_small(h, l);
}

/// At both ends of its time a track has no drift.
#[verifier::rlimit(40)]
proof fn lemma_drift_at_ends(track: Seq<KeyframeClusterPoint>, t: Binary32, horizontal: bool)
    requires
        track.len() == 2,
        track[0].time.bits == 0,
        track[1].time.bits == ONE,
        point_within(track[0]),
        point_within(track[1]),
        t.mag() == 0 || t.bits == ONE,
    ensures
        drift_at(track, t, horizontal).absolute().at_most(Binary32 { bits: 0x3480_0000 }),
{
    let one = Binary32 { bits: ONE };
    let (a, b) = (across(track[0].centroid, horizontal), across(track[1].centroid, horizontal));
    let x = if t.mag() == 0 {
        a
    } else {
        b
    };
    assert(across(keyframe_at(track, t).1, horizontal) == x);
    let l = a.times(one.minus(t)).plus(b.times(t));
    lemma_line_end(a, b, t);
    lemma_drift_small(x, l);
}

/// The straight line is at its ends where it begins and ends.
proof fn lemma_line_end(a: Binary32, b: Binary32, t: Binary32)
    requires
        !a.negative(),
        a.mag() <= ONE,
        !b.negative(),
        b.mag() <= ONE,
        t.mag() == 0 || t.bits == ONE,
    ensures
        ({
            let l = a.times((Binary32 { bits: ONE }).minus(t)).plus(b.times(t));
            l.finite() && l.value() == if t.mag() == 0 {
                a.value()
            } else {
                b.value()
            }
        }),
{
    let one = Binary32 { bits: ONE };
    assert(mag_units(0) == 0);
    crate::binary32_laws::lemma_times_one(a);
    crate::binary32_laws::lemma_times_one(b);
    if t.mag() == 0 {
        lemma_plus_zero(one, t.opposite());
        assert(one.minus(t) == one);
        crate::binary32_laws::lemma_times_zero(b, t);
        lemma_plus_zero(a, b.times(t));
    } else {
        crate::binary32_laws::lemma_minus_self(one);
        crate::binary32_laws::lemma_times_zero(a, one.minus(t));
        lemma_plus_zero(b, a.times(one.minus(t)));
    }
}

/// The gain of a small gap is small.
proof fn lemma_drift_small(h: Binary32, l: Binary32)
    requires
        h.finite(),
        l.finite(),
        -(9 * slip()) <= h.value() - l.value() <= 9 * slip(),
    ensures
        (Binary32 { bits: KEYFRAME_DRIFT_GAIN }).times(h.minus(l)).absolute().at_most(
            Binary32 { bits: 0x3480_0000 },
        ),
{
    let k = pow2(149);
    let e = slip();
    let gain = Binary32 { bits: KEYFRAME_DRIFT_GAIN };
    lemma_pow2_values();
    lemma2_to64();
    lemma_pow2_pos(149);
    lemma_pow2_pos(125);
    lemma_pow2_adds(24, 125);
    lemma_pow2_adds(2, 125);
    lemma_pow2_adds(23, 104);
    lemma_pow2_adds(23, 123);
    lemma_pow2_adds(3, 146);
    lemma_one_units();
    assert(0x3480_0000nat / 0x80_0000 == 105);
    assert(mag_units(0x3480_0000) == 4 * e);
    assert(0x3e00_0000nat / 0x80_0000 == 124);
    assert(mag_units(0x3e00_0000) == pow2(146));
    lemma_units_order(gain.mag(), 0x3e00_0000);
    lemma_units_order(gain.mag(), ONE as nat);
    let x = h.minus(l);
    lemma_difference_slips(h, l);
    let y = gain.times(x);
    lemma_product_slips(gain, x);
    let (g, v, w) = (gain.value(), x.value(), y.value());
    assert(-(4 * e) <= w <= 4 * e) by (nonlinear_arith)
        requires
            0 <= 8 * g <= k,
            -(10 * e) <= v <= 10 * e,
            -(e * k) <= w * k - g * v <= e * k,
            k > 0,
            e >= 0,
    {
        assert(-(10 * (e * k)) <= 8 * (g * v) <= 10 * (e * k)) by (nonlinear_arith)
            requires
                0 <= 8 * g <= k,
                -(10 * e) <= v <= 10 * e,
                e >= 0,
        ;
        assert(-(4 * (e * k)) <= w * k <= 4 * (e * k));
    }
    lemma_units_order(y.mag(), 0x3480_0000);
}

} // verus!
