//! How far the orbs of a cluster wander across their way.

use crate::animate::{
    alike_across, drift_at, drift_of, lemma_drift_ignores_the_way, sound_time, track_of,
    AnimateOptions, MotionDirection, KEYFRAME_DRIFT_GAIN,
};
use crate::binary32::{mag_units, round32, Binary32, ONE};
use crate::binary32_laws::{lemma_one_units, lemma_round32_between, lemma_units_order};
use crate::cluster::within_unit;
use crate::glyph_laws::lemma_sum_within;
use crate::gpu::{direction_number, drifts_at};
use crate::keyframe_track::{keyframe_at, KeyframeClusterPoint};
use crate::placing_laws::{
    lemma_power_units, lemma_product_off, lemma_product_within, lemma_sum_off,
};
use vstd::arithmetic::power2::{lemma2_to64, lemma_pow2_adds, lemma_pow2_pos, pow2};
use vstd::prelude::*;

verus! {

/// Whether orbs cross the picture sideways.
pub open spec fn sideways(d: MotionDirection) -> bool {
    d is LeftToRight || d is RightToLeft
}

/// Whether two tracks have the same times, and the same heights for orbs that go sideways or
/// the same columns for the others.
pub open spec fn same_across(
    track: Seq<KeyframeClusterPoint>,
    other: Seq<KeyframeClusterPoint>,
    d: MotionDirection,
) -> bool {
    &&& track.len() == other.len()
    &&& forall|j: int|
        0 <= j < track.len() ==> {
            &&& (#[trigger] track[j]).time == (#[trigger] other[j]).time
            &&& sideways(d) ==> track[j].centroid.y == other[j].centroid.y
            &&& !sideways(d) ==> track[j].centroid.x == other[j].centroid.x
        }
}

/// The drift of a cluster is that of its track.
proof fn lemma_drift_of_track(opts: AnimateOptions, t: Binary32, n: nat, i: nat)
    requires
        i < n,
        track_of(opts.keyframe_tracks, i as int) is Some,
    ensures
        ({
            let track = track_of(opts.keyframe_tracks, i as int)->0;
            drift_of(drifts_at(opts, t, n), i) == if track.len() > 0 {
                drift_at(track, sound_time(t), sideways(opts.direction))
            } else {
                Binary32 { bits: 0 }
            }
        }),
{
    lemma_direction_sides(opts.direction);
    let drifts = drifts_at(opts, t, n);
    assert(drifts is Some);
    assert(drifts->0.len() == n);
}

/// The directions by their numbers.
proof fn lemma_direction_sides(d: MotionDirection)
    ensures
        direction_number(d).less(Binary32 { bits: 0x3fc0_0000 }) == sideways(d),
{
}

/// Orbs that cross the picture sideways wander up and down with the height of their cluster
/// alone, and the others to the sides with its column alone.
#[verifier::rlimit(40)]
pub proof fn lemma_orbs_wander_across_their_way(
    opts: AnimateOptions,
    other: AnimateOptions,
    t: Binary32,
    n: nat,
    i: nat,
)
    requires
        opts.direction == other.direction,
        i < n,
        track_of(opts.keyframe_tracks, i as int) is Some,
        track_of(other.keyframe_tracks, i as int) is Some,
        same_across(
            track_of(opts.keyframe_tracks, i as int)->0,
            track_of(other.keyframe_tracks, i as int)->0,
            opts.direction,
        ),
    ensures
        drift_of(drifts_at(opts, t, n), i) == drift_of(drifts_at(other, t, n), i),
{
    let a = track_of(opts.keyframe_tracks, i as int)->0;
    let b = track_of(other.keyframe_tracks, i as int)->0;
    lemma_drift_of_track(opts, t, n, i);
    lemma_drift_of_track(other, t, n, i);
    if a.len() > 0 {
        lemma_alike(a, b, opts.direction);
        lemma_drift_ignores_the_way(a, b, sideways(opts.direction), sound_time(t));
    }
}

proof fn lemma_alike(
    track: Seq<KeyframeClusterPoint>,
    other: Seq<KeyframeClusterPoint>,
    d: MotionDirection,
)
    requires
        same_across(track, other, d),
    ensures
        alike_across(track, other, sideways(d)),
{
}

/// The coordinate across the way.
pub open spec fn across_place(
    track: Seq<KeyframeClusterPoint>,
    t: Binary32,
    d: MotionDirection,
) -> Binary32 {
    if sideways(d) {
        keyframe_at(track, t).1.y
    } else {
        keyframe_at(track, t).1.x
    }
}

/// A tenth of what the cluster's place lies off the straight line between its ends is how far
/// its orbs wander, to the same side, off by at most one part in `2^19` of the picture.
#[verifier::rlimit(40)]
pub proof fn lemma_wandering_is_a_tenth(opts: AnimateOptions, t: Binary32, n: nat, i: nat)
    requires
        i < n,
        within_unit(t),
        track_of(opts.keyframe_tracks, i as int) is Some,
        track_of(opts.keyframe_tracks, i as int)->0.len() > 0,
        ({
            let track = track_of(opts.keyframe_tracks, i as int)->0;
            &&& within_unit(across_place(track, t, opts.direction))
            &&& within_unit(across_place(track, Binary32 { bits: 0 }, opts.direction))
            &&& within_unit(across_place(track, Binary32 { bits: ONE }, opts.direction))
        }),
    ensures
        ({
            let track = track_of(opts.keyframe_tracks, i as int)->0;
            let here = across_place(track, t, opts.direction).value();
            let first = across_place(track, Binary32 { bits: 0 }, opts.direction).value();
            let last = across_place(track, Binary32 { bits: ONE }, opts.direction).value();
            let one = pow2(149) as int;
            let line = first * (one - t.value()) + last * t.value();
            let drift = drift_of(drifts_at(opts, t, n), i).value();
            -(one * one) <= (10 * drift * one - (here * one - line)) * 0x8_0000 <= one * one
        }),
{
    lemma_drift_of_track(opts, t, n, i);
    lemma_tenth(track_of(opts.keyframe_tracks, i as int)->0, t, opts.direction);
}

/// The drift of a track.
#[verifier::rlimit(40)]
proof fn lemma_tenth(track: Seq<KeyframeClusterPoint>, t: Binary32, d: MotionDirection)
    requires
        within_unit(t),
        within_unit(across_place(track, t, d)),
        within_unit(across_place(track, Binary32 { bits: 0 }, d)),
        within_unit(across_place(track, Binary32 { bits: ONE }, d)),
    ensures
        ({
            let here = across_place(track, t, d).value();
            let first = across_place(track, Binary32 { bits: 0 }, d).value();
            let last = across_place(track, Binary32 { bits: ONE }, d).value();
            let one = pow2(149) as int;
            let line = first * (one - t.value()) + last * t.value();
            let drift = drift_at(track, sound_time(t), sideways(d)).value();
            -(one * one) <= (10 * drift * one - (here * one - line)) * 0x8_0000 <= one * one
        }),
{
    let zero = Binary32 { bits: 0 };
    let one = Binary32 { bits: ONE };
    lemma_line_off(
        across_place(track, t, d),
        across_place(track, zero, d),
        across_place(track, one, d),
        t,
    );
}

/// The product of two numbers within 0 to 1.
#[verifier::rlimit(40)]
pub(crate) proof fn lemma_unit_product(a: Binary32, b: Binary32)
    requires
        within_unit(a),
        within_unit(b),
    ensures
        ({
            let k = pow2(149) as int;
            let r = a.times(b);
            &&& within_unit(r)
            &&& -(2 * k * k) <= (r.value() * k - a.value() * b.value()) * 0x100_0000 <= 2 * k * k
        }),
{
    let k = pow2(149);
    lemma_one_units();
    lemma_pow2_pos(149);
    lemma_units_order(a.mag(), ONE as nat);
    lemma_units_order(b.mag(), ONE as nat);
    let (u, v) = (a.units(), b.units());
    assert(0 * k <= u * v <= k * k) by (nonlinear_arith)
        requires
            0 <= u <= k,
            0 <= v <= k,
    ;
    assert(mag_units(0) == 0);
    lemma_round32_between(u * v, k, 0, ONE as nat);
    let r = a.times(b);
    assert(r.mag() == round32(u * v, k) && !r.negative()) by {
        reveal(Binary32::times);
    }
    lemma_product_off(a, b);
    lemma_large_one();
    assert(0x80_0000 * k <= k * k) by (nonlinear_arith)
        requires
            k >= 0x100_0000,
    ;
    assert(2 * k * k == 2 * (k * k)) by (nonlinear_arith);
}

/// 1 is many units.
pub(crate) proof fn lemma_large_one()
    ensures
        pow2(149) >= 0x100_0000,
{
    lemma2_to64();
    lemma_pow2_adds(24, 125);
    lemma_pow2_pos(125);
    assert(pow2(149) >= 0x100_0000) by (nonlinear_arith)
        requires
            pow2(149) == pow2(24) * pow2(125),
            pow2(24) == 0x100_0000,
            pow2(125) >= 1,
    ;
}

/// A sum or difference of no more than 2.
pub(crate) proof fn lemma_small_sum(a: Binary32, b: Binary32)
    requires
        a.finite(),
        b.finite(),
        -(2 * pow2(149)) <= a.value() + b.value() <= 2 * pow2(149),
    ensures
        ({
            let k = pow2(149) as int;
            let r = a.plus(b);
            &&& r.finite()
            &&& r.units() <= 2 * k
            &&& -(2 * k) <= (r.value() - (a.value() + b.value())) * 0x100_0000 <= 2 * k
            &&& a.value() + b.value() >= 0 && !a.negative() ==> !r.negative()
        }),
{
    lemma_power_units(0x4000_0000, 150);
    lemma2_to64();
    lemma_pow2_adds(149, 1);
    lemma_sum_within(a, b, 0x4000_0000);
    lemma_units_order(a.plus(b).mag(), 0x4000_0000);
    lemma_sum_off(a, b);
}

/// The time that is left.
pub(crate) proof fn lemma_time_left(t: Binary32)
    requires
        within_unit(t),
    ensures
        ({
            let one = Binary32 { bits: ONE };
            let u = one.minus(t);
            let k = pow2(149) as int;
            &&& within_unit(u)
            &&& -k <= (u.value() - (k - t.value())) * 0x100_0000 <= k
        }),
{
    let one = Binary32 { bits: ONE };
    lemma_one_units();
    lemma_units_order(t.mag(), ONE as nat);
    let o = t.opposite();
    assert(o.value() == -t.value() && o.finite());
    lemma_sum_within(one, o, ONE as nat);
    lemma_sum_off(one, o);
    assert(one.minus(t) == one.plus(o));
}

/// The gain is a tenth.
proof fn lemma_gain()
    ensures
        ({
            let g = Binary32 { bits: KEYFRAME_DRIFT_GAIN };
            let k = pow2(149) as int;
            &&& !g.negative()
            &&& g.finite()
            &&& -k <= (10 * g.value() - k) * 0x100_0000 <= k
        }),
{
    lemma2_to64();
    lemma_pow2_adds(122, 27);
    lemma_pow2_pos(122);
    assert(0x3dcc_cccdnat / 0x80_0000 == 123 && 0x3dcc_cccdnat % 0x80_0000 == 0x4c_cccd);
    assert((Binary32 { bits: KEYFRAME_DRIFT_GAIN }).units() == 0xcc_cccd * pow2(122));
    assert(pow2(149) == pow2(122) * 0x800_0000);
}

/// What the steps of the wandering are off, together.
#[verifier::rlimit(40)]
proof fn lemma_line_off(h: Binary32, f: Binary32, l: Binary32, t: Binary32)
    requires
        within_unit(h),
        within_unit(f),
        within_unit(l),
        within_unit(t),
    ensures
        ({
            let one = Binary32 { bits: ONE };
            let r = (Binary32 { bits: KEYFRAME_DRIFT_GAIN }).times(
                h.minus(f.times(one.minus(t)).plus(l.times(t))),
            );
            let k = pow2(149) as int;
            let line = f.value() * (k - t.value()) + l.value() * t.value();
            -(k * k) <= (10 * r.value() * k - (h.value() * k - line)) * 0x8_0000 <= k * k
        }),
{
    let k = pow2(149) as int;
    let one = Binary32 { bits: ONE };
    lemma_one_units();
    lemma_pow2_pos(149);
    lemma_large_one();
    lemma_units_order(h.mag(), ONE as nat);
    lemma_units_order(f.mag(), ONE as nat);
    lemma_units_order(l.mag(), ONE as nat);
    let u = one.minus(t);
    lemma_time_left(t);
    lemma_units_order(u.mag(), ONE as nat);
    let (fu, lt) = (f.times(u), l.times(t));
    lemma_unit_product(f, u);
    lemma_unit_product(l, t);
    lemma_units_order(fu.mag(), ONE as nat);
    lemma_units_order(lt.mag(), ONE as nat);
    let line = fu.plus(lt);
    lemma_small_sum(fu, lt);
    let o = line.opposite();
    assert(o.value() == -line.value() && o.finite());
    let d = h.minus(line);
    lemma_small_sum(h, o);
    assert(d == h.plus(o));
    let g = Binary32 { bits: KEYFRAME_DRIFT_GAIN };
    lemma_gain();
    lemma_gain_product(g, d);
    let r = g.times(d);
    lemma_line_total(
        f.value(),
        u.value(),
        t.value(),
        l.value(),
        h.value(),
        fu.value(),
        lt.value(),
        line.value(),
        d.value(),
        g.value(),
        r.value(),
        k,
    );
}

/// The gain times a number of no more than 2.
#[verifier::rlimit(40)]
proof fn lemma_gain_product(g: Binary32, d: Binary32)
    requires
        g.bits == KEYFRAME_DRIFT_GAIN,
        d.finite(),
        d.units() <= 2 * pow2(149),
    ensures
        ({
            let k = pow2(149) as int;
            let r = g.times(d);
            -(2 * k * k) <= (r.value() * k - g.value() * d.value()) * 0x100_0000 <= 2 * k * k
        }),
{
    let k = pow2(149) as int;
    lemma_gain();
    lemma_pow2_pos(149);
    lemma_large_one();
    let (x, y) = (g.units(), d.units());
    lemma_power_units(0x4000_0000, 150);
    lemma2_to64();
    lemma_pow2_adds(149, 1);
    assert(0 * k <= x * y <= (2 * k) * k) by (nonlinear_arith)
        requires
            0 <= 2 * x <= k,
            0 <= y <= 2 * k,
    {
        assert((2 * x) * y <= k * (2 * k));
    }
    assert(mag_units(0) == 0);
    lemma_round32_between(x * y, k as nat, 0, 0x4000_0000);
    assert(g.times(d).finite()) by {
        reveal(Binary32::times);
    }
    lemma_product_off(g, d);
    lemma_product_within(2 * g.value(), d.value(), k, 2 * k);
    let v = g.value() * d.value();
    assert((2 * g.value()) * d.value() == 2 * v && k * (2 * k) == 2 * (k * k) && 2 * k * k == 2 * (k
        * k)) by (nonlinear_arith)
        requires
            v == g.value() * d.value(),
    ;
    assert(0x80_0000 * k <= k * k) by (nonlinear_arith)
        requires
            k >= 0x100_0000,
    ;
}

#[verifier::rlimit(40)]
proof fn lemma_line_total(
    f: int,
    u: int,
    t: int,
    l: int,
    h: int,
    fu: int,
    lt: int,
    line: int,
    d: int,
    g: int,
    r: int,
    k: int,
)
    requires
        0 <= f <= k,
        -k <= (u - (k - t)) * 0x100_0000 <= k,
        -(2 * k * k) <= (fu * k - f * u) * 0x100_0000 <= 2 * k * k,
        -(2 * k * k) <= (lt * k - l * t) * 0x100_0000 <= 2 * k * k,
        -(2 * k) <= (line - (fu + lt)) * 0x100_0000 <= 2 * k,
        -(2 * k) <= (d - (h - line)) * 0x100_0000 <= 2 * k,
        -(2 * k) <= d <= 2 * k,
        -k <= (10 * g - k) * 0x100_0000 <= k,
        -(2 * k * k) <= (r * k - g * d) * 0x100_0000 <= 2 * k * k,
        k > 0,
    ensures
        ({
            let want = f * (k - t) + l * t;
            -(k * k) <= (10 * r * k - (h * k - want)) * 0x8_0000 <= k * k
        }),
{
    let kk = k * k;
    let (flt, ll) = (f * (k - t), l * t);
    let a = u - (k - t);
    let fa = f * a;
    assert(2 * k * k == 2 * kk) by (nonlinear_arith)
        requires
            kk == k * k,
    ;
    lemma_product_within(f, a * 0x100_0000, k, k);
    assert(f * (a * 0x100_0000) == fa * 0x100_0000) by (nonlinear_arith)
        requires
            fa == f * a,
    ;
    assert(f * u == flt + fa) by (nonlinear_arith)
        requires
            flt == f * (k - t),
            fa == f * a,
            a == u - (k - t),
    ;
    let b = line - (fu + lt);
    let bk = b * k;
    lemma_product_within(b * 0x100_0000, k, 2 * k, k);
    let c = d - (h - line);
    let ck = c * k;
    lemma_product_within(c * 0x100_0000, k, 2 * k, k);
    assert((b * 0x100_0000) * k == bk * 0x100_0000 && (c * 0x100_0000) * k == ck * 0x100_0000 && (2
        * k) * k == 2 * kk) by (nonlinear_arith)
        requires
            bk == b * k,
            ck == c * k,
            kk == k * k,
    ;
    assert(d * k == h * k - (fu * k + lt * k) - bk + ck) by (nonlinear_arith)
        requires
            bk == b * k,
            ck == c * k,
            b == line - (fu + lt),
            c == d - (h - line),
    ;
    let e = 10 * g - k;
    let ed = e * d;
    lemma_product_within(e * 0x100_0000, d, k, 2 * k);
    assert((e * 0x100_0000) * d == ed * 0x100_0000 && k * (2 * k) == 2 * kk && 10 * (g * d) == ed + d
        * k && 10 * r * k == 10 * (r * k)) by (nonlinear_arith)
        requires
            ed == e * d,
            e == 10 * g - k,
            kk == k * k,
    ;
}

} // verus!
