//! A path that can be filled is small.

use crate::binary32::{mag_units, round32, Binary32};
use crate::binary32_laws::{
    lemma_round32_exact, lemma_round32_monotone, lemma_sum_units, lemma_units_order,
};
use crate::glyph::{
    near, path_short, pen, short, side_sum, step_short, tight, OutlinePoint, OutlineStep,
};
use crate::glyph_laws::lemma_sum_within;
use crate::placing_laws::lemma_power_units;
use crate::rounding::above;
use vstd::arithmetic::power2::{lemma2_to64, lemma_pow2_adds, pow2};
use vstd::prelude::*;

verus! {

/// Whether a point lies within `2^17` pixels of the origin, along both sides.
pub open spec fn within_field(p: OutlinePoint) -> bool {
    let far = 0x2_0000 * pow2(149);
    -far <= p.x.value() <= far && -far <= p.y.value() <= far
}

/// Whether two points are at most `2^15` pixels apart, along both sides.
pub open spec fn within_reach(p: OutlinePoint, q: OutlinePoint) -> bool {
    let far = 0x8000 * pow2(149);
    &&& -far <= p.x.value() - q.x.value() <= far
    &&& -far <= p.y.value() - q.y.value() <= far
}

/// A near point.
proof fn lemma_near(p: OutlinePoint)
    requires
        near(p),
    ensures
        within_field(p),
        p.x.finite(),
        p.y.finite(),
{
    lemma_power_units(0x4800_0000, 166);
    lemma2_to64();
    lemma_pow2_adds(149, 17);
    lemma_units_order(p.x.mag(), 0x4800_0000);
    lemma_units_order(p.y.mag(), 0x4800_0000);
}

/// A difference that is rounded to less than `2^15` is no more than that.
proof fn lemma_small_difference(x: Binary32, y: Binary32)
    requires
        x.finite(),
        y.finite(),
        x.minus(y).mag() < 0x4700_0000,
    ensures
        -(0x8000 * pow2(149)) <= x.value() - y.value() <= 0x8000 * pow2(149),
{
    let o = y.opposite();
    assert(o.value() == -y.value() && o.finite());
    let v = x.value() - y.value();
    let n = above(v) + above(-v);
    lemma_power_units(0x4700_0000, 164);
    lemma2_to64();
    lemma_pow2_adds(149, 15);
    lemma_round32_exact(0x4700_0000);
    if n > 0x8000 * pow2(149) {
        lemma_round32_monotone(mag_units(0x4700_0000), 1, n, 1);
        reveal(Binary32::plus);
        assert(x.minus(y).mag() == round32(n, 1));
    }
}

/// The terms of a sum are no larger than its limit.
proof fn lemma_terms(a: Binary32, b: Binary32, limit: Binary32)
    requires
        a.finite(),
        b.finite(),
        !a.negative(),
        !b.negative(),
        a.plus(b).at_most(limit),
        !limit.negative(),
    ensures
        a.mag() <= limit.mag(),
        b.mag() <= limit.mag(),
{
    lemma_sum_units(a, b);
    lemma_round32_exact(a.mag());
    lemma_round32_exact(b.mag());
    lemma_round32_monotone(a.units(), 1, a.units() + b.units(), 1);
    lemma_round32_monotone(b.units(), 1, a.units() + b.units(), 1);
}

/// Points whose sides add up to less than `2^15` are within reach.
proof fn lemma_reach(p: OutlinePoint, q: OutlinePoint, limit: Binary32)
    requires
        near(p),
        near(q),
        side_sum(p, q).at_most(limit),
        !limit.negative(),
        limit.mag() < 0x4700_0000,
    ensures
        within_reach(p, q),
{
    lemma_near(p);
    lemma_near(q);
    lemma_difference_small(p.x, q.x);
    lemma_difference_small(p.y, q.y);
    lemma_terms(p.x.minus(q.x).absolute(), p.y.minus(q.y).absolute(), limit);
    lemma_small_difference(p.x, q.x);
    lemma_small_difference(p.y, q.y);
}

/// The difference of coordinates is a number.
proof fn lemma_difference_small(x: Binary32, y: Binary32)
    requires
        x.finite(),
        y.finite(),
        -(0x2_0000 * pow2(149)) <= x.value() <= 0x2_0000 * pow2(149),
        -(0x2_0000 * pow2(149)) <= y.value() <= 0x2_0000 * pow2(149),
    ensures
        x.minus(y).finite(),
{
    let o = y.opposite();
    assert(o.value() == -y.value() && o.finite());
    lemma_power_units(0x4880_0000, 167);
    lemma2_to64();
    lemma_pow2_adds(149, 18);
    lemma_sum_within(x, o, 0x4880_0000);
    assert(x.minus(y) == x.plus(o));
}

/// The pen stays near.
proof fn lemma_pen_near(path: Seq<OutlineStep>, n: nat)
    requires
        path_short(path),
        n <= path.len(),
    ensures
        near(pen(path, n).0),
        near(pen(path, n).1),
    decreases n,
{
    if n > 0 {
        let m = (n - 1) as nat;
        lemma_pen_near(path, m);
        let step = path[m as int];
        assert(step_short(pen(path, m).0, pen(path, m).1, step));
        reveal(step_short);
    } else {
        let zero = Binary32 { bits: 0 };
        assert(zero.absolute() == zero);
    }
}

/// In a path that is short enough to be filled every point lies within `2^17` pixels of the
/// origin, and the points of a line or a curve, with the one that it starts from, lie within
/// `2^15` pixels of each other. So does the start of a contour where one ends.
#[verifier::rlimit(40)]
pub proof fn lemma_short_paths_are_small(path: Seq<OutlineStep>, i: int)
    requires
        path_short(path),
        0 <= i < path.len(),
    ensures
        ({
            let (start, at) = pen(path, i as nat);
            match path[i] {
                OutlineStep::MoveTo(a) => within_field(a) && within_reach(at, start),
                OutlineStep::LineTo(a) => within_field(a) && within_reach(at, a),
                OutlineStep::QuadTo(a, b) => {
                    &&& within_field(a) && within_field(b)
                    &&& within_reach(at, a) && within_reach(at, b) && within_reach(a, b)
                },
                OutlineStep::CurveTo(a, b, c) => {
                    &&& within_field(a) && within_field(b) && within_field(c)
                    &&& within_reach(at, a) && within_reach(at, b) && within_reach(at, c)
                    &&& within_reach(a, b) && within_reach(a, c) && within_reach(b, c)
                },
                OutlineStep::Close => within_reach(at, start),
            }
        }),
{
    let (start, at) = pen(path, i as nat);
    lemma_pen_near(path, i as nat);
    assert(step_short(start, at, path[i]));
    match path[i] {
        OutlineStep::MoveTo(a) => lemma_move_small(start, at, a),
        OutlineStep::LineTo(a) => lemma_line_small(start, at, a),
        OutlineStep::QuadTo(a, b) => lemma_quad_small(start, at, a, b),
        OutlineStep::CurveTo(a, b, c) => lemma_curve_small(start, at, a, b, c),
        OutlineStep::Close => lemma_close_small(start, at),
    }
}

/// Short lines.
proof fn lemma_short(p: OutlinePoint, q: OutlinePoint)
    requires
        near(p),
        near(q),
        short(p, q),
    ensures
        within_reach(p, q),
{
    lemma_reach(p, q, Binary32 { bits: 0x46ff_f000 });
}

/// Points of a curve.
proof fn lemma_tight(p: OutlinePoint, q: OutlinePoint)
    requires
        near(p),
        near(q),
        tight(p, q),
    ensures
        within_reach(p, q),
{
    lemma_reach(p, q, Binary32 { bits: 0x467f_f000 });
}

proof fn lemma_move_small(start: OutlinePoint, at: OutlinePoint, a: OutlinePoint)
    requires
        near(start),
        near(at),
        step_short(start, at, OutlineStep::MoveTo(a)),
    ensures
        within_field(a),
        within_reach(at, start),
{
    reveal(step_short);
    lemma_near(a);
    lemma_short(at, start);
}

proof fn lemma_line_small(start: OutlinePoint, at: OutlinePoint, a: OutlinePoint)
    requires
        near(at),
        step_short(start, at, OutlineStep::LineTo(a)),
    ensures
        within_field(a),
        within_reach(at, a),
{
    reveal(step_short);
    lemma_near(a);
    lemma_short(at, a);
}

proof fn lemma_close_small(start: OutlinePoint, at: OutlinePoint)
    requires
        near(start),
        near(at),
        step_short(start, at, OutlineStep::Close),
    ensures
        within_reach(at, start),
{
    reveal(step_short);
    lemma_short(at, start);
}

proof fn lemma_quad_small(start: OutlinePoint, at: OutlinePoint, a: OutlinePoint, b: OutlinePoint)
    requires
        near(at),
        step_short(start, at, OutlineStep::QuadTo(a, b)),
    ensures
        within_field(a),
        within_field(b),
        within_reach(at, a),
        within_reach(at, b),
        within_reach(a, b),
{
    assert(near(a) && near(b) && tight(at, a) && tight(at, b) && tight(a, b)) by {
        reveal(step_short);
    }
    lemma_near(a);
    lemma_near(b);
    lemma_tight(at, a);
    lemma_tight(at, b);
    lemma_tight(a, b);
}

proof fn lemma_curve_small(
    start: OutlinePoint,
    at: OutlinePoint,
    a: OutlinePoint,
    b: OutlinePoint,
    c: OutlinePoint,
)
    requires
        near(at),
        step_short(start, at, OutlineStep::CurveTo(a, b, c)),
    ensures
        within_field(a),
        within_field(b),
        within_field(c),
        within_reach(at, a),
        within_reach(at, b),
        within_reach(at, c),
        within_reach(a, b),
        within_reach(a, c),
        within_reach(b, c),
{
    assert(near(a) && near(b) && near(c) && tight(at, a) && tight(at, b) && tight(at, c) && tight(
        a,
        b,
    ) && tight(a, c) && tight(b, c)) by {
        reveal(step_short);
    }
    lemma_near(a);
    lemma_near(b);
    lemma_near(c);
    lemma_tight(at, a);
    lemma_tight(at, b);
    lemma_tight(at, c);
    lemma_tight(a, b);
    lemma_tight(a, c);
    lemma_tight(b, c);
}

} // verus!
