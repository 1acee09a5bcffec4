//! Laws of glyphs on fields.

use crate::binary32::{mag_units, round32, Binary32, INF_MAG, ONE};
use crate::binary32_laws::{
    lemma_one_units, lemma_rank_orders_values, lemma_round32_between, lemma_round32_monotone,
    lemma_times_rises, lemma_units_order,
};
use crate::glyph::{
    dwelling, field_center, field_path, field_radius, field_side, fillable, near, number, pen,
    pixel_point, short, step_short, tight, GlyphBox, OutlinePoint, OutlineStep,
};
use crate::integers::{lemma_of_int_exact, of_int};
use crate::rounding::lemma_pow2_values;
use crate::scaling::lemma_round32_close;
use vstd::arithmetic::power2::{lemma2_to64, lemma_pow2_adds, lemma_pow2_pos, pow2};
use vstd::prelude::*;

verus! {

/// Whether a point in font units lies within a glyph's frame.
pub open spec fn in_frame(f: GlyphBox, p: OutlinePoint) -> bool {
    &&& number(f.x_min as int).at_most(p.x) && p.x.at_most(number(f.x_max as int))
    &&& number(f.y_min as int).at_most(p.y) && p.y.at_most(number(f.y_max as int))
}

/// Whether the points of a step lie within a glyph's frame.
pub open spec fn step_in_frame(f: GlyphBox, step: OutlineStep) -> bool {
    match step {
        OutlineStep::MoveTo(a) => in_frame(f, a),
        OutlineStep::LineTo(a) => in_frame(f, a),
        OutlineStep::QuadTo(a, b) => in_frame(f, a) && in_frame(f, b),
        OutlineStep::CurveTo(a, b, c) => in_frame(f, a) && in_frame(f, b) && in_frame(f, c),
        OutlineStep::Close => true,
    }
}

/// Whether a pixel lies on a field.
spec fn on_field(p: OutlinePoint, side: nat) -> bool {
    let last = of_int(false, side).mag();
    &&& !p.x.negative() && p.x.mag() <= last
    &&& !p.y.negative() && p.y.mag() <= last
}

spec fn step_on_field(step: OutlineStep, side: nat) -> bool {
    match step {
        OutlineStep::MoveTo(a) => on_field(a, side),
        OutlineStep::LineTo(a) => on_field(a, side),
        OutlineStep::QuadTo(a, b) => on_field(a, side) && on_field(b, side),
        OutlineStep::CurveTo(a, b, c) => {
            on_field(a, side) && on_field(b, side) && on_field(c, side)
        },
        OutlineStep::Close => true,
    }
}

/// Two exponents less is a quarter, one is a half.
pub(crate) proof fn lemma_part(mag: nat, j: nat)
    requires
        mag >= (j + 1) * 0x80_0000,
    ensures
        mag_units((mag - j * 0x80_0000) as nat) * pow2(j) == mag_units(mag),
{
    let e = mag / 0x80_0000;
    let f = mag % 0x80_0000;
    let part = (mag - j * 0x80_0000) as nat;
    assert(part / 0x80_0000 == e - j && part % 0x80_0000 == f);
    lemma_pow2_adds((e - j - 1) as nat, j);
    let (a, b) = (pow2((e - j - 1) as nat), pow2(j));
    assert(((f + 0x80_0000) * a) * b == (f + 0x80_0000) * (a * b)) by (nonlinear_arith);
}

/// A whole number is exact, and at least 1 where it is not 0.
proof fn lemma_number(n: int)
    requires
        -0x1_0000 <= n <= 0x1_0000,
    ensures
        number(n).finite(),
        number(n).value() == n * pow2(149),
        n != 0 ==> number(n).mag() >= ONE,
{
    let k = pow2(149);
    let size = if n < 0 {
        -n
    } else {
        n
    };
    lemma_of_int_exact(n < 0, size as nat);
    assert(-(size * k) == (-size) * k) by (nonlinear_arith);
    if n != 0 {
        lemma_one_units();
        lemma_pow2_pos(149);
        assert(size * k >= k) by (nonlinear_arith)
            requires
                size >= 1,
                k > 0,
        ;
        lemma_units_order(ONE as nat, number(n).mag());
    }
}

/// Half of a number that is not too small is exact.
proof fn lemma_half_exact(x: Binary32)
    requires
        x.finite(),
        x.mag() == 0 || x.mag() >= ONE,
    ensures
        x.times(Binary32 { bits: 0x3f00_0000 }).finite(),
        x.times(Binary32 { bits: 0x3f00_0000 }).negative() == x.negative(),
        2 * x.times(Binary32 { bits: 0x3f00_0000 }).value() == x.value(),
{
    let half = Binary32 { bits: 0x3f00_0000 };
    let k = pow2(149);
    let h = half.units();
    lemma_pow2_values();
    lemma_pow2_pos(149);
    lemma_pow2_adds(23, 125);
    lemma_pow2_adds(1, 148);
    assert(0x3f00_0000nat / 0x80_0000 == 126);
    assert(h == pow2(148));
    let low = if x.mag() == 0 {
        0
    } else {
        (x.mag() - 0x80_0000) as nat
    };
    if x.mag() > 0 {
        lemma_part(x.mag(), 1);
    }
    assert(mag_units(0) == 0);
    let (u, v) = (x.units(), mag_units(low));
    assert(v * k == u * h) by (nonlinear_arith)
        requires
            2 * v == u,
            k == 2 * h,
    ;
    lemma_round32_between(u * h, k, low, low);
    reveal(Binary32::times);
}

/// A sum within bounds.
pub(crate) proof fn lemma_sum_within(a: Binary32, b: Binary32, high: nat)
    requires
        a.finite(),
        b.finite(),
        high < INF_MAG,
        -(mag_units(high) as int) <= a.value() + b.value() <= mag_units(high),
    ensures
        a.plus(b).finite(),
        a.plus(b).mag() <= high,
        a.value() + b.value() >= 0 && !a.negative() ==> !a.plus(b).negative(),
{
    reveal(Binary32::plus);
    let v = a.value() + b.value();
    let n = if v >= 0 {
        v as nat
    } else {
        (-v) as nat
    };
    assert(mag_units(0) == 0);
    lemma_round32_between(n, 1, 0, high);
}

/// The sum of two whole numbers.
proof fn lemma_whole_sum(low: i16, high: i16)
    ensures
        ({
            let sum = number(low as int).plus(number(high as int));
            &&& sum.finite()
            &&& sum.value() == (low + high) * pow2(149)
            &&& sum.mag() == 0 || sum.mag() >= ONE
        }),
{
    let k = pow2(149);
    let n = low + high;
    let (a, b) = (number(low as int), number(high as int));
    lemma_number(low as int);
    lemma_number(high as int);
    lemma_number(n);
    assert(low * k + high * k == n * k) by (nonlinear_arith)
        requires
            n == low + high,
    ;
    lemma_pow2_pos(149);
    assert((n * k == 0 <==> n == 0) && (n * k < 0 <==> n < 0) && (-n) * k == -(n * k))
        by (nonlinear_arith)
        requires
            k > 0,
    ;
    assert(mag_units(0) == 0);
    reveal(Binary32::plus);
    if n == 0 {
        assert(a.plus(b).mag() == 0);
    } else {
        assert(a.plus(b) == number(n));
    }
}

/// The middle of a frame is exact.
pub(crate) proof fn lemma_middle(low: i16, high: i16)
    ensures
        GlyphBox::middle(low, high).finite(),
        2 * GlyphBox::middle(low, high).value() == (low + high) * pow2(149),
{
    lemma_whole_sum(low, high);
    lemma_half_exact(number(low as int).plus(number(high as int)));
}

/// A point within the frame is at most half the frame's side from its middle.
proof fn lemma_frame_offset(low: i16, high: i16, p: Binary32)
    requires
        low < high,
        number(low as int).at_most(p),
        p.at_most(number(high as int)),
    ensures
        ({
            let d = p.plus(GlyphBox::middle(low, high).opposite());
            d.finite() && 2 * d.units() <= (high - low) * pow2(149)
        }),
{
    let k = pow2(149);
    let (a, b) = (number(low as int), number(high as int));
    lemma_number(low as int);
    lemma_number(high as int);
    lemma_rank_orders_values(a, p);
    lemma_rank_orders_values(p, b);
    assert(low * k <= p.value() <= high * k && p.finite());
    let mid = GlyphBox::middle(low, high);
    lemma_middle(low, high);
    let w = high - low;
    assert(high * k - low * k == w * k && low * k + high * k == (low + high) * k)
        by (nonlinear_arith)
        requires
            w == high - low,
    ;
    lemma_edge(w);
    let edge = choose|edge: nat| edge < INF_MAG && 2 * #[trigger] mag_units(edge) == w * k;
    assert(mid.opposite().value() == -mid.value() && mid.opposite().finite());
    lemma_sum_within(p, mid.opposite(), edge);
    lemma_units_order(p.plus(mid.opposite()).mag(), edge);
}

/// Half of a whole number.
proof fn lemma_edge(w: int)
    requires
        1 <= w <= 0x1_0000,
    ensures
        exists|edge: nat| edge < INF_MAG && 2 * #[trigger] mag_units(edge) == w * pow2(149),
{
    lemma_number(w);
    lemma_pow2_pos(149);
    assert(w * pow2(149) > 0) by (nonlinear_arith)
        requires
            w >= 1,
            pow2(149) > 0,
    ;
    let width = number(w);
    lemma_part(width.mag(), 1);
    lemma_pow2_values();
    let edge = (width.mag() - 0x80_0000) as nat;
    assert(2 * mag_units(edge) == w * pow2(149));
}

/// The centre of a field is the half of its side, and the radius at most three eighths.
proof fn lemma_field_measures(size: u32)
    requires
        size <= 8190,
    ensures
        ({
            let c = field_center(size).x;
            let r = field_radius(size);
            &&& c.finite() && !c.negative()
            &&& r.finite() && !r.negative()
            &&& 2 * c.units() == field_side(size) * pow2(149)
            &&& 8 * r.units() <= 3 * field_side(size) * pow2(149)
        }),
{
    let side = field_side(size);
    let k = pow2(149);
    let half = Binary32 { bits: 0x3f00_0000 };
    let wide = Binary32 { bits: 0x3f40_0000 };
    let s = of_int(false, side);
    let c = s.times(half);
    lemma_number(side as int);
    assert(s == number(side as int));
    lemma_half_exact(s);
    let part = Binary32 { bits: 0x3ee6_6666 };
    let t = s.times(part);
    lemma_units_order(part.mag(), half.mag());
    lemma_times_rises(part, half, s);
    lemma_units_order(t.mag(), c.mag());
    let span = Binary32 { bits: crate::glyph::GLYPH_SDF_CONTENT_SPAN_PUB };
    let r = t.times(span);
    lemma_units_order(span.mag(), wide.mag());
    lemma_times_rises(span, wide, t);
    lemma_times_rises(t, c, wide);
    // three quarters of the centre, exactly
    let more = number(3 * side as int);
    lemma_number(3 * side as int);
    lemma_part(more.mag(), 3);
    lemma_pow2_values();
    lemma2_to64();
    let high = (more.mag() - 3 * 0x80_0000) as nat;
    lemma_pow2_adds(23, 125);
    lemma_pow2_adds(1, 148);
    lemma_pow2_adds(1, 147);
    lemma_pow2_adds(22, 125);
    assert(0x3f40_0000nat / 0x80_0000 == 126);
    assert(mag_units(0x3f40_0000) == 0xc0_0000 * pow2(125));
    let (u, v, x) = (c.units(), wide.units(), mag_units(high));
    assert(3 * side * k == 3 * (side * k)) by (nonlinear_arith);
    assert(u * v == x * k) by (nonlinear_arith)
        requires
            2 * u == side * k,
            4 * v == 3 * k,
            8 * x == 3 * (side * k),
    ;
    lemma_pow2_pos(149);
    assert(mag_units(0) == 0);
    assert(0 * k == 0) by (nonlinear_arith);
    lemma_round32_between(u * v, k, 0, high);
    assert(c.times(wide).mag() <= high) by {
        reveal(Binary32::times);
    }
    lemma_units_order(r.mag(), high);
}

/// Twice the radius is at most three quarters of the field.
proof fn lemma_diameter(size: u32) -> (high: nat)
    requires
        size <= 8190,
    ensures
        ({
            let d = (Binary32 { bits: 0x4000_0000 }).times(field_radius(size));
            &&& high < INF_MAG
            &&& 4 * mag_units(high) == 3 * (field_side(size) * pow2(149))
            &&& !d.negative()
            &&& d.mag() <= high
        }),
{
    let side = field_side(size);
    let k = pow2(149);
    let r = field_radius(size);
    let two = Binary32 { bits: 0x4000_0000 };
    lemma_field_measures(size);
    lemma_pow2_pos(149);
    lemma_pow2_values();
    lemma2_to64();
    lemma_pow2_adds(1, 149);
    lemma_pow2_adds(23, 127);
    assert(0x4000_0000nat / 0x80_0000 == 128);
    assert(two.units() == pow2(150));
    let more = number(3 * side as int);
    lemma_number(3 * side as int);
    lemma_part(more.mag(), 2);
    let high = (more.mag() - 2 * 0x80_0000) as nat;
    let (a, b, n) = (two.units(), r.units(), mag_units(high));
    assert(3 * side * k == 3 * (side * k)) by (nonlinear_arith);
    assert(mag_units(0) == 0);
    assert(0 * k <= a * b <= n * k) by (nonlinear_arith)
        requires
            a == 2 * k,
            0 <= 8 * b <= 3 * (side * k),
            4 * n == 3 * (side * k),
    ;
    lemma_round32_between(a * b, k, 0, high);
    reveal(Binary32::times);
    high
}

/// The longer side of a frame.
pub(crate) proof fn lemma_longer_side(f: GlyphBox, m: nat)
    requires
        f.width() > 0,
        f.height() > 0,
        m == if f.width() >= f.height() {
            f.width()
        } else {
            f.height()
        },
    ensures
        ({
            let long = number(f.width()).larger(number(f.height()));
            long.finite() && !long.negative() && long.units() == m * pow2(149) && long.mag() > 0
        }),
{
    let k = pow2(149);
    lemma_pow2_pos(149);
    let (w, h) = (number(f.width()), number(f.height()));
    lemma_number(f.width());
    lemma_number(f.height());
    lemma_rank_orders_values(w, h);
    if f.width() >= f.height() {
        assert(f.width() * k >= f.height() * k > 0) by (nonlinear_arith)
            requires
                f.width() >= f.height() > 0,
                k > 0,
        ;
    } else {
        assert(0 < f.width() * k < f.height() * k) by (nonlinear_arith)
            requires
                0 < f.width() < f.height(),
                k > 0,
        ;
    }
}

/// A quotient by a whole number.
proof fn lemma_scale_quotient(d: Binary32, long: Binary32, high: nat, m: nat, side: nat)
    requires
        !d.negative(),
        d.mag() <= high < INF_MAG,
        4 * mag_units(high) == 3 * (side * pow2(149)),
        long.finite(),
        !long.negative(),
        long.mag() > 0,
        long.units() == m * pow2(149),
        1 <= m <= 0x1_0000,
        side >= 1,
    ensures
        d.over(long).finite(),
        (d.over(long).units() * m) * 0x400_0000 <= (3 * (side * pow2(149))) * 0x100_0001,
{
    let k = pow2(149);
    let n = mag_units(high);
    lemma_pow2_pos(149);
    lemma_pow2_values();
    lemma_units_order(d.mag(), high);
    let mk = m * k;
    assert(mk >= k) by (nonlinear_arith)
        requires
            mk == m * k,
            m >= 1,
            k > 0,
    ;
    let top = round32(n * k, mk);
    let q = d.units();
    assert((q * k) * mk <= (n * k) * mk) by (nonlinear_arith)
        requires
            0 <= q <= n,
            k > 0,
            mk > 0,
    ;
    lemma_round32_monotone(q * k, mk, n * k, mk);
    assert(0 * mk <= n * k <= n * mk) by (nonlinear_arith)
        requires
            0 < k <= mk,
            n >= 0,
    ;
    assert(mag_units(0) == 0);
    lemma_round32_between(n * k, mk, 0, high);
    let scale = d.over(long);
    assert(scale.mag() == round32(q * k, mk) && scale.finite()) by {
        reveal(Binary32::over);
    }
    lemma_units_order(scale.mag(), top);
    lemma_pow2_adds(64, 85);
    lemma_pow2_pos(85);
    assert(k >= 0x1_0000_0000_0000_0000) by (nonlinear_arith)
        requires
            k == pow2(64) * pow2(85),
            pow2(64) == 0x1_0000_0000_0000_0000,
            pow2(85) >= 1,
    ;
    assert(n * k >= 0x80_0000 * mk) by (nonlinear_arith)
        requires
            4 * n == 3 * (side * k),
            side >= 1,
            mk == m * k,
            m <= 0x1_0000,
            k >= 0x1_0000_0000_0000_0000,
    {
        assert(side * k >= k);
        assert(n >= 0x80_0000 * m);
    }
    lemma_round32_close(n * k, mk);
    let (z, y) = (mag_units(top), scale.units());
    assert((y * m) * 0x400_0000 <= (3 * (side * k)) * 0x100_0001) by (nonlinear_arith)
        requires
            (z * mk) * 0x100_0000 <= (n * k) * 0x100_0001,
            mk == m * k,
            4 * n == 3 * (side * k),
            0 <= y <= z,
            k > 0,
    {
        assert((z * mk) * 0x100_0000 == ((z * m) * 0x100_0000) * k);
        assert((n * k) * 0x100_0001 == (n * 0x100_0001) * k);
        assert((z * m) * 0x100_0000 <= n * 0x100_0001);
        assert(y * m <= z * m);
    }
}

/// The scale brings the longer side of a frame to at most three quarters of the field.
proof fn lemma_frame_scale(f: GlyphBox, size: u32, m: nat)
    requires
        size <= 8190,
        f.width() > 0,
        f.height() > 0,
        m == if f.width() >= f.height() {
            f.width()
        } else {
            f.height()
        },
    ensures
        ({
            let scale = f.scale(field_radius(size));
            &&& scale.finite()
            &&& (scale.units() * m) * 0x400_0000 <= (3 * (field_side(size) * pow2(149)))
                * 0x100_0001
        }),
{
    let high = lemma_diameter(size);
    lemma_longer_side(f, m);
    lemma_scale_quotient(
        (Binary32 { bits: 0x4000_0000 }).times(field_radius(size)),
        number(f.width()).larger(number(f.height())),
        high,
        m,
        field_side(size),
    );
}

/// What a point moves from the centre is at most the centre.
proof fn lemma_moved(d: Binary32, scale: Binary32, c: Binary32, m: nat, side: nat)
    requires
        d.finite(),
        scale.finite(),
        c.finite(),
        2 * d.units() <= m * pow2(149),
        (scale.units() * m) * 0x400_0000 <= (3 * (side * pow2(149))) * 0x100_0001,
        2 * c.units() == side * pow2(149),
    ensures
        d.times(scale).finite(),
        d.times(scale).mag() <= c.mag(),
{
    let k = pow2(149);
    lemma_pow2_pos(149);
    let (a, b, u) = (d.units(), scale.units(), c.units());
    let sk = side * k;
    assert(b * m <= sk) by {
        assert(3 * sk * 0x100_0001 <= 4 * sk * 0x100_0000);
    }
    assert(0 * k <= a * b <= u * k) by (nonlinear_arith)
        requires
            0 <= 2 * a <= m * k,
            0 <= b * m <= sk,
            2 * u == sk,
            b >= 0,
            k > 0,
    {
        assert((2 * a) * b <= (m * k) * b);
        assert((m * k) * b == (b * m) * k);
        assert((b * m) * k <= sk * k);
    }
    assert(mag_units(0) == 0);
    lemma_round32_between(a * b, k, 0, c.mag());
    reveal(Binary32::times);
}

/// What is moved from the centre by at most the centre stays on the field.
proof fn lemma_axis(c: Binary32, t: Binary32, side: nat)
    requires
        c.finite(),
        !c.negative(),
        t.finite(),
        t.mag() <= c.mag(),
        2 * c.units() == side * pow2(149),
        1 <= side <= 8190,
    ensures
        !c.plus(t).negative(),
        c.plus(t).mag() <= of_int(false, side).mag(),
        !c.minus(t).negative(),
        c.minus(t).mag() <= of_int(false, side).mag(),
{
    lemma_units_order(t.mag(), c.mag());
    lemma_of_int_exact(false, side);
    let last = of_int(false, side).mag();
    lemma_sum_within(c, t, last);
    assert(t.opposite().value() == -t.value() && t.opposite().finite());
    lemma_sum_within(c, t.opposite(), last);
}

/// A coordinate of the frame comes to lie on the field.
proof fn lemma_coordinate(f: GlyphBox, size: u32, low: i16, high: i16, x: Binary32)
    requires
        size <= 8190,
        f.width() > 0,
        f.height() > 0,
        0 < high - low,
        high - low <= f.width() || high - low <= f.height(),
        number(low as int).at_most(x),
        x.at_most(number(high as int)),
    ensures
        ({
            let c = field_center(size).x;
            let t = x.plus(GlyphBox::middle(low, high).opposite()).times(
                f.scale(field_radius(size)),
            );
            let last = of_int(false, field_side(size)).mag();
            &&& !c.plus(t).negative() && c.plus(t).mag() <= last
            &&& !c.minus(t).negative() && c.minus(t).mag() <= last
        }),
{
    let k = pow2(149);
    let m: nat = if f.width() >= f.height() {
        f.width() as nat
    } else {
        f.height() as nat
    };
    lemma_field_measures(size);
    lemma_frame_scale(f, size, m);
    lemma_frame_offset(low, high, x);
    let d = x.plus(GlyphBox::middle(low, high).opposite());
    assert((high - low) * k <= m * k) by (nonlinear_arith)
        requires
            high - low <= m,
            k >= 0,
    ;
    let c = field_center(size).x;
    lemma_moved(d, f.scale(field_radius(size)), c, m, field_side(size));
    lemma_axis(c, d.times(f.scale(field_radius(size))), field_side(size));
}

/// A point of the frame comes to lie on the field.
proof fn lemma_point_on_field(f: GlyphBox, size: u32, p: OutlinePoint)
    requires
        size <= 8190,
        f.width() > 0,
        f.height() > 0,
        in_frame(f, p),
    ensures
        on_field(
            pixel_point(f, field_center(size), field_radius(size), p),
            field_side(size),
        ),
{
    lemma_coordinate(f, size, f.x_min, f.x_max, p.x);
    lemma_coordinate(f, size, f.y_min, f.y_max, p.y);
}

/// Twice the side of a field is no more than what a curve may span.
proof fn lemma_side_limit(side: nat)
    requires
        1 <= side <= 8190,
    ensures
        of_int(false, side).mag() <= of_int(false, 2 * side).mag() <= 0x467f_f000,
        2 * of_int(false, side).units() == of_int(false, 2 * side).units(),
{
    let k = pow2(149);
    lemma_of_int_exact(false, side);
    lemma_of_int_exact(false, 2 * side);
    lemma_pow2_values();
    lemma2_to64();
    lemma_pow2_pos(149);
    lemma_pow2_adds(10, 139);
    assert(0x467f_f000nat / 0x80_0000 == 140);
    assert(mag_units(0x467f_f000) == 0xff_f000 * pow2(139));
    assert((2 * side) * k == 2 * (side * k) && (2 * side) * k <= 16380 * k) by (nonlinear_arith)
        requires
            side <= 8190,
            k > 0,
    ;
    lemma_units_order(of_int(false, side).mag(), of_int(false, 2 * side).mag());
    lemma_units_order(of_int(false, 2 * side).mag(), 0x467f_f000);
}

/// Two coordinates on a field are no farther apart than its sides.
proof fn lemma_gap_on_field(a: Binary32, b: Binary32, last: nat)
    requires
        !a.negative(),
        !b.negative(),
        a.mag() <= last < INF_MAG,
        b.mag() <= last,
    ensures
        a.minus(b).finite(),
        a.minus(b).mag() <= last,
{
    lemma_units_order(a.mag(), last);
    lemma_units_order(b.mag(), last);
    assert(b.opposite().value() == -b.value() && b.opposite().finite());
    lemma_sum_within(a, b.opposite(), last);
}

/// The sum of two gaps.
proof fn lemma_gap_sum(dx: Binary32, dy: Binary32, last: nat, twice: nat)
    requires
        !dx.negative(),
        !dy.negative(),
        dx.mag() <= last < INF_MAG,
        dy.mag() <= last,
        twice < INF_MAG,
        2 * mag_units(last) == mag_units(twice),
    ensures
        dx.plus(dy).finite(),
        !dx.plus(dy).negative(),
        dx.plus(dy).mag() <= twice,
{
    lemma_units_order(dx.mag(), last);
    lemma_units_order(dy.mag(), last);
    lemma_sum_within(dx, dy, twice);
}

/// Points on a field of up to 8190 pixels a side are near and close together.
proof fn lemma_field_is_tight(p: OutlinePoint, q: OutlinePoint, side: nat)
    requires
        1 <= side <= 8190,
        on_field(p, side),
        on_field(q, side),
    ensures
        near(p),
        short(p, q),
        tight(p, q),
{
    let last = of_int(false, side).mag();
    let twice = of_int(false, 2 * side).mag();
    lemma_side_limit(side);
    lemma_gap_on_field(p.x, q.x, last);
    lemma_gap_on_field(p.y, q.y, last);
    let (dx, dy) = (p.x.minus(q.x).absolute(), p.y.minus(q.y).absolute());
    assert(!dx.negative() && dx.mag() == p.x.minus(q.x).mag());
    assert(!dy.negative() && dy.mag() == p.y.minus(q.y).mag());
    lemma_gap_sum(dx, dy, last, twice);
}

/// The pen stays on the field.
proof fn lemma_pen_on_field(path: Seq<OutlineStep>, n: nat, side: nat)
    requires
        n <= path.len(),
        forall|i: int| 0 <= i < path.len() ==> step_on_field(#[trigger] path[i], side),
    ensures
        on_field(pen(path, n).0, side),
        on_field(pen(path, n).1, side),
    decreases n,
{
    if n > 0 {
        lemma_pen_on_field(path, (n - 1) as nat, side);
        assert(step_on_field(path[n - 1], side));
    }
}

/// A step on the field can be drawn.
proof fn lemma_step_on_field(start: OutlinePoint, at: OutlinePoint, step: OutlineStep, side: nat)
    requires
        1 <= side <= 8190,
        on_field(start, side),
        on_field(at, side),
        step_on_field(step, side),
    ensures
        step_short(start, at, step),
{
    reveal(step_short);
    match step {
        OutlineStep::MoveTo(a) => {
            lemma_field_is_tight(a, a, side);
            lemma_field_is_tight(at, start, side);
        },
        OutlineStep::LineTo(a) => {
            lemma_field_is_tight(a, a, side);
            lemma_field_is_tight(at, a, side);
        },
        OutlineStep::QuadTo(a, b) => {
            lemma_field_is_tight(at, a, side);
            lemma_field_is_tight(at, b, side);
            lemma_field_is_tight(a, b, side);
            lemma_field_is_tight(b, b, side);
        },
        OutlineStep::CurveTo(a, b, c) => {
            lemma_field_is_tight(at, a, side);
            lemma_field_is_tight(at, b, side);
            lemma_field_is_tight(at, c, side);
            lemma_field_is_tight(a, b, side);
            lemma_field_is_tight(a, c, side);
            lemma_field_is_tight(b, c, side);
            lemma_field_is_tight(c, c, side);
        },
        OutlineStep::Close => {
            lemma_field_is_tight(at, start, side);
        },
    }
}

/// A path dwells nowhere for more steps than it has.
proof fn lemma_dwelling(path: Seq<OutlineStep>, n: nat)
    ensures
        dwelling(path, n).1 <= n,
    decreases n,
{
    if n > 0 {
        lemma_dwelling(path, (n - 1) as nat);
    }
}

/// A glyph whose outline lies within its frame and has at most 2700 steps can be filled on
/// every field of at most 8190 pixels a side, so that its distance field comes out.
pub proof fn lemma_framed_outline_fills(f: GlyphBox, steps: Seq<OutlineStep>, size: u32)
    requires
        size <= 8190,
        steps.len() <= 2700,
        forall|i: int| 0 <= i < steps.len() ==> step_in_frame(f, #[trigger] steps[i]),
    ensures
        fillable(Some(f), steps, size),
{
    let side = field_side(size);
    if let Some(path) = field_path(Some(f), steps, size) {
        assert forall|i: int| 0 <= i < path.len() implies step_on_field(#[trigger] path[i], side) by {
            assert(step_in_frame(f, steps[i]));
            match steps[i] {
                OutlineStep::MoveTo(a) => {
                    lemma_point_on_field(f, size, a);
                },
                OutlineStep::LineTo(a) => {
                    lemma_point_on_field(f, size, a);
                },
                OutlineStep::QuadTo(a, b) => {
                    lemma_point_on_field(f, size, a);
                    lemma_point_on_field(f, size, b);
                },
                OutlineStep::CurveTo(a, b, c) => {
                    lemma_point_on_field(f, size, a);
                    lemma_point_on_field(f, size, b);
                    lemma_point_on_field(f, size, c);
                },
                OutlineStep::Close => {},
            }
        }
        assert forall|i: int| 0 <= i < path.len() implies step_short(
            pen(path, i as nat).0,
            pen(path, i as nat).1,
            #[trigger] path[i],
        ) by {
            lemma_pen_on_field(path, i as nat, side);
            lemma_step_on_field(pen(path, i as nat).0, pen(path, i as nat).1, path[i], side);
        }
        lemma_pen_on_field(path, path.len(), side);
        lemma_field_is_tight(pen(path, path.len()).1, pen(path, path.len()).0, side);
        assert forall|n: nat| n <= path.len() implies (#[trigger] dwelling(path, n)).1 <= 2700 by {
            lemma_dwelling(path, n);
        }
    }
}

} // verus!
