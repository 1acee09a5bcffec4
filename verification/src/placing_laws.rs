//! Where the outline of a glyph comes to lie.

use crate::binary32::{mag_units, round32, Binary32, INF_MAG};
use crate::binary32_laws::{lemma_round32_between, lemma_units_order};
use crate::glyph::{glyph_path, number, pen, GlyphBox, OutlinePoint, OutlineStep};
use crate::glyph_laws::{lemma_longer_side, lemma_middle, lemma_sum_within};
use crate::nearness::{lemma_near_scaled, lemma_round32_near};
use crate::rounding::{above, half_even, lemma_pow2_values, ulp_shift};
use crate::scaling::lemma_round32_close;
use vstd::arithmetic::div_mod::lemma_fundamental_div_mod;
use vstd::arithmetic::power2::{lemma2_to64, lemma_pow2_adds, lemma_pow2_pos, pow2};
use vstd::prelude::*;

verus! {

/// Where a single point of an outline comes to lie: where the path of an outline that only
/// moves there starts.
pub open spec fn placed(
    frame: GlyphBox,
    center: OutlinePoint,
    radius: Binary32,
    p: OutlinePoint,
) -> OutlinePoint {
    match glyph_path(Some(frame), seq![OutlineStep::MoveTo(p)], center, radius) {
        Some(path) => match path[0] {
            OutlineStep::MoveTo(q) => q,
            _ => p,
        },
        None => p,
    }
}

/// A path takes the steps of its outline, one for one and in their order, each of the same
/// kind, and each point of a step, first control points and then the end, goes where that
/// point alone would go.
#[verifier::rlimit(40)]
pub proof fn lemma_path_keeps_the_steps(
    frame: GlyphBox,
    steps: Seq<OutlineStep>,
    center: OutlinePoint,
    radius: Binary32,
    path: Seq<OutlineStep>,
)
    requires
        glyph_path(Some(frame), steps, center, radius) == Some(path),
    ensures
        path.len() == steps.len(),
        forall|i: int|
            0 <= i < steps.len() ==> #[trigger] path[i] == match steps[i] {
                OutlineStep::MoveTo(a) => OutlineStep::MoveTo(placed(frame, center, radius, a)),
                OutlineStep::LineTo(a) => OutlineStep::LineTo(placed(frame, center, radius, a)),
                OutlineStep::QuadTo(a, b) => OutlineStep::QuadTo(
                    placed(frame, center, radius, a),
                    placed(frame, center, radius, b),
                ),
                OutlineStep::CurveTo(a, b, c) => OutlineStep::CurveTo(
                    placed(frame, center, radius, a),
                    placed(frame, center, radius, b),
                    placed(frame, center, radius, c),
                ),
                OutlineStep::Close => OutlineStep::Close,
            },
{
}

/// While a path is drawn the pen is always where the pen of the outline would come to lie,
/// and so is the start of the contour.
pub proof fn lemma_path_moves_the_pen(
    frame: GlyphBox,
    steps: Seq<OutlineStep>,
    center: OutlinePoint,
    radius: Binary32,
    path: Seq<OutlineStep>,
    n: nat,
)
    requires
        glyph_path(Some(frame), steps, center, radius) == Some(path),
        steps[0] is MoveTo,
        0 < n <= steps.len(),
    ensures
        pen(path, n).0 == placed(frame, center, radius, pen(steps, n).0),
        pen(path, n).1 == placed(frame, center, radius, pen(steps, n).1),
    decreases n,
{
    lemma_path_keeps_the_steps(frame, steps, center, radius, path);
    let i = n - 1;
    let (a, b) = (path[i], steps[i]);
    if n > 1 {
        lemma_path_moves_the_pen(frame, steps, center, radius, path, (n - 1) as nat);
    }
}

/// Rounding changes a number by at most one part in `2^24` or half a unit.
#[verifier::rlimit(40)]
pub(crate) proof fn lemma_round32_off(n: nat, d: nat)
    requires
        d > 0,
        round32(n, d) < INF_MAG,
    ensures
        -(n + 0x80_0000 * d) <= (mag_units(round32(n, d)) * d - n) * 0x100_0000 <= n + 0x80_0000
            * d,
{
    let u = mag_units(round32(n, d));
    let ud = u * d;
    if n >= 0x80_0000 * d {
        lemma_round32_close(n, d);
        assert((ud - n) * 0x100_0000 == ud * 0x100_0000 - n * 0x100_0000);
    } else {
        lemma_pow2_values();
        assert(d * pow2(24) >= d * 0x80_0000) by (nonlinear_arith)
            requires
                pow2(24) == 0x100_0000,
                d >= 0,
        ;
        assert(ulp_shift(24, n, d) == 0);
        assert(d * 1 == d);
        let m = half_even(n, d);
        lemma_fundamental_div_mod(n as int, d as int);
        let q = n / d;
        assert(q < 0x80_0000) by (nonlinear_arith)
            requires
                d * q <= n,
                n < 0x80_0000 * d,
                d > 0,
        ;
        assert(m <= 0x80_0000);
        assert(mag_units(m) == m) by {
            if m == 0x80_0000 {
                lemma2_to64();
                lemma_power_units(0x80_0000, 23);
            } else {
                assert(m / 0x80_0000 == 0 && m % 0x80_0000 == m);
            }
        }
        assert(d * q == q * d && (q + 1) * d == q * d + d) by (nonlinear_arith);
        assert(-(d as int) <= 2 * (ud - n) <= d);
    }
}

/// A rounded sum of numbers of any sign.
#[verifier::rlimit(40)]
pub(crate) proof fn lemma_sum_off(a: Binary32, b: Binary32)
    requires
        a.finite(),
        b.finite(),
        a.plus(b).finite(),
    ensures
        ({
            let v = a.value() + b.value();
            let e = (a.plus(b).value() - v) * 0x100_0000;
            let size = if v >= 0 {
                v
            } else {
                -v
            };
            -size <= e <= size
        }),
{
    let v = a.value() + b.value();
    let n = above(v) + above(-v);
    reveal(Binary32::plus);
    assert(mag_units(0) == 0);
    if v != 0 {
        assert(round32(n, 1) <= INF_MAG);
        lemma_round32_near(n, 1);
        let u = mag_units(round32(n, 1));
        assert(u * 1 == u);
        assert(a.plus(b).units() == u);
    }
}

/// A rounded product of numbers of any sign.
#[verifier::rlimit(40)]
pub(crate) proof fn lemma_product_off(a: Binary32, b: Binary32)
    requires
        a.finite(),
        b.finite(),
        a.times(b).finite(),
    ensures
        ({
            let v = a.value() * b.value();
            let e = (a.times(b).value() * pow2(149) - v) * 0x100_0000;
            let size = if v >= 0 {
                v
            } else {
                -v
            } + 0x80_0000 * pow2(149);
            -size <= e <= size
        }),
{
    let k = pow2(149);
    lemma_pow2_pos(149);
    reveal(Binary32::times);
    let (x, y) = (a.units(), b.units());
    let n = x * y;
    assert(round32(n, k) <= INF_MAG);
    lemma_round32_off(n, k);
    let u = mag_units(round32(n, k));
    assert(a.times(b).units() == u);
    assert(n >= 0) by (nonlinear_arith)
        requires
            n == x * y,
            x >= 0,
            y >= 0,
    ;
    assert((-(x as int)) * y == -(n as int) && x * (-(y as int)) == -(n as int) && (-(x as int))
        * (-(y as int)) == n && (-(u as int)) * k == -(u * k)) by (nonlinear_arith)
        requires
            n == x * y,
    ;
}

/// A product is no larger than the product of the bounds.
pub(crate) proof fn lemma_product_within(a: int, b: int, x: int, y: int)
    requires
        -x <= a <= x,
        -y <= b <= y,
    ensures
        -(x * y) <= a * b <= x * y,
{
    assert(-(x * y) <= a * b <= x * y) by (nonlinear_arith)
        requires
            -x <= a <= x,
            -y <= b <= y,
    {
        if a >= 0 {
            assert(a * b <= a * y && a * b >= a * (-y));
            assert(a * y <= x * y && a * (-y) == -(a * y));
        } else {
            assert((-a) * b <= (-a) * y && (-a) * b >= (-a) * (-y));
            assert((-a) * y <= x * y && (-a) * (-y) == -((-a) * y) && (-a) * b == -(a * b));
        }
    }
}

pub open spec fn size_of(v: int) -> int {
    if v >= 0 {
        v
    } else {
        -v
    }
}

/// The errors of the steps to a coordinate add up.
#[verifier::rlimit(40)]
proof fn lemma_offset_chain(
    twice: int,
    d: int,
    s: int,
    l: int,
    r: int,
    t: int,
    c: int,
    q: int,
    k: int,
)
    requires
        -size_of(twice) <= (2 * d - twice) * 0x100_0000 <= size_of(twice),
        -(2 * r) <= (s * l - 2 * r) * 0x100_0000 <= 2 * r,
        -(size_of(d * s) + 0x80_0000 * k) <= (t * k - d * s) * 0x100_0000 <= size_of(d * s)
            + 0x80_0000 * k,
        -size_of(c + t) <= (q - (c + t)) * 0x100_0000 <= size_of(c + t),
        s >= 0,
        l >= 1,
        r >= 0,
        k >= 0x100_0000,
    ensures
        -(size_of(twice) * r + (size_of(c) + k) * (l * k)) <= ((q - c) * (l * k) - twice * r)
            * 0x10_0000 <= size_of(twice) * r + (size_of(c) + k) * (l * k),
{
    let a = size_of(twice);
    let lk = l * k;
    let ar = a * r;
    // twice the distance, scaled
    let f = 2 * d - twice;
    let fr = f * r;
    lemma_product_within(f * 0x100_0000, r, a, r);
    assert((f * 0x100_0000) * r == fr * 0x100_0000) by (nonlinear_arith)
        requires
            fr == f * r,
    ;
    // the scale
    let g = s * l - 2 * r;
    let h = size_of(2 * d);
    assert(h * 0x100_0000 <= a * 0x100_0001);
    let dg = (2 * d) * g;
    lemma_product_within(2 * d, g * 0x100_0000, h, 2 * r);
    assert((2 * d) * (g * 0x100_0000) == dg * 0x100_0000) by (nonlinear_arith)
        requires
            dg == (2 * d) * g,
    ;
    let hr = h * r;
    assert(h * (2 * r) == 2 * hr) by (nonlinear_arith)
        requires
            hr == h * r,
    ;
    assert(hr * 0x100_0000 <= ar * 0x100_0001) by (nonlinear_arith)
        requires
            hr == h * r,
            ar == a * r,
            h * 0x100_0000 <= a * 0x100_0001,
            r >= 0,
    ;
    assert(-(2 * hr) <= dg * 0x100_0000 <= 2 * hr);
    // the product
    let ds = d * s;
    let sl = s * l;
    let dsl = ds * l;
    let tk = t * k;
    let m = tk - ds;
    let ml = m * l;
    assert(2 * dsl == (2 * d) * sl) by (nonlinear_arith)
        requires
            dsl == ds * l,
            ds == d * s,
            sl == s * l,
    ;
    assert((2 * d) * sl == dg + 2 * ((2 * d) * r)) by (nonlinear_arith)
        requires
            dg == (2 * d) * g,
            g == sl - 2 * r,
    ;
    assert((2 * d) * r == fr + twice * r) by (nonlinear_arith)
        requires
            fr == f * r,
            f == 2 * d - twice,
    ;
    lemma_product_within(twice, r, a, r);
    let w = twice * r;
    assert(2 * dsl == dg + 2 * fr + 2 * w);
    assert(size_of(ds) * l == size_of(dsl)) by (nonlinear_arith)
        requires
            dsl == ds * l,
            l >= 1,
    ;
    lemma_product_within(m * 0x100_0000, l, size_of(ds) + 0x80_0000 * k, l);
    assert((m * 0x100_0000) * l == ml * 0x100_0000 && (size_of(ds) + 0x80_0000 * k) * l == size_of(
        ds,
    ) * l + 0x80_0000 * lk) by (nonlinear_arith)
        requires
            ml == m * l,
            lk == l * k,
    ;
    assert(-(size_of(dsl) + 0x80_0000 * lk) <= ml * 0x100_0000 <= size_of(dsl) + 0x80_0000 * lk);
    // the sum
    let e = q - (c + t);
    let elk = e * lk;
    assert(lk >= k) by (nonlinear_arith)
        requires
            lk == l * k,
            l >= 1,
            k >= 0,
    ;
    lemma_product_within(e * 0x100_0000, lk, size_of(c + t), lk);
    assert((e * 0x100_0000) * lk == elk * 0x100_0000) by (nonlinear_arith)
        requires
            elk == e * lk,
    ;
    let clk = size_of(c) * lk;
    let tlk = t * lk;
    assert(tlk == ml + dsl) by (nonlinear_arith)
        requires
            tlk == t * lk,
            lk == l * k,
            ml == m * l,
            m == tk - ds,
            tk == t * k,
            dsl == ds * l,
    ;
    assert(size_of(c + t) * lk <= clk + size_of(tlk)) by (nonlinear_arith)
        requires
            clk == size_of(c) * lk,
            tlk == t * lk,
            lk >= 0,
            size_of(c + t) <= size_of(c) + size_of(t),
    {
        assert(size_of(t) * lk == size_of(t * lk));
        assert(size_of(c + t) * lk <= (size_of(c) + size_of(t)) * lk);
    }
    assert((q - c) * lk == elk + tlk) by (nonlinear_arith)
        requires
            elk == e * lk,
            e == q - (c + t),
            tlk == t * lk,
    ;
    assert((size_of(c) + k) * lk == clk + k * lk) by (nonlinear_arith)
        requires
            clk == size_of(c) * lk,
    ;
    assert(k * lk >= 0x100_0000 * lk) by (nonlinear_arith)
        requires
            k >= 0x100_0000,
            lk >= 0,
    ;
    lemma_offset_total(ar, fr, dg, hr, dsl, ml, lk, elk, tlk, clk, w, k * lk);
}

#[verifier::rlimit(40)]
proof fn lemma_offset_total(
    ar: int,
    fr: int,
    dg: int,
    hr: int,
    dsl: int,
    ml: int,
    lk: int,
    elk: int,
    tlk: int,
    clk: int,
    w: int,
    klk: int,
)
    requires
        -ar <= fr * 0x100_0000 <= ar,
        hr * 0x100_0000 <= ar * 0x100_0001,
        -(2 * hr) <= dg * 0x100_0000 <= 2 * hr,
        -ar <= w <= ar,
        2 * dsl == dg + 2 * fr + 2 * w,
        -(size_of(dsl) + 0x80_0000 * lk) <= ml * 0x100_0000 <= size_of(dsl) + 0x80_0000 * lk,
        tlk == ml + dsl,
        -(clk + size_of(tlk)) <= elk * 0x100_0000 <= clk + size_of(tlk),
        lk >= 0,
        clk >= 0,
        klk >= 0x100_0000 * lk,
    ensures
        -(ar + clk + klk) <= (elk + tlk - w) * 0x10_0000 <= ar + clk + klk,
{
}

/// A whole power of two as a number.
pub(crate) proof fn lemma_power_units(mag: nat, e: nat)
    requires
        mag == (e - 22) * 0x80_0000,
        e >= 23,
    ensures
        mag_units(mag) == pow2(e),
{
    lemma_pow2_values();
    lemma_pow2_adds(23, (e - 23) as nat);
    assert(mag / 0x80_0000 == e - 22 && mag % 0x80_0000 == 0);
}

/// The bounds within which coordinates and lengths are placed: a point within `2^16` font
/// units, a centre within `2^64` pixels, a radius of `2^-64` to `2^64` pixels.
pub open spec fn placeable(x: Binary32, c: Binary32, radius: Binary32) -> bool {
    &&& x.absolute().at_most(Binary32 { bits: 0x4780_0000 })
    &&& c.absolute().at_most(Binary32 { bits: 0x5f80_0000 })
    &&& (Binary32 { bits: 0x1f80_0000 }).at_most(radius)
    &&& radius.at_most(Binary32 { bits: 0x5f80_0000 })
}

/// The bounds in units.
proof fn lemma_placeable(x: Binary32, c: Binary32, radius: Binary32)
    requires
        placeable(x, c, radius),
    ensures
        x.finite(),
        x.units() <= pow2(165),
        c.finite(),
        c.units() <= pow2(213),
        radius.finite(),
        !radius.negative(),
        pow2(85) <= radius.units() <= pow2(213),
{
    lemma_power_units(0x4780_0000, 165);
    lemma_power_units(0x5f80_0000, 213);
    lemma_power_units(0x1f80_0000, 85);
    lemma_units_order(x.mag(), 0x4780_0000);
    lemma_units_order(c.mag(), 0x5f80_0000);
    lemma_units_order(radius.mag(), 0x5f80_0000);
    lemma_units_order(0x1f80_0000, radius.mag());
}

/// The distance from the middle of the frame.
#[verifier::rlimit(40)]
proof fn lemma_distance(low: i16, high: i16, x: Binary32)
    requires
        x.finite(),
        x.units() <= pow2(165),
    ensures
        ({
            let d = x.plus(GlyphBox::middle(low, high).opposite());
            let twice = 2 * x.value() - (low + high) * pow2(149);
            &&& d.finite()
            &&& d.units() <= pow2(167)
            &&& -size_of(twice) <= (2 * d.value() - twice) * 0x100_0000 <= size_of(twice)
        }),
{
    let k = pow2(149);
    let m = GlyphBox::middle(low, high);
    lemma_middle(low, high);
    let o = m.opposite();
    assert(o.value() == -m.value() && o.finite());
    lemma_power_units(0x4880_0000, 167);
    lemma_pow2_adds(149, 16);
    lemma_pow2_adds(149, 18);
    lemma_pow2_values();
    lemma2_to64();
    let s = low + high;
    lemma_pow2_pos(149);
    assert(-(0x1_0000 * k) <= s * k <= 0x1_0000 * k) by (nonlinear_arith)
        requires
            -0x1_0000 <= s <= 0x1_0000,
            k > 0,
    ;
    assert(pow2(165) == k * 0x1_0000 && pow2(167) == k * 0x4_0000);
    lemma_sum_within(x, o, 0x4880_0000);
    lemma_units_order(x.plus(o).mag(), 0x4880_0000);
    lemma_sum_off(x, o);
}

/// The number of pixels for a font unit, times the longer side.
#[verifier::rlimit(40)]
proof fn lemma_scale(f: GlyphBox, radius: Binary32, m: nat)
    requires
        radius.finite(),
        !radius.negative(),
        pow2(85) <= radius.units() <= pow2(213),
        f.width() > 0,
        f.height() > 0,
        m == if f.width() >= f.height() {
            f.width()
        } else {
            f.height()
        },
    ensures
        ({
            let s = f.scale(radius);
            let r = radius.units() as int;
            &&& s.finite()
            &&& !s.negative()
            &&& s.units() <= pow2(214)
            &&& -(2 * r) <= (s.units() * m - 2 * r) * 0x100_0000 <= 2 * r
        }),
{
    let k = pow2(149);
    let r = radius.units();
    let two = Binary32 { bits: 0x4000_0000 };
    lemma_pow2_pos(149);
    lemma_pow2_values();
    lemma_power_units(0x4000_0000, 150);
    lemma_pow2_adds(1, 149);
    lemma_power_units(0x6000_0000, 214);
    lemma_pow2_adds(1, 213);
    // twice the radius is exact
    let e = radius.mag() / 0x80_0000;
    lemma_power_units(0x1f80_0000, 85);
    lemma_units_order(0x1f80_0000, radius.mag());
    lemma_power_units(0x5f80_0000, 213);
    lemma_units_order(radius.mag(), 0x5f80_0000);
    let up = radius.mag() + 0x80_0000;
    assert(up / 0x80_0000 == e + 1 && up % 0x80_0000 == radius.mag() % 0x80_0000);
    lemma_pow2_adds((e - 1) as nat, 1);
    let f0 = radius.mag() % 0x80_0000 + 0x80_0000;
    let g = pow2((e - 1) as nat);
    assert(f0 * (g * 2) == 2 * (f0 * g)) by (nonlinear_arith);
    assert(mag_units(up) == 2 * r);
    let d = two.times(radius);
    assert((2 * k) * r == (2 * r) * k) by (nonlinear_arith);
    lemma_round32_between(two.units() * r, k, up, up);
    assert(d.mag() == up && !d.negative()) by {
        reveal(Binary32::times);
    }
    lemma_longer_side(f, m);
    let long = number(f.width()).larger(number(f.height()));
    let mk = m * k;
    let dk = d.units() * k;
    lemma_scale_room(r, m, k);
    lemma_round32_between(dk, mk, 0, up);
    let s = d.over(long);
    assert(s.mag() == round32(dk, mk) && !s.negative()) by {
        reveal(Binary32::over);
    }
    lemma_units_order(s.mag(), up);
    lemma_round32_near(dk, mk);
    let u = s.units();
    assert(u * mk == (u * m) * k) by (nonlinear_arith)
        requires
            mk == m * k,
    ;
    lemma_near_scaled((u * m) as int, 2 * r as int, 0x100_0000, k as int);
}

/// The scale is neither too small nor too large to be rounded well.
#[verifier::rlimit(40)]
proof fn lemma_scale_room(r: nat, m: nat, k: nat)
    requires
        k == pow2(149),
        pow2(85) <= r <= pow2(213),
        1 <= m <= 0x1_0000,
    ensures
        m * k > 0,
        mag_units(0) * (m * k) <= (2 * r) * k <= (2 * r) * (m * k),
        (2 * r) * k >= 0x80_0000 * (m * k),
{
    lemma_pow2_pos(149);
    lemma_pow2_values();
    lemma_pow2_adds(64, 21);
    lemma_pow2_pos(21);
    assert(mag_units(0) == 0);
    assert(pow2(85) >= 0x1_0000_0000_0000_0000) by (nonlinear_arith)
        requires
            pow2(85) == pow2(64) * pow2(21),
            pow2(64) == 0x1_0000_0000_0000_0000,
            pow2(21) >= 1,
    ;
    let mk = m * k;
    assert(mk >= k && 0 * mk <= (2 * r) * k <= (2 * r) * mk && (2 * r) * k >= 0x80_0000 * mk)
        by (nonlinear_arith)
        requires
            mk == m * k,
            1 <= m <= 0x1_0000,
            k > 0,
            r >= 0x1_0000_0000_0000_0000,
    {
        assert(mk >= k);
        assert((2 * r) * mk >= (2 * r) * k);
        assert(mk <= 0x1_0000 * k);
        assert((2 * r) * k >= 0x2_0000_0000_0000_0000 * k);
    }
}

/// What is added to the centre.
#[verifier::rlimit(40)]
proof fn lemma_part_off(d: Binary32, s: Binary32)
    requires
        d.finite(),
        s.finite(),
        d.units() <= pow2(167),
        s.units() <= pow2(214),
    ensures
        ({
            let t = d.times(s);
            let v = d.value() * s.value();
            let k = pow2(149) as int;
            &&& t.finite()
            &&& t.units() <= pow2(232)
            &&& -(size_of(v) + 0x80_0000 * k) <= (t.value() * k - v) * 0x100_0000 <= size_of(v)
                + 0x80_0000 * k
        }),
{
    let k = pow2(149);
    let t = d.times(s);
    let (x, y) = (d.units(), s.units());
    lemma_pow2_pos(149);
    lemma_pow2_adds(167, 214);
    lemma_pow2_adds(232, 149);
    lemma_power_units(0x6900_0000, 232);
    assert(mag_units(0) == 0);
    assert(0 * k <= x * y <= pow2(232) * k) by (nonlinear_arith)
        requires
            0 <= x <= pow2(167),
            0 <= y <= pow2(214),
            pow2(167) * pow2(214) == pow2(232) * k,
            k >= 0,
    ;
    lemma_round32_between(x * y, k, 0, 0x6900_0000);
    assert(t.mag() == round32(x * y, k)) by {
        reveal(Binary32::times);
    }
    lemma_units_order(t.mag(), 0x6900_0000);
    lemma_product_off(d, s);
}

/// What comes of the centre.
#[verifier::rlimit(40)]
proof fn lemma_moved_off(c: Binary32, t: Binary32)
    requires
        c.finite(),
        t.finite(),
        c.units() <= pow2(213),
        t.units() <= pow2(232),
    ensures
        ({
            let w = c.value() + t.value();
            -size_of(w) <= (c.plus(t).value() - w) * 0x100_0000 <= size_of(w)
        }),
{
    lemma_power_units(0x6980_0000, 233);
    lemma_pow2_adds(232, 1);
    lemma_pow2_adds(213, 19);
    lemma_pow2_pos(19);
    lemma2_to64();
    assert(pow2(213) <= pow2(232)) by (nonlinear_arith)
        requires
            pow2(232) == pow2(213) * pow2(19),
            pow2(19) >= 1,
            pow2(213) >= 0,
    ;
    lemma_sum_within(c, t, 0x6980_0000);
    lemma_sum_off(c, t);
}

/// Whether `q` lies from the centre `c` as far as `x` lies from the middle of `low` and
/// `high`, at twice the radius for `long`: off by at most a millionth of both distances and of
/// a pixel. Each number is a count of units, `one` of them for 1.
pub open spec fn at_scale(
    q: int,
    c: int,
    x: int,
    low: int,
    high: int,
    radius: int,
    long: int,
    one: int,
) -> bool {
    let twice = 2 * x - (low + high) * one;
    let slack = size_of(twice) * radius + (size_of(c) + one) * (long * one);
    -slack <= ((q - c) * (long * one) - twice * radius) * 0x10_0000 <= slack
}

/// A distance, scaled and taken to either side of the centre.
#[verifier::rlimit(40)]
proof fn lemma_side_off(twice: int, d: Binary32, s: Binary32, c: Binary32, m: int, r: int)
    requires
        d.finite(),
        s.finite(),
        c.finite(),
        !s.negative(),
        d.units() <= pow2(167),
        s.units() <= pow2(214),
        c.units() <= pow2(213),
        -size_of(twice) <= (2 * d.value() - twice) * 0x100_0000 <= size_of(twice),
        -(2 * r) <= (s.units() * m - 2 * r) * 0x100_0000 <= 2 * r,
        m >= 1,
        r >= 0,
    ensures
        ({
            let t = d.times(s);
            let k = pow2(149) as int;
            let slack = size_of(twice) * r + (size_of(c.value()) + k) * (m * k);
            let (q, p) = (c.plus(t).value(), c.minus(t).value());
            &&& -slack <= ((q - c.value()) * (m * k) - twice * r) * 0x10_0000 <= slack
            &&& -slack <= ((c.value() - p) * (m * k) - twice * r) * 0x10_0000 <= slack
        }),
{
    let k = pow2(149);
    lemma2_to64();
    lemma_pow2_adds(24, 125);
    lemma_pow2_pos(125);
    assert(k >= 0x100_0000) by (nonlinear_arith)
        requires
            k == pow2(24) * pow2(125),
            pow2(24) == 0x100_0000,
            pow2(125) >= 1,
    ;
    let t = d.times(s);
    lemma_part_off(d, s);
    lemma_moved_off(c, t);
    let o = t.opposite();
    assert(o.value() == -t.value() && o.finite() && o.units() == t.units());
    lemma_moved_off(c, o);
    let (dv, sv, tv, cv) = (d.value(), s.value(), t.value(), c.value());
    let (q, p) = (c.plus(t).value(), c.minus(t).value());
    assert(c.minus(t) == c.plus(o));
    lemma_offset_chain(twice, dv, sv, m, r, tv, cv, q, k as int);
    lemma_offset_chain(twice, dv, sv, m, r, tv, -cv, -p, k as int);
}

/// One coordinate, to either side of the centre.
#[verifier::rlimit(40)]
proof fn lemma_axis_off(
    f: GlyphBox,
    radius: Binary32,
    low: i16,
    high: i16,
    x: Binary32,
    c: Binary32,
    m: nat,
)
    requires
        f.width() > 0,
        f.height() > 0,
        placeable(x, c, radius),
        m == if f.width() >= f.height() {
            f.width()
        } else {
            f.height()
        },
    ensures
        ({
            let t = x.plus(GlyphBox::middle(low, high).opposite()).times(f.scale(radius));
            let (l, h) = (low as int, high as int);
            let (r, one) = (radius.value(), pow2(149) as int);
            let (q, p) = (c.plus(t).value(), c.minus(t).value());
            &&& at_scale(q, c.value(), x.value(), l, h, r, m as int, one)
            &&& at_scale(-p, -c.value(), x.value(), l, h, r, m as int, one)
        }),
{
    lemma_placeable(x, c, radius);
    lemma_scale(f, radius, m);
    lemma_distance(low, high, x);
    lemma_side_off(
        2 * x.value() - (low + high) * pow2(149),
        x.plus(GlyphBox::middle(low, high).opposite()),
        f.scale(radius),
        c,
        m as int,
        radius.value(),
    );
}

/// Where a point is placed.
proof fn lemma_placed(f: GlyphBox, center: OutlinePoint, radius: Binary32, p: OutlinePoint)
    requires
        f.width() > 0,
        f.height() > 0,
        placeable(p.x, center.x, radius),
    ensures
        ({
            let q = placed(f, center, radius, p);
            let s = f.scale(radius);
            let dx = p.x.plus(GlyphBox::middle(f.x_min, f.x_max).opposite());
            let dy = p.y.plus(GlyphBox::middle(f.y_min, f.y_max).opposite());
            q.x == center.x.plus(dx.times(s)) && q.y == center.y.minus(dy.times(s))
        }),
{
    assert(!radius.at_most(Binary32 { bits: 0 }));
    assert(seq![OutlineStep::MoveTo(p)][0] == OutlineStep::MoveTo(p));
}

/// The outline is moved so that the middle of the frame comes to the centre, and scaled by one
/// factor for both axes that makes the longer side of the frame span twice the radius. It is
/// turned upside down, since pixels count downwards.
#[verifier::rlimit(40)]
pub proof fn lemma_outline_is_scaled(
    f: GlyphBox,
    center: OutlinePoint,
    radius: Binary32,
    p: OutlinePoint,
)
    requires
        f.width() > 0,
        f.height() > 0,
        placeable(p.x, center.x, radius),
        placeable(p.y, center.y, radius),
    ensures
        ({
            let q = placed(f, center, radius, p);
            let one = pow2(149) as int;
            let (w, h) = (f.x_max - f.x_min, f.y_max - f.y_min);
            let long = if w >= h {
                w
            } else {
                h
            };
            &&& at_scale(
                q.x.value(),
                center.x.value(),
                p.x.value(),
                f.x_min as int,
                f.x_max as int,
                radius.value(),
                long,
                one,
            )
            &&& at_scale(
                -q.y.value(),
                -center.y.value(),
                p.y.value(),
                f.y_min as int,
                f.y_max as int,
                radius.value(),
                long,
                one,
            )
        }),
{
    let m: nat = if f.width() >= f.height() {
        f.width() as nat
    } else {
        f.height() as nat
    };
    lemma_placed(f, center, radius, p);
    lemma_axis_off(f, radius, f.x_min, f.x_max, p.x, center.x, m);
    lemma_axis_off(f, radius, f.y_min, f.y_max, p.y, center.y, m);
}

} // verus!
