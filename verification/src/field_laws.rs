//! What the distance fields keep: a byte tells on which side of the edge its pixel lies.

use crate::binary32::{lemma_round32_zero, mag_units, round32, Binary32, INF_MAG, ONE};
use crate::binary32_laws::{
    lemma_difference_units, lemma_mag_units_increases, lemma_one_units, lemma_round32_between,
    lemma_round32_exact, lemma_round32_monotone, lemma_round32_scale, lemma_sum_units,
    lemma_times_one, lemma_times_rises, lemma_times_zero, lemma_units_order,
};
use crate::color_track::{lemma_byte_mags, lemma_byte_of, lemma_near_rises};
use crate::distance::{gap2, is_nearest, marked, FAR};
use crate::glyph::{
    edge_band, field_side, in_subject, inside_of, lemma_nearest_unique, mask_empty, nearest,
    outside_of, sdf_byte, sdf_of, signed_unit, silhouette, subject_mask, unit_byte,
};
use crate::integers::{lemma_of_int_exact, lemma_root_from_one, lemma_root_rises, of_int};
use crate::rounding::lemma_pow2_values;
use vstd::arithmetic::div_mod::{lemma_fundamental_div_mod, lemma_fundamental_div_mod_converse};
use vstd::arithmetic::power2::{lemma2_to64, lemma_pow2_adds, lemma_pow2_pos, pow2};
use vstd::prelude::*;

verus! {

/// A marked pixel that no other is nearer than, found from any marked one.
proof fn lemma_some_nearest(
    features: Seq<bool>,
    side: nat,
    x: int,
    y: int,
    a: int,
    b: int,
) -> (r: (int, int))
    requires
        marked(features, side, a, b),
    ensures
        marked(features, side, r.0, r.1),
        forall|p: int, q: int| #[trigger]
            marked(features, side, p, q) ==> gap2(x, y, r.0, r.1) <= gap2(x, y, p, q),
    decreases gap2(x, y, a, b),
{
    if exists|p: int, q: int| #[trigger]
        marked(features, side, p, q) && gap2(x, y, p, q) < gap2(x, y, a, b) {
        let (p, q) = choose|p: int, q: int| #[trigger]
            marked(features, side, p, q) && gap2(x, y, p, q) < gap2(x, y, a, b);
        assert(gap2(x, y, p, q) >= 0) by (nonlinear_arith)
            requires
                gap2(x, y, p, q) == (x - p) * (x - p) + (y - q) * (y - q),
        ;
        lemma_some_nearest(features, side, x, y, p, q)
    } else {
        (a, b)
    }
}

/// The squared distance from a pixel of the field to the nearest marked one is there, and
/// it is at least 1 where the pixel itself is not marked.
proof fn lemma_nearest_found(features: Seq<bool>, side: nat, x: int, y: int)
    requires
        0 <= x < side <= 0xffff_ffff,
        0 <= y < side,
    ensures
        is_nearest(features, side, x, y, nearest(features, side, x, y)),
        nearest(features, side, x, y) < FAR ==> nearest(features, side, x, y)
            < 0x4_0000_0000_0000_0000,
        !marked(features, side, x, y) ==> nearest(features, side, x, y) >= 1,
{
    if exists|a: int, b: int| #[trigger] marked(features, side, a, b) {
        let (a, b) = choose|a: int, b: int| #[trigger] marked(features, side, a, b);
        let (p, q) = lemma_some_nearest(features, side, x, y, a, b);
        let d = gap2(x, y, p, q);
        assert(0 <= (x - p) * (x - p) <= 0xffff_ffff * 0xffff_ffff) by (nonlinear_arith)
            requires
                -0xffff_ffff <= x - p <= 0xffff_ffff,
        ;
        assert(0 <= (y - q) * (y - q) <= 0xffff_ffff * 0xffff_ffff) by (nonlinear_arith)
            requires
                -0xffff_ffff <= y - q <= 0xffff_ffff,
        ;
        assert(is_nearest(features, side, x, y, d));
        lemma_nearest_unique(features, side, x, y, d);
        if !marked(features, side, x, y) {
            assert(x != p ==> (x - p) * (x - p) >= 1) by (nonlinear_arith);
            assert(y != q ==> (y - q) * (y - q) >= 1) by (nonlinear_arith);
        }
    } else {
        assert(is_nearest(features, side, x, y, FAR as int));
        lemma_nearest_unique(features, side, x, y, FAR as int);
    }
}

/// A whole number from 1 on as a number.
proof fn lemma_gap_number(d: nat)
    requires
        1 <= d < 0x4_0000_0000_0000_0000,
    ensures
        of_int(false, d).finite(),
        !of_int(false, d).negative(),
        of_int(false, d).mag() >= ONE,
{
    let k = pow2(149);
    lemma_pow2_values();
    lemma_pow2_pos(149);
    lemma_one_units();
    lemma_pow2_adds(23, 192);
    lemma_pow2_adds(64, 2);
    lemma_pow2_adds(66, 149);
    lemma2_to64();
    assert(0x6080_0000nat / 0x80_0000 == 193);
    assert(mag_units(0x6080_0000) == pow2(215));
    assert(k <= d * k <= 0x4_0000_0000_0000_0000 * k) by (nonlinear_arith)
        requires
            1 <= d < 0x4_0000_0000_0000_0000,
            k > 0,
    ;
    lemma_round32_between(d * k, 1, ONE as nat, 0x6080_0000);
}

/// The root of a whole number from 1 on.
proof fn lemma_gap_root(d: nat)
    requires
        1 <= d < 0x4_0000_0000_0000_0000,
    ensures
        !of_int(false, d).root().negative(),
        ONE <= of_int(false, d).root().mag() <= 0x6080_0000,
{
    lemma_gap_number(d);
    lemma_root_from_one(of_int(false, d));
}

/// The band round the edge: at least a pixel, and finite.
proof fn lemma_band(size: u32)
    ensures
        !edge_band(size).negative(),
        ONE <= edge_band(size).mag() < INF_MAG,
        size <= 0x400_0000 ==> edge_band(size).mag() <= 0x4a80_0000,
{
    let k = pow2(149);
    let part = Binary32 { bits: 0x3d75_c28f };
    let s = of_int(false, size as nat);
    lemma_pow2_values();
    lemma2_to64();
    lemma_pow2_pos(149);
    lemma_pow2_adds(23, 158);
    lemma_pow2_adds(32, 149);
    assert(mag_units(0) == 0);
    assert(0x4f80_0000nat / 0x80_0000 == 159);
    assert(mag_units(0x4f80_0000) == pow2(181));
    assert(0 <= size * k <= 0x1_0000_0000 * k) by (nonlinear_arith)
        requires
            0 <= size <= 0x1_0000_0000,
            k > 0,
    ;
    lemma_round32_between(size as nat * k, 1, 0, 0x4f80_0000);
    let one = Binary32 { bits: ONE };
    lemma_units_order(part.mag(), ONE as nat);
    lemma_times_rises(part, one, s);
    lemma_times_one(s);
    if size <= 0x400_0000 {
        lemma_band_small(size);
    }
}

/// Up to 2^26 pixels the band is at most 2^22 wide.
proof fn lemma_band_small(size: u32)
    requires
        size <= 0x400_0000,
    ensures
        of_int(false, size as nat).times(Binary32 { bits: 0x3d75_c28f }).mag() <= 0x4a80_0000,
{
    reveal(Binary32::times);
    let k = pow2(149);
    let part = Binary32 { bits: 0x3d75_c28f };
    let s = of_int(false, size as nat);
    lemma_pow2_values();
    lemma2_to64();
    lemma_pow2_pos(149);
    lemma_pow2_adds(23, 152);
    lemma_pow2_adds(26, 149);
    lemma_pow2_adds(23, 122);
    lemma_pow2_adds(23, 148);
    lemma_pow2_adds(26, 145);
    assert(mag_units(0) == 0);
    assert(0x4c80_0000nat / 0x80_0000 == 153);
    assert(mag_units(0x4c80_0000) == pow2(175));
    assert(0x3d80_0000nat / 0x80_0000 == 123);
    assert(mag_units(0x3d80_0000) == pow2(145));
    assert(0x4a80_0000nat / 0x80_0000 == 149);
    assert(mag_units(0x4a80_0000) == pow2(171));
    assert(0 <= size * k <= 0x400_0000 * k) by (nonlinear_arith)
        requires
            0 <= size <= 0x400_0000,
            k > 0,
    ;
    lemma_round32_between(size as nat * k, 1, 0, 0x4c80_0000);
    lemma_units_order(s.mag(), 0x4c80_0000);
    lemma_units_order(part.mag(), 0x3d80_0000);
    let (u, v, w) = (s.units(), part.units(), pow2(145));
    assert(0 * k <= u * v <= (0x400_0000 * w) * k) by (nonlinear_arith)
        requires
            0 <= u <= 0x400_0000 * k,
            0 <= v <= w,
            k > 0,
    ;
    lemma_round32_between(u * v, k, 0, 0x4a80_0000);
}

/// Up to 1024 pixels the band is at most 62 wide.
proof fn lemma_band_narrow(size: u32)
    requires
        size <= 1024,
    ensures
        edge_band(size).mag() <= 0x4278_0000,
        mag_units(0x4278_0000) == 62 * pow2(149),
{
    let k = pow2(149);
    let part = Binary32 { bits: 0x3d75_c28f };
    let s = of_int(false, size as nat);
    lemma_pow2_values();
    lemma2_to64();
    lemma_pow2_pos(149);
    lemma_pow2_pos(121);
    lemma_pow2_adds(23, 136);
    lemma_pow2_adds(10, 149);
    lemma_pow2_adds(18, 131);
    lemma_pow2_adds(28, 121);
    assert(mag_units(0) == 0);
    assert(0x4480_0000nat / 0x80_0000 == 137);
    assert(mag_units(0x4480_0000) == pow2(159));
    assert(0x3d75_c28fnat / 0x80_0000 == 122);
    assert(mag_units(0x3d75_c28f) == 0xf5_c28f * pow2(121));
    assert(0x4278_0000nat / 0x80_0000 == 132);
    assert(mag_units(0x4278_0000) == 0xf8_0000 * pow2(131));
    assert(0 <= size * k <= 1024 * k) by (nonlinear_arith)
        requires
            0 <= size <= 1024,
            k > 0,
    ;
    lemma_round32_between(size as nat * k, 1, 0, 0x4480_0000);
    lemma_units_order(s.mag(), 0x4480_0000);
    let (u, v) = (s.units(), part.units());
    assert(0 * k <= u * v <= (62 * k) * k) by (nonlinear_arith)
        requires
            0 <= u <= 1024 * k,
            0 <= 1024 * v <= 62 * k,
            k > 0,
    ;
    lemma_round32_between(u * v, k, 0, 0x4278_0000);
    reveal(Binary32::times);
}

/// The units of one half.
proof fn lemma_half_units()
    ensures
        2 * mag_units(0x3f00_0000) == pow2(149),
{
    lemma_pow2_values();
    lemma_pow2_adds(23, 125);
    lemma_pow2_adds(1, 148);
    assert(0x3f00_0000nat / 0x80_0000 == 126);
    assert(mag_units(0x3f00_0000) == pow2(148));
}

/// Inside, the signed distance is not negative.
proof fn lemma_unit_inside(d: int, band: Binary32)
    requires
        d >= FAR || 1 <= d < 0x4_0000_0000_0000_0000,
        !band.negative(),
        ONE <= band.mag() < INF_MAG,
    ensures
        !signed_unit(true, d, band).negative(),
        signed_unit(true, d, band).mag() <= ONE,
{
    if d < FAR {
        let half = Binary32 { bits: 0x3f00_0000 };
        let root = of_int(false, d as nat).root();
        lemma_gap_root(d as nat);
        lemma_units_order(half.mag(), root.mag());
        lemma_difference_units(root, half);
        let px = root.minus(half);
        lemma_units_order(0, root.mag());
        assert(mag_units(0) == 0);
        lemma_round32_between((root.units() - half.units()) as nat, 1, 0, root.mag());
        assert(!px.over(band).negative() && !px.over(band).nan_pattern()) by {
            reveal(Binary32::over);
        }
    }
}

/// Outside, the signed distance is negative, and not too small to be seen.
proof fn lemma_unit_outside(d: int, band: Binary32)
    requires
        d >= FAR || 1 <= d < 0x4_0000_0000_0000_0000,
        !band.negative(),
        ONE <= band.mag() <= 0x4a80_0000,
    ensures
        signed_unit(false, d, band).negative(),
        0x3400_0000 <= signed_unit(false, d, band).mag() <= ONE,
{
    if d < FAR {
        let half = Binary32 { bits: 0x3f00_0000 };
        let root = of_int(false, d as nat).root();
        lemma_gap_root(d as nat);
        let px = half.minus(root);
        lemma_half_beyond(root);
        lemma_far_ratio(px, band);
    }
}

/// Half a pixel less a root of at least 1.
proof fn lemma_half_beyond(root: Binary32)
    requires
        !root.negative(),
        ONE <= root.mag() <= 0x6080_0000,
    ensures
        ({
            let px = (Binary32 { bits: 0x3f00_0000 }).minus(root);
            px.negative() && 0x3f00_0000 <= px.mag() <= 0x6080_0000
        }),
{
    reveal(Binary32::plus);
    let half = Binary32 { bits: 0x3f00_0000 };
    lemma_half_units();
    lemma_one_units();
    lemma_pow2_pos(149);
    lemma_units_order(ONE as nat, root.mag());
    assert(root.opposite().value() == -root.value());
    let v = (root.units() - half.units()) as nat;
    lemma_round32_between(v, 1, 0x3f00_0000, root.mag());
}

/// At least half a pixel outside, in bands of at most 2^22 pixels.
proof fn lemma_far_ratio(px: Binary32, band: Binary32)
    requires
        px.negative(),
        0x3f00_0000 <= px.mag() <= 0x6080_0000,
        !band.negative(),
        ONE <= band.mag() <= 0x4a80_0000,
    ensures
        px.over(band).negative(),
        0x3400_0000 <= px.over(band).mag() <= INF_MAG,
{
    reveal(Binary32::over);
    let k = pow2(149);
    lemma_half_units();
    lemma_pow2_values();
    lemma_pow2_pos(149);
    lemma_pow2_adds(23, 103);
    lemma_pow2_adds(23, 148);
    lemma_pow2_adds(126, 171);
    lemma_pow2_adds(148, 149);
    assert(0x3400_0000nat / 0x80_0000 == 104);
    assert(mag_units(0x3400_0000) == pow2(126));
    assert(0x4a80_0000nat / 0x80_0000 == 149);
    assert(mag_units(0x4a80_0000) == pow2(171));
    lemma_pow2_adds(1, 148);
    lemma_units_order(0x3f00_0000, px.mag());
    lemma_units_order(band.mag(), 0x4a80_0000);
    lemma_mag_units_increases(0, band.mag());
    assert(mag_units(0) == 0);
    let (x, z, c) = (px.units(), band.units(), pow2(126));
    assert(c * z <= x * k) by (nonlinear_arith)
        requires
            z <= pow2(171),
            x >= pow2(148),
            c * pow2(171) == pow2(148) * k,
            c >= 0,
            k >= 0,
    ;
    lemma_round32_exact(0x3400_0000);
    assert(c * z <= (x * k) * 1);
    lemma_round32_monotone(c, 1, x * k, z);
}

/// What the byte of a signed distance is rounded from.
spec fn byte_sum(unit: Binary32) -> Binary32 {
    let half = Binary32 { bits: 0x3f00_0000 };
    unit.times(half).plus(half).times(Binary32 { bits: 0x437f_0000 })
}

/// 255 times a number within 0 to 1.
proof fn lemma_byte_scale(x: Binary32, low: nat, high: nat)
    requires
        !x.negative(),
        x.mag() <= ONE,
        low < INF_MAG,
        high < INF_MAG,
        mag_units(low) <= 255 * x.units() <= mag_units(high),
    ensures
        !x.times(Binary32 { bits: 0x437f_0000 }).negative(),
        low <= x.times(Binary32 { bits: 0x437f_0000 }).mag() <= high,
{
    reveal(Binary32::times);
    let k = pow2(149);
    lemma_pow2_pos(149);
    lemma_byte_mags();
    lemma_of_int_exact(false, 255);
    let u = x.units();
    assert(u * (255 * k) == (255 * u) * k) by (nonlinear_arith);
    let (a, b) = (mag_units(low), mag_units(high));
    assert(a * k <= (255 * u) * k <= b * k) by (nonlinear_arith)
        requires
            a <= 255 * u <= b,
            k > 0,
    ;
    lemma_round32_between(u * (255 * k), k, low, high);
}

/// The byte of a sum within 0 to 255.
proof fn lemma_byte_near(s: Binary32)
    requires
        !s.negative(),
        s.mag() <= 0x437f_0000,
    ensures
        2 * s.units() >= 255 * pow2(149) ==> s.whole_near() >= 128,
        2 * s.units() < 255 * pow2(149) ==> s.whole_near() < 128,
        s.rounded().clamped(Binary32 { bits: 0 }, Binary32 { bits: 0x437f_0000 }).as_unsigned(0xff)
            == s.whole_near(),
        s.whole_near() <= 255,
{
    let k = pow2(149);
    lemma_pow2_pos(149);
    lemma_byte_mags();
    lemma_of_int_exact(false, 255);
    lemma_units_order(s.mag(), 0x437f_0000);
    lemma_byte_of(s, 0, 255);
    lemma_fundamental_div_mod(s.units() as int, k as int);
    let (w, r) = (s.whole(), s.rest());
    if 2 * s.units() >= 255 * k {
        assert(w >= 127) by (nonlinear_arith)
            requires
                2 * (k * w + r) >= 255 * k,
                0 <= r < k,
        ;
    } else {
        assert(w <= 127) by (nonlinear_arith)
            requires
                2 * (k * w + r) < 255 * k,
                0 <= r < k,
        ;
    }
    if w == 127 {
        assert(k * 127 == 127 * k);
    }
}

/// The byte of a signed distance that is not negative is at least 128.
proof fn lemma_byte_inside(unit: Binary32)
    requires
        !unit.negative(),
        unit.mag() <= ONE,
    ensures
        unit_byte(unit) >= 128,
{
    let half = Binary32 { bits: 0x3f00_0000 };
    let one = Binary32 { bits: ONE };
    let k = pow2(149);
    lemma_half_units();
    lemma_one_units();
    lemma_units_order(unit.mag(), ONE as nat);
    lemma_times_rises(unit, one, half);
    lemma_times_one(half);
    let m = unit.times(half);
    lemma_units_order(m.mag(), half.mag());
    lemma_sum_units(m, half);
    lemma_round32_between(m.units() + half.units(), 1, 0x3f00_0000, ONE as nat);
    let x = m.plus(half);
    lemma_units_order(0x3f00_0000, x.mag());
    lemma_units_order(x.mag(), ONE as nat);
    lemma_half_byte();
    lemma_byte_mags();
    lemma_of_int_exact(false, 255);
    lemma_byte_scale(x, 0x42ff_0000, 0x437f_0000);
    let s = byte_sum(unit);
    lemma_units_order(0x42ff_0000, s.mag());
    lemma_byte_near(s);
}

/// The units of 127.5, and of the number before it.
proof fn lemma_half_byte()
    ensures
        2 * mag_units(0x42ff_0000) == 255 * pow2(149),
        2 * mag_units(0x42fe_ffff) == 255 * pow2(149) - 2 * pow2(132),
        mag_units(0x3eff_fffe) == pow2(148) - pow2(125),
{
    lemma_pow2_values();
    lemma2_to64();
    lemma_pow2_adds(17, 132);
    lemma_pow2_adds(24, 124);
    lemma_pow2_adds(1, 124);
    assert(0x42ff_0000nat / 0x80_0000 == 133);
    assert(0x42fe_ffffnat / 0x80_0000 == 133);
    assert(0x3eff_fffenat / 0x80_0000 == 125);
    assert(mag_units(0x42ff_0000) == 0xff_0000 * pow2(132));
    assert(mag_units(0x42fe_ffff) == 0xfe_ffff * pow2(132));
    assert(mag_units(0x3eff_fffe) == 0xff_fffe * pow2(124));
}

/// The byte of a signed distance that is negative, and not too small to be seen, is below 128.
proof fn lemma_byte_outside(unit: Binary32)
    requires
        unit.negative(),
        0x3400_0000 <= unit.mag() <= ONE,
    ensures
        unit_byte(unit) < 128,
{
    let x = unit.times(Binary32 { bits: 0x3f00_0000 }).plus(Binary32 { bits: 0x3f00_0000 });
    lemma_half_less(unit);
    lemma_half_byte();
    lemma_units_order(x.mag(), 0x3eff_fffe);
    lemma_pow2_values();
    lemma_pow2_adds(17, 132);
    lemma_pow2_adds(16, 132);
    lemma_pow2_adds(7, 125);
    lemma2_to64();
    lemma_pow2_pos(125);
    lemma_pow2_pos(132);
    assert(mag_units(0) == 0);
    assert(255 * x.units() <= mag_units(0x42fe_ffff));
    lemma_byte_scale(x, 0, 0x42fe_ffff);
    let s = byte_sum(unit);
    lemma_units_order(s.mag(), 0x42fe_ffff);
    lemma_byte_near(s);
}

/// One half less at least 2^-24.
proof fn lemma_half_less(unit: Binary32)
    requires
        unit.negative(),
        0x3400_0000 <= unit.mag() <= ONE,
    ensures
        ({
            let half = Binary32 { bits: 0x3f00_0000 };
            let x = unit.times(half).plus(half);
            !x.negative() && x.mag() <= 0x3eff_fffe
        }),
{
    let half = Binary32 { bits: 0x3f00_0000 };
    let k = pow2(149);
    let m = unit.times(half);
    lemma_half_units();
    lemma_one_units();
    lemma_pow2_values();
    lemma_pow2_pos(149);
    lemma_half_byte();
    lemma_pow2_adds(23, 103);
    lemma_pow2_adds(23, 102);
    lemma_pow2_adds(1, 148);
    lemma_pow2_adds(1, 125);
    assert(mag_units(0) == 0);
    assert(0x3400_0000nat / 0x80_0000 == 104);
    assert(0x3380_0000nat / 0x80_0000 == 103);
    assert(mag_units(0x3400_0000) == pow2(126));
    assert(mag_units(0x3380_0000) == pow2(125));
    lemma_units_order(0x3400_0000, unit.mag());
    lemma_units_order(unit.mag(), ONE as nat);
    let (u, h) = (unit.units(), pow2(148));
    assert(m.negative() && 0x3380_0000 <= m.mag() <= 0x3f00_0000) by {
        reveal(Binary32::times);
        assert(pow2(125) * k <= u * h <= h * k) by (nonlinear_arith)
            requires
                2 * pow2(125) <= u <= k,
                k == 2 * h,
                h >= 0,
        ;
        lemma_round32_between(u * h, k, 0x3380_0000, 0x3f00_0000);
    }
    lemma_units_order(0x3380_0000, m.mag());
    lemma_units_order(m.mag(), 0x3f00_0000);
    reveal(Binary32::plus);
    let v = half.value() + m.value();
    assert(0 <= v <= pow2(148) - pow2(125));
    lemma_round32_between(v as nat, 1, 0, 0x3eff_fffe);
}

/// Where the band is at most 62 wide, half a pixel is more than the 127th part of it.
proof fn lemma_unit_seen(d: int, band: Binary32)
    requires
        gap_valid(d),
        !band.negative(),
        ONE <= band.mag() <= 0x4278_0000,
        mag_units(0x4278_0000) == 62 * pow2(149),
    ensures
        signed_unit(true, d, band).mag() >= 0x3c02_0000,
{
    lemma_unit_parts(true, d, band);
    if d < FAR {
        let k = pow2(149);
        let root = of_int(false, d as nat).root();
        lemma_gap_root(d as nat);
        lemma_edge_gap(d);
        lemma_half_units();
        lemma_one_units();
        lemma_units_order(ONE as nat, root.mag());
        lemma_units_order(root.mag(), 0x6080_0000);
        lemma_round32_between(
            (root.units() - mag_units(0x3f00_0000)) as nat,
            1,
            0x3f00_0000,
            0x6080_0000,
        );
        lemma_units_order(0x3f00_0000, edge_gap(d));
        lemma_pow2_values();
        lemma2_to64();
        lemma_pow2_adds(29, 119);
        lemma_pow2_adds(1, 148);
        lemma_pow2_pos(119);
        assert(0x3c02_0000nat / 0x80_0000 == 120);
        assert(mag_units(0x3c02_0000) == 0x82_0000 * pow2(119));
        lemma_units_order(band.mag(), 0x4278_0000);
        assert(mag_units(0) == 0);
        lemma_mag_units_increases(0, band.mag());
        let (g, b, low) = (mag_units(edge_gap(d)), band.units(), mag_units(0x3c02_0000));
        assert(low * b <= g * k) by (nonlinear_arith)
            requires
                62 * low <= g,
                0 < b <= 62 * k,
                low >= 0,
                k > 0,
        ;
        let ratio = round32(g * k, b);
        lemma_over_rises(g, g, b);
        if ratio < 0x3c02_0000 {
            lemma_round32_exact(0x3c02_0000);
            lemma_round32_monotone(low, 1, g * k, b);
        }
    }
}

/// A signed distance that is not too small to be seen gives a byte of more than 128.
proof fn lemma_byte_seen(unit: Binary32)
    requires
        !unit.negative(),
        0x3c02_0000 <= unit.mag() <= ONE,
    ensures
        unit_byte(unit) > 128,
{
    let half = Binary32 { bits: 0x3f00_0000 };
    let k = pow2(149);
    lemma_half_units();
    lemma_one_units();
    lemma_pow2_values();
    lemma2_to64();
    lemma_pow2_adds(1, 118);
    lemma_pow2_adds(7, 118);
    lemma_pow2_adds(30, 118);
    lemma_pow2_adds(8, 125);
    lemma_pow2_adds(16, 133);
    lemma_pow2_adds(23, 125);
    lemma_pow2_pos(125);
    assert(0x3c02_0000nat / 0x80_0000 == 120);
    assert(mag_units(0x3c02_0000) == 0x82_0000 * pow2(119));
    assert(0x3b82_0000nat / 0x80_0000 == 119);
    assert(mag_units(0x3b82_0000) == 0x82_0000 * pow2(118));
    assert(0x3f01_0400nat / 0x80_0000 == 126);
    assert(mag_units(0x3f01_0400) == 0x81_0400 * pow2(125));
    assert(0x4300_8000nat / 0x80_0000 == 134);
    assert(mag_units(0x4300_8000) == 0x80_8000 * pow2(133));
    lemma_units_order(0x3c02_0000, unit.mag());
    lemma_half_of(unit, unit);
    lemma_unit_shifted(unit);
    let (u, h, low) = (unit.units(), mag_units(0x3f00_0000), mag_units(0x3b82_0000));
    assert(low * k <= u * h) by (nonlinear_arith)
        requires
            2 * low <= u,
            2 * h == k,
            low >= 0,
    ;
    lemma_round32_exact(0x3b82_0000);
    lemma_round32_monotone(low, 1, u * h, k);
    lemma_units_order(0x3b82_0000, half_of(unit));
    let m = mag_units(half_of(unit));
    lemma_round32_exact(0x3f01_0400);
    lemma_round32_monotone(mag_units(0x3f01_0400), 1, h + m, 1);
    let x = unit.times(half).plus(half);
    lemma_units_order(0x3f01_0400, x.mag());
    lemma_units_order(x.mag(), ONE as nat);
    lemma_byte_mags();
    lemma_of_int_exact(false, 255);
    lemma_byte_scale(x, 0x4300_8000, 0x437f_0000);
    let s = byte_sum(unit);
    lemma_units_order(0x4300_8000, s.mag());
    lemma_byte_near(s);
    lemma_fundamental_div_mod(s.units() as int, k as int);
    let (w, r) = (s.whole(), s.rest());
    assert(w >= 128) by (nonlinear_arith)
        requires
            2 * (k * w + r) >= 257 * k,
            0 <= r < k,
    ;
    if w == 128 {
        assert(k * 128 == 128 * k);
    }
}

/// A byte of a field tells on which side its pixel lies: 128 and more inside, more than 128
/// where the field has at most 1024 pixels on a side, and less than 128 outside. The outside of a field with more than 2^26 pixels on a side is left out: half a
/// pixel is too small a part of its band there.
pub proof fn lemma_field_tells_inside(mask: Seq<u8>, size: u32, x: int, y: int)
    requires
        0 <= x < field_side(size),
        0 <= y < field_side(size),
    ensures
        mask[y * field_side(size) + x] >= 128 ==> sdf_byte(mask, size, x, y) >= 128,
        mask[y * field_side(size) + x] >= 128 && size <= 1024 ==> sdf_byte(mask, size, x, y) > 128,
        mask[y * field_side(size) + x] < 128 && size <= 0x400_0000 ==> sdf_byte(mask, size, x, y)
            < 128,
{
    let side = field_side(size);
    let band = edge_band(size);
    let i = y * side + x;
    assert(0 <= i < side * side) by (nonlinear_arith)
        requires
            0 <= x < side,
            0 <= y < side,
            i == y * side + x,
    ;
    lemma_band(size);
    if mask[i] >= 128 {
        assert(!marked(outside_of(mask, side), side, x, y));
        lemma_nearest_found(outside_of(mask, side), side, x, y);
        let d = nearest(outside_of(mask, side), side, x, y);
        lemma_unit_inside(d, band);
        lemma_byte_inside(signed_unit(true, d, band));
        if size <= 1024 {
            lemma_band_narrow(size);
            lemma_unit_seen(d, band);
            lemma_byte_seen(signed_unit(true, d, band));
        }
    } else if size <= 0x400_0000 {
        assert(!marked(inside_of(mask, side), side, x, y));
        lemma_nearest_found(inside_of(mask, side), side, x, y);
        let d = nearest(inside_of(mask, side), side, x, y);
        lemma_unit_outside(d, band);
        lemma_byte_outside(signed_unit(false, d, band));
    }
}

/// The field of a picture is inside exactly where the picture's subject was drawn: the margins
/// round a picture that does not fill its field are outside.
pub proof fn lemma_silhouette_is_the_subject(
    data: Seq<u8>,
    w: nat,
    h: nat,
    dx: nat,
    dy: nat,
    size: u32,
    x: int,
    y: int,
)
    requires
        silhouette(data, w, h, dx, dy, size) is Some,
        size <= 0x400_0000,
        0 <= x < field_side(size),
        0 <= y < field_side(size),
    ensures
        silhouette(data, w, h, dx, dy, size)->0[y * field_side(size) + x] >= 128 <==> dx <= x < dx
            + w && dy <= y < dy + h && in_subject(data, w * h, (y - dy) * w + (x - dx)),
{
    let side = field_side(size);
    let c = y * side + x;
    assert(0 <= c < side * side) by (nonlinear_arith)
        requires
            0 <= x < side,
            0 <= y < side,
            c == y * side + x,
    ;
    lemma_fundamental_div_mod_converse(c, side as int, y, x);
    let mask = subject_mask(data, w, h, dx, dy, side);
    assert(mask[c] == 255 || mask[c] == 0);
    lemma_field_tells_inside(mask, size, x, y);
}

/// A quotient does not fall when what is divided grows.
proof fn lemma_over_rises(a: nat, b: nat, d: nat)
    requires
        d > 0,
        a <= b,
    ensures
        round32(a * pow2(149), d) <= round32(b * pow2(149), d) <= INF_MAG,
{
    let k = pow2(149);
    assert((a * k) * d <= (b * k) * d) by (nonlinear_arith)
        requires
            a <= b,
            k >= 0,
            d >= 0,
    ;
    lemma_round32_monotone(a * k, d, b * k, d);
}

/// How far a pixel lies from the edge, half a pixel beyond it left out.
spec fn edge_gap(d: int) -> nat {
    round32((of_int(false, d as nat).root().units() - mag_units(0x3f00_0000)) as nat, 1)
}

/// The signed distance without its sign.
spec fn unit_mag(d: int, band: Binary32) -> nat {
    let ratio = round32(mag_units(edge_gap(d)) * pow2(149), band.units());
    if d >= FAR || ratio >= ONE {
        ONE as nat
    } else {
        ratio
    }
}

/// Whether a squared distance is that of two pixels, or of none.
spec fn gap_valid(d: int) -> bool {
    d == FAR || 1 <= d < 0x4_0000_0000_0000_0000
}

/// What lies between a pixel and the edge is a finite number.
proof fn lemma_edge_gap(d: int)
    requires
        1 <= d < 0x4_0000_0000_0000_0000,
    ensures
        mag_units(0x3f00_0000) <= of_int(false, d as nat).root().units(),
        edge_gap(d) <= 0x6080_0000,
{
    let root = of_int(false, d as nat).root();
    lemma_gap_root(d as nat);
    lemma_units_order(0x3f00_0000, root.mag());
    assert(mag_units(0) == 0);
    lemma_round32_between((root.units() - mag_units(0x3f00_0000)) as nat, 1, 0, root.mag());
}

/// A signed distance has the sign of its side.
proof fn lemma_unit_parts(inside: bool, d: int, band: Binary32)
    requires
        gap_valid(d),
        !band.negative(),
        ONE <= band.mag() < INF_MAG,
    ensures
        signed_unit(inside, d, band).negative() == !inside,
        signed_unit(inside, d, band).mag() == unit_mag(d, band),
{
    if d < FAR {
        let half = Binary32 { bits: 0x3f00_0000 };
        let root = of_int(false, d as nat).root();
        lemma_gap_root(d as nat);
        lemma_edge_gap(d);
        let px = if inside {
            root.minus(half)
        } else {
            half.minus(root)
        };
        assert(px.negative() == !inside && px.mag() == edge_gap(d)) by {
            if inside {
                lemma_difference_units(root, half);
            } else {
                lemma_half_units();
                lemma_one_units();
                lemma_pow2_pos(149);
                lemma_units_order(ONE as nat, root.mag());
                reveal(Binary32::plus);
                assert(root.opposite().value() == -root.value());
            }
        }
        assert(mag_units(0) == 0);
        lemma_mag_units_increases(0, band.mag());
        lemma_over_rises(mag_units(edge_gap(d)), mag_units(edge_gap(d)), band.units());
        reveal(Binary32::over);
    }
}

/// The signed distance grows with the distance.
proof fn lemma_unit_rises(d: int, e: int, band: Binary32)
    requires
        gap_valid(d),
        gap_valid(e),
        d <= e,
        ONE <= band.mag() < INF_MAG,
    ensures
        unit_mag(d, band) <= unit_mag(e, band) <= ONE,
{
    if e < FAR {
        let k = pow2(149);
        lemma_pow2_pos(149);
        let (p, q) = (of_int(false, d as nat), of_int(false, e as nat));
        assert(d * k <= e * k) by (nonlinear_arith)
            requires
                d <= e,
                k > 0,
        ;
        lemma_round32_monotone(d as nat * k, 1, e as nat * k, 1);
        lemma_gap_number(d as nat);
        lemma_gap_number(e as nat);
        lemma_root_rises(p, q);
        lemma_units_order(p.root().mag(), q.root().mag());
        lemma_edge_gap(d);
        lemma_edge_gap(e);
        let h = mag_units(0x3f00_0000);
        lemma_round32_monotone(
            (p.root().units() - h) as nat,
            1,
            (q.root().units() - h) as nat,
            1,
        );
        lemma_units_order(edge_gap(d), edge_gap(e));
        assert(mag_units(0) == 0);
        lemma_mag_units_increases(0, band.mag());
        lemma_over_rises(mag_units(edge_gap(d)), mag_units(edge_gap(e)), band.units());
    }
}

/// Half of a number of at most 1, without its sign.
spec fn half_of(unit: Binary32) -> nat {
    round32(unit.units() * mag_units(0x3f00_0000), pow2(149))
}

proof fn lemma_half_of(u: Binary32, v: Binary32)
    requires
        u.mag() <= v.mag() <= ONE,
    ensures
        half_of(u) <= half_of(v) <= 0x3f00_0000,
        mag_units(half_of(u)) <= mag_units(half_of(v)) <= mag_units(0x3f00_0000),
{
    let k = pow2(149);
    let h = mag_units(0x3f00_0000);
    lemma_pow2_pos(149);
    lemma_one_units();
    lemma_units_order(u.mag(), v.mag());
    lemma_units_order(v.mag(), ONE as nat);
    assert(mag_units(0) == 0);
    let (a, b) = (u.units() * h, v.units() * h);
    assert(a * k <= b * k && 0 * k <= b <= h * k) by (nonlinear_arith)
        requires
            a == u.units() * h,
            b == v.units() * h,
            0 <= u.units() <= v.units() <= k,
            h >= 0,
    ;
    lemma_round32_monotone(a, k, b, k);
    lemma_round32_between(b, k, 0, 0x3f00_0000);
    lemma_units_order(half_of(u), half_of(v));
    lemma_units_order(half_of(v), 0x3f00_0000);
}

/// What a signed distance is as a number within 0 to 1.
proof fn lemma_unit_shifted(unit: Binary32)
    requires
        unit.mag() <= ONE,
    ensures
        ({
            let half = Binary32 { bits: 0x3f00_0000 };
            let x = unit.times(half).plus(half);
            let h = mag_units(0x3f00_0000);
            let m = mag_units(half_of(unit));
            &&& !x.negative()
            &&& x.mag() <= ONE
            &&& x.mag() == round32(
                if unit.negative() {
                    (h - m) as nat
                } else {
                    h + m
                },
                1,
            )
        }),
{
    let half = Binary32 { bits: 0x3f00_0000 };
    let m = unit.times(half);
    lemma_half_of(unit, unit);
    lemma_half_units();
    lemma_one_units();
    assert(m.negative() == unit.negative() && m.mag() == half_of(unit)) by {
        reveal(Binary32::times);
    }
    assert(mag_units(0) == 0);
    if unit.negative() {
        let v = (half.units() - m.units()) as nat;
        lemma_round32_between(v, 1, 0, ONE as nat);
        reveal(Binary32::plus);
        if v == 0 {
            lemma_round32_zero(1);
        }
    } else {
        lemma_sum_units(m, half);
        lemma_round32_between(m.units() + half.units(), 1, 0, ONE as nat);
    }
}

/// The byte follows the number within 0 to 1.
proof fn lemma_byte_rises(u: Binary32, v: Binary32)
    requires
        u.mag() <= ONE,
        v.mag() <= ONE,
        ({
            let half = Binary32 { bits: 0x3f00_0000 };
            u.times(half).plus(half).mag() <= v.times(half).plus(half).mag()
        }),
    ensures
        unit_byte(u) <= unit_byte(v),
{
    let half = Binary32 { bits: 0x3f00_0000 };
    let scale = Binary32 { bits: 0x437f_0000 };
    lemma_unit_shifted(u);
    lemma_unit_shifted(v);
    let (x, y) = (u.times(half).plus(half), v.times(half).plus(half));
    lemma_units_order(x.mag(), y.mag());
    lemma_units_order(x.mag(), ONE as nat);
    lemma_units_order(y.mag(), ONE as nat);
    lemma_times_rises(x, y, scale);
    lemma_times_rises(y, Binary32 { bits: ONE }, scale);
    lemma_times_one(scale);
    let (s, t) = (byte_sum(u), byte_sum(v));
    lemma_units_order(s.mag(), t.mag());
    lemma_near_rises(s, t);
    lemma_byte_near(s);
    lemma_byte_near(t);
}

/// Inside the byte grows with the signed distance, outside it falls.
proof fn lemma_byte_follows(u: Binary32, v: Binary32)
    requires
        u.negative() == v.negative(),
        u.mag() <= v.mag() <= ONE,
    ensures
        !u.negative() ==> unit_byte(u) <= unit_byte(v),
        u.negative() ==> unit_byte(v) <= unit_byte(u),
{
    let h = mag_units(0x3f00_0000);
    lemma_half_of(u, v);
    lemma_half_of(v, v);
    lemma_unit_shifted(u);
    lemma_unit_shifted(v);
    let (m, n) = (mag_units(half_of(u)), mag_units(half_of(v)));
    if u.negative() {
        lemma_round32_monotone((h - n) as nat, 1, (h - m) as nat, 1);
        lemma_byte_rises(v, u);
    } else {
        lemma_round32_monotone(h + m, 1, h + n, 1);
        lemma_byte_rises(u, v);
    }
}

/// Where more pixels are marked, the nearest is no farther.
proof fn lemma_nearest_falls(few: Seq<bool>, many: Seq<bool>, side: nat, x: int, y: int)
    requires
        0 <= x < side <= 0xffff_ffff,
        0 <= y < side,
        forall|a: int, b: int| #[trigger] marked(few, side, a, b) ==> marked(many, side, a, b),
    ensures
        nearest(many, side, x, y) <= nearest(few, side, x, y),
{
    lemma_nearest_found(few, side, x, y);
    lemma_nearest_found(many, side, x, y);
    let d = nearest(few, side, x, y);
    if d < FAR {
        let (a, b) = choose|a: int, b: int| #[trigger]
            marked(few, side, a, b) && d == gap2(x, y, a, b);
        assert(marked(many, side, a, b));
    }
}

/// The byte of a field where nothing is inside.
proof fn lemma_nothing_inside(mask: Seq<u8>, size: u32, x: int, y: int)
    requires
        0 <= x < field_side(size),
        0 <= y < field_side(size),
        forall|i: int|
            0 <= i < field_side(size) * field_side(size) ==> #[trigger] mask[i] < 128,
    ensures
        sdf_byte(mask, size, x, y) == 0,
{
    let side = field_side(size);
    let i = y * side + x;
    lemma_cell(side, x, y);
    assert forall|a: int, b: int| !#[trigger] marked(inside_of(mask, side), side, a, b) by {
        if 0 <= a < side && 0 <= b < side {
            lemma_cell(side, a, b);
        }
    }
    lemma_nearest_found(inside_of(mask, side), side, x, y);
    assert(nearest(inside_of(mask, side), side, x, y) == FAR);
    let u = Binary32 { bits: 0xbf80_0000 };
    lemma_half_units();
    lemma_one_units();
    lemma_pow2_pos(149);
    let h = mag_units(0x3f00_0000);
    assert(pow2(149) * h == h * pow2(149)) by (nonlinear_arith);
    lemma_round32_scale(h, pow2(149));
    lemma_round32_exact(0x3f00_0000);
    lemma_unit_shifted(u);
    lemma_round32_zero(1);
    let half = Binary32 { bits: 0x3f00_0000 };
    let zero = u.times(half).plus(half);
    assert(zero.mag() == 0);
    lemma_times_zero(Binary32 { bits: 0x437f_0000 }, zero);
    let s = byte_sum(u);
    assert(!s.negative()) by {
        reveal(Binary32::times);
    }
    assert(mag_units(0) == 0);
    lemma_byte_near(s);
    vstd::arithmetic::div_mod::lemma_div_of0(pow2(149) as int);
    vstd::arithmetic::div_mod::lemma_small_mod(0, pow2(149));
}

proof fn lemma_cell(side: nat, x: int, y: int)
    requires
        0 <= x < side,
        0 <= y < side,
    ensures
        0 <= y * side + x < side * side,
{
    assert(0 <= y * side + x < side * side) by (nonlinear_arith)
        requires
            0 <= x < side,
            0 <= y < side,
    ;
}

/// A shape that contains another gives no smaller byte anywhere in its field. Fields of more
/// than 2^26 pixels on a side are left out, as in [`lemma_field_tells_inside`].
pub proof fn lemma_larger_shape(few: Seq<u8>, many: Seq<u8>, size: u32, i: int)
    requires
        size <= 0x400_0000,
        few.len() >= field_side(size) * field_side(size),
        many.len() >= field_side(size) * field_side(size),
        forall|j: int|
            0 <= j < field_side(size) * field_side(size) && few[j] >= 128 ==> #[trigger] many[j]
                >= 128,
        0 <= i < field_side(size) * field_side(size),
    ensures
        sdf_of(few, size)[i] <= sdf_of(many, size)[i],
{
    let side = field_side(size);
    let (x, y) = (i % (side as int), i / (side as int));
    lemma_fundamental_div_mod(i, side as int);
    assert(side * y == y * side) by (nonlinear_arith);
    assert(0 <= y < side) by (nonlinear_arith)
        requires
            i == y * side + x,
            0 <= x < side,
            0 <= i < side * side,
    ;
    if !mask_empty(few, side) {
        if mask_empty(many, side) {
            assert forall|j: int| 0 <= j < side * side implies #[trigger] few[j] < 128 by {
                assert(many[j] == 0);
            }
            lemma_nothing_inside(few, size, x, y);
        } else {
            lemma_larger_shape_at(few, many, size, x, y);
        }
    }
}

proof fn lemma_larger_shape_at(few: Seq<u8>, many: Seq<u8>, size: u32, x: int, y: int)
    requires
        size <= 0x400_0000,
        forall|j: int|
            0 <= j < field_side(size) * field_side(size) && few[j] >= 128 ==> #[trigger] many[j]
                >= 128,
        0 <= x < field_side(size),
        0 <= y < field_side(size),
    ensures
        sdf_byte(few, size, x, y) <= sdf_byte(many, size, x, y),
{
    let side = field_side(size);
    let band = edge_band(size);
    let i = y * side + x;
    lemma_cell(side, x, y);
    lemma_band(size);
    if few[i] >= 128 {
        let (a, b) = (outside_of(few, side), outside_of(many, side));
        assert forall|p: int, q: int| #[trigger] marked(b, side, p, q) implies marked(
            a,
            side,
            p,
            q,
        ) by {
            lemma_cell(side, p, q);
            assert(many[q * side + p] < 128);
        }
        assert(many[i] >= 128);
        assert(!marked(a, side, x, y) && !marked(b, side, x, y));
        lemma_nearest_falls(b, a, side, x, y);
        lemma_sides_agree(true, a, b, side, x, y, band);
    } else if many[i] >= 128 {
        lemma_field_tells_inside(few, size, x, y);
        lemma_field_tells_inside(many, size, x, y);
    } else {
        let (a, b) = (inside_of(few, side), inside_of(many, side));
        assert forall|p: int, q: int| #[trigger] marked(a, side, p, q) implies marked(
            b,
            side,
            p,
            q,
        ) by {
            lemma_cell(side, p, q);
            assert(many[q * side + p] >= 128);
        }
        assert(!marked(a, side, x, y) && !marked(b, side, x, y));
        lemma_nearest_falls(a, b, side, x, y);
        lemma_sides_agree(false, b, a, side, x, y, band);
    }
}

/// Farther from the edge, the byte is farther from it too.
proof fn lemma_sides_agree(
    inside: bool,
    near: Seq<bool>,
    far: Seq<bool>,
    side: nat,
    x: int,
    y: int,
    band: Binary32,
)
    requires
        0 <= x < side <= 0xffff_ffff,
        0 <= y < side,
        !marked(near, side, x, y),
        !marked(far, side, x, y),
        nearest(near, side, x, y) <= nearest(far, side, x, y),
        !band.negative(),
        ONE <= band.mag() < INF_MAG,
    ensures
        ({
            let u = unit_byte(signed_unit(inside, nearest(near, side, x, y), band));
            let v = unit_byte(signed_unit(inside, nearest(far, side, x, y), band));
            if inside {
                u <= v
            } else {
                v <= u
            }
        }),
{
    let (d, e) = (nearest(near, side, x, y), nearest(far, side, x, y));
    lemma_nearest_found(near, side, x, y);
    lemma_nearest_found(far, side, x, y);
    lemma_unit_parts(inside, d, band);
    lemma_unit_parts(inside, e, band);
    lemma_unit_rises(d, e, band);
    lemma_byte_follows(signed_unit(inside, d, band), signed_unit(inside, e, band));
}

} // verus!
