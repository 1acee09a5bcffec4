//! How a picture is fitted into another size.

use crate::binary32::{mag_units, Binary32, INF_MAG};
use crate::binary32_laws::{
    lemma_rank_orders_values, lemma_round32_between, lemma_round32_monotone, lemma_units_order,
};
use crate::cluster::{
    lemma_target_number, longest_side, sample_bytes, sample_height, sample_width, KMEANS_MIN_EDGE,
    KMEANS_TARGET_LONG_EDGE,
};
use crate::glyph::{
    contain_scale, contained_side, field_side, field_size_for, image_sdf, lemma_contained_fits,
    margin, silhouette, wanted_size,
};
use crate::integers::{lemma_of_int_exact, lemma_rounded_between, of_int};
use crate::nearness::{lemma_near_scaled, lemma_times_near, lemma_whole_near, near_by};
use crate::picture::{resized_rgb, resized_rgba};
use crate::placing_laws::lemma_power_units;
use crate::scaling::{lemma_scale_close_exact, scaled_side};
use vstd::arithmetic::power2::{lemma2_to64, lemma_pow2_adds, lemma_pow2_pos, pow2};
use vstd::prelude::*;

verus! {

/// Whether `got` stands to `target` as `side` to `longest`, to the nearest integer: off by a
/// half and a 256th part at most.
pub open spec fn in_proportion(got: int, target: int, side: int, longest: int) -> bool {
    -(129 * longest) <= 256 * (got * longest - side * target) <= 129 * longest
}

/// The numbers of a scaled side.
#[verifier::rlimit(40)]
proof fn lemma_scaled_numbers(side: u32, longest: u32, target: u32)
    requires
        0 < side <= longest < 0x100_0000,
        0 < target <= 0x1000,
    ensures
        ({
            let q = of_int(false, target as nat).over(of_int(false, longest as nat));
            let x = of_int(false, side as nat).times(q);
            let k = pow2(149) as int;
            &&& x.finite()
            &&& !x.negative()
            &&& x.units() <= 0x2000 * k
            &&& near_by(x.units() * longest, (side * target) * k, 0x40_0000)
        }),
{
    let k = pow2(149);
    lemma_pow2_pos(149);
    let q = of_int(false, target as nat).over(of_int(false, longest as nat));
    let a = of_int(false, side as nat);
    lemma_scale_close_exact(longest, target);
    lemma_of_int_exact(false, side as nat);
    let (u, v) = (q.units(), a.units());
    let (ul, tk) = (u * longest, target * k);
    assert(near_by(ul, tk, 0x100_0000)) by {
        assert((ul - tk) * 0x100_0000 == ul * 0x100_0000 - tk * 0x100_0000);
    }
    lemma2_to64();
    lemma_pow2_adds(64, 85);
    lemma_pow2_pos(85);
    assert(k >= 0x1_0000_0000_0000_0000) by (nonlinear_arith)
        requires
            k == pow2(64) * pow2(85),
            pow2(64) == 0x1_0000_0000_0000_0000,
            pow2(85) >= 1,
    ;
    assert(tk >= k && tk <= 0x1000 * k) by (nonlinear_arith)
        requires
            tk == target * k,
            1 <= target <= 0x1000,
            k > 0,
    ;
    assert(2 * ul >= k && ul <= 0x2000 * k);
    assert(u >= 0x80_0000) by (nonlinear_arith)
        requires
            2 * ul >= k,
            ul == u * longest,
            longest < 0x100_0000,
            k >= 0x1_0000_0000_0000_0000,
            u >= 0,
    ;
    let su = side * u;
    assert(v * u == su * k) by (nonlinear_arith)
        requires
            v == side * k,
            su == side * u,
    ;
    assert(0 <= su <= ul && su >= u) by (nonlinear_arith)
        requires
            su == side * u,
            ul == u * longest,
            1 <= side <= longest,
            u >= 0,
    ;
    assert(su * k >= 0x80_0000 * k && 0 * k <= su * k <= (0x2000 * k) * k) by (nonlinear_arith)
        requires
            su >= 0x80_0000,
            su <= 0x2000 * k,
            k > 0,
    ;
    let x = a.times(q);
    lemma_power_units(0x4600_0000, 162);
    lemma_pow2_adds(149, 13);
    assert(mag_units(0) == 0);
    lemma_round32_between((su * k) as nat, k, 0, 0x4600_0000);
    assert(x.mag() <= 0x4600_0000 && !x.negative()) by {
        reveal(Binary32::times);
    }
    lemma_units_order(x.mag(), 0x4600_0000);
    lemma_times_near(a, q);
    let y = x.units();
    lemma_near_scaled(y as int, su, 0x100_0000, k as int);
    // times the longest side
    lemma_near_scaled(y as int, su, 0x100_0000, longest as int);
    lemma_near_scaled(ul, tk, 0x100_0000, side as int);
    assert(su * longest == ul * side && tk * side == (side * target) * k) by (nonlinear_arith)
        requires
            su == side * u,
            ul == u * longest,
            tk == target * k,
    ;
    let (got, mid, want) = (y * longest, su * longest, (side * target) * k);
    assert((got - mid) * 0x100_0000 <= mid && (got - mid) * 0x100_0000 >= -mid);
    assert((mid - want) * 0x100_0000 <= want && (mid - want) * 0x100_0000 >= -want);
}

/// A scaled side is in proportion.
#[verifier::rlimit(40)]
proof fn lemma_scaled_in_proportion(side: u32, longest: u32, target: u32)
    requires
        0 < side <= longest < 0x100_0000,
        0 < target <= 0x1000,
    ensures
        in_proportion(
            scaled_side(
                side,
                of_int(false, target as nat).over(of_int(false, longest as nat)),
            ) as int,
            target as int,
            side as int,
            longest as int,
        ),
{
    let k = pow2(149) as int;
    lemma_pow2_pos(149);
    let q = of_int(false, target as nat).over(of_int(false, longest as nat));
    let x = of_int(false, side as nat).times(q);
    lemma_scaled_numbers(side, longest, target);
    lemma_power_units(0x4600_0000, 162);
    lemma2_to64();
    lemma_pow2_adds(149, 13);
    lemma_units_order(x.mag(), 0x4600_0000);
    assert(0 * k == 0) by (nonlinear_arith);
    lemma_rounded_between(x, 0, 0x2000);
    lemma_whole_near(x);
    let p = scaled_side(side, q) as int;
    let (l, st) = (longest as int, (side * target) as int);
    let (y, pk) = (x.units() as int, p * k);
    let (lk, yl, stk, pl) = (l * k, y * l, st * k, p * l);
    assert(-lk <= 2 * (pl * k - yl) <= lk) by (nonlinear_arith)
        requires
            -k <= 2 * (pk - y) <= k,
            pk == p * k,
            lk == l * k,
            yl == y * l,
            pl == p * l,
            l > 0,
    {
        assert(2 * (pk - y) * l <= k * l && 2 * (pk - y) * l >= (-k) * l);
    }
    assert(0 <= stk <= 0x1000 * lk) by (nonlinear_arith)
        requires
            stk == st * k,
            st == side * target,
            0 <= side <= l,
            0 <= target <= 0x1000,
            lk == l * k,
            k > 0,
    {
        assert(st <= 0x1000 * l);
        assert(st * k <= (0x1000 * l) * k);
    }
    let off = pl - st;
    assert(off * k == pl * k - stk && (129 * l) * k == 129 * lk) by (nonlinear_arith)
        requires
            off == pl - st,
            stk == st * k,
            lk == l * k,
    ;
    assert(-(129 * lk) <= 256 * (pl * k - stk) <= 129 * lk);
    assert(-(129 * l) <= 256 * off <= 129 * l) by (nonlinear_arith)
        requires
            -((129 * l) * k) <= 256 * (off * k) <= (129 * l) * k,
            k > 0,
    ;
}

/// The picture that k-means is given is the picture itself where no side is longer than 256.
/// Else it is the picture reduced so that its longer side is 256 and its sides keep their
/// proportion, but for the shortest side that is allowed.
#[verifier::rlimit(40)]
pub proof fn lemma_sample_keeps_the_proportion(data: Seq<u8>, width: u32, height: u32) -> (size: (
    u32,
    u32,
))
    requires
        0 < width < 0x100_0000,
        0 < height < 0x100_0000,
    ensures
        size == (sample_width(width, height), sample_height(width, height)),
        width <= 256 && height <= 256 ==> size == (width, height) && sample_bytes(
            data,
            width,
            height,
        ) == data,
        width > 256 || height > 256 ==> sample_bytes(data, width, height) == resized_rgb(
            data,
            width,
            height,
            size.0,
            size.1,
        ),
        width > 256 && width >= height ==> size.0 == 256 && (size.1 == KMEANS_MIN_EDGE
            || in_proportion(size.1 as int, 256, height as int, width as int)),
        height > 256 && height >= width ==> size.1 == 256 && (size.0 == KMEANS_MIN_EDGE
            || in_proportion(size.0 as int, 256, width as int, height as int)),
{
    lemma_target_number();
    let longest = longest_side(width, height);
    if longest > KMEANS_TARGET_LONG_EDGE {
        lemma_scaled_in_proportion(width, longest, 256);
        lemma_scaled_in_proportion(height, longest, 256);
        let q = of_int(false, 256).over(of_int(false, longest as nat));
        lemma_whole_side(scaled_side(longest, q) as int, 256, longest as int);
    }
    (sample_width(width, height), sample_height(width, height))
}

/// The longest side becomes the target.
proof fn lemma_whole_side(p: int, target: int, longest: int)
    requires
        in_proportion(p, target, longest, longest),
        longest > 0,
    ensures
        p == target,
{
    let d = p - target;
    assert(p * longest - longest * target == d * longest) by (nonlinear_arith)
        requires
            d == p - target,
    ;
    assert(d == 0) by (nonlinear_arith)
        requires
            -(129 * longest) <= 256 * (d * longest) <= 129 * longest,
            longest > 0,
    {
        if d >= 1 {
            assert(d * longest >= longest);
        }
        if d <= -1 {
            assert(d * longest <= -longest);
        }
    }
}

/// A quotient by a longer side is no larger.
#[verifier::rlimit(40)]
proof fn lemma_quotient_falls(t: Binary32, x: Binary32, y: Binary32)
    requires
        t.finite(),
        x.finite(),
        y.finite(),
        !t.negative(),
        !x.negative(),
        !y.negative(),
        0 < x.units() <= y.units(),
    ensures
        !t.over(x).negative(),
        !t.over(y).negative(),
        t.over(y).mag() <= t.over(x).mag() <= INF_MAG,
{
    let (u, v) = (x.units(), y.units());
    let n = t.units() * pow2(149);
    assert(n * u <= n * v) by (nonlinear_arith)
        requires
            0 <= u <= v,
            n >= 0,
    ;
    assert(mag_units(0) == 0);
    lemma_round32_monotone(n, v, n, u);
    reveal(Binary32::over);
    assert(x.mag() > 0 && y.mag() > 0);
}

/// The smaller of two numbers.
proof fn lemma_smaller(p: Binary32, q: Binary32)
    requires
        !p.negative(),
        !q.negative(),
        q.mag() <= p.mag() <= INF_MAG,
    ensures
        p.smaller(q) == q,
        q.smaller(p) == q,
{
    if q.mag() == p.mag() {
        assert(q.bits == p.bits);
    }
}

/// The scale is that of the longer side.
#[verifier::rlimit(40)]
proof fn lemma_scale_of_the_longer(a: u32, b: u32, target: u32)
    requires
        0 < a <= b < 0x100_0000,
        0 < target <= 0x1000,
    ensures
        ({
            let t = of_int(false, target as nat);
            let (p, q) = (t.over(of_int(false, a as nat)), t.over(of_int(false, b as nat)));
            p.smaller(q) == q && q.smaller(p) == q
        }),
{
    let k = pow2(149);
    lemma_pow2_pos(149);
    let t = of_int(false, target as nat);
    let (x, y) = (of_int(false, a as nat), of_int(false, b as nat));
    lemma_of_int_exact(false, target as nat);
    lemma_of_int_exact(false, a as nat);
    lemma_of_int_exact(false, b as nat);
    assert(0 < a * k <= b * k) by (nonlinear_arith)
        requires
            0 < a <= b,
            k > 0,
    ;
    lemma_quotient_falls(t, x, y);
    lemma_smaller(t.over(x), t.over(y));
}

/// A picture that is made a silhouette is scaled so that its longer side spans the field and
/// its sides keep their proportion, one pixel at least. What is left on two opposite sides
/// differs by a pixel at most.
#[verifier::rlimit(40)]
pub proof fn lemma_picture_is_fitted_and_centred(
    data: Seq<u8>,
    width: u32,
    height: u32,
    size: u32,
) -> (place: (u32, u32, nat, nat))
    requires
        0 < width < 0x100_0000,
        0 < height < 0x100_0000,
        0 < size <= 0x1000,
    ensures
        image_sdf(data, width, height, size) == silhouette(
            resized_rgba(data, width, height, place.0, place.1),
            place.0 as nat,
            place.1 as nat,
            place.2,
            place.3,
            size,
        ),
        width >= height ==> place.0 == size && (place.1 == 1 || in_proportion(
            place.1 as int,
            size as int,
            height as int,
            width as int,
        )),
        height >= width ==> place.1 == size && (place.0 == 1 || in_proportion(
            place.0 as int,
            size as int,
            width as int,
            height as int,
        )),
        ({
            let right = size - place.0 - place.2;
            let below = size - place.1 - place.3;
            0 <= place.2 - right <= 1 && 0 <= place.3 - below <= 1
        }),
{
    let scale = contain_scale(width, height, size);
    lemma_contained_fits(width, height, size);
    let (w, h) = (contained_side(width, scale), contained_side(height, scale));
    let t = of_int(false, size as nat);
    if width >= height {
        lemma_scale_of_the_longer(height, width, size);
        assert(scale == t.over(of_int(false, width as nat)));
        lemma_scaled_in_proportion(width, width, size);
        lemma_scaled_in_proportion(height, width, size);
        lemma_whole_side(scaled_side(width, scale) as int, size as int, width as int);
    }
    if height >= width {
        lemma_scale_of_the_longer(width, height, size);
        assert(scale == t.over(of_int(false, height as nat)));
        lemma_scaled_in_proportion(height, height, size);
        lemma_scaled_in_proportion(width, height, size);
        lemma_whole_side(scaled_side(height, scale) as int, size as int, height as int);
    }
    (w, h, margin(field_side(size), w), margin(field_side(size), h))
}

/// How many pixels a radius asks for: 2.25 times as many, and 256 at least.
#[verifier::rlimit(40)]
proof fn lemma_wanted(radius: Binary32)
    requires
        (Binary32 { bits: 0x3580_0000 }).at_most(radius),
        radius.at_most(Binary32 { bits: 0x4980_0000 }),
    ensures
        ({
            let w = wanted_size(radius) as int;
            let (r, k) = (radius.value(), pow2(149) as int);
            &&& w >= 256
            &&& (9 * r) * 0xff_ffff <= (4 * (w * k)) * 0x100_0000
            &&& w > 256 ==> (9 * r) * 0x100_0001 > (4 * ((w - 1) * k)) * 0x100_0000
        }),
{
    let k = pow2(149);
    let factor = Binary32 { bits: 0x4010_0000 };
    lemma_pow2_pos(149);
    lemma_power_units(0x3580_0000, 129);
    lemma_power_units(0x4980_0000, 169);
    lemma_units_order(0x3580_0000, radius.mag());
    lemma_units_order(radius.mag(), 0x4980_0000);
    lemma2_to64();
    lemma_pow2_adds(127, 22);
    assert(0x4010_0000nat / 0x80_0000 == 128 && 0x4010_0000nat % 0x80_0000 == 0x10_0000);
    assert(factor.units() == 0x90_0000 * pow2(127));
    assert(4 * factor.units() == 9 * k);
    let (r, f) = (radius.units(), factor.units());
    lemma_pow2_adds(64, 65);
    lemma_pow2_pos(65);
    lemma_pow2_adds(149, 20);
    lemma_pow2_adds(149, 22);
    lemma_power_units(0x4a80_0000, 171);
    let rf = r * f;
    assert(4 * rf == (9 * r) * k) by (nonlinear_arith)
        requires
            rf == r * f,
            4 * f == 9 * k,
    ;
    assert(r >= 0x80_0000) by (nonlinear_arith)
        requires
            r >= pow2(129),
            pow2(129) == pow2(64) * pow2(65),
            pow2(64) == 0x1_0000_0000_0000_0000,
            pow2(65) >= 1,
    ;
    assert(rf >= 0x80_0000 * k && 0 * k <= rf <= (0x40_0000 * k) * k) by (nonlinear_arith)
        requires
            4 * rf == (9 * r) * k,
            0x80_0000 <= r <= 0x10_0000 * k,
            k > 0,
    {
        assert((9 * r) * k >= (9 * 0x80_0000) * k);
        assert((9 * r) * k <= (9 * (0x10_0000 * k)) * k);
    }
    let x = radius.times(factor);
    assert(mag_units(0) == 0);
    lemma_round32_between(rf, k, 0, 0x4a80_0000);
    assert(x.mag() <= 0x4a80_0000 && !x.negative()) by {
        reveal(Binary32::times);
    }
    lemma_units_order(x.mag(), 0x4a80_0000);
    lemma_times_near(radius, factor);
    let y = x.units();
    lemma_near_scaled((y * k) as int, rf as int, 0x100_0000, 4);
    lemma_near_scaled(4 * y as int, 9 * r as int, 0x100_0000, k as int);
    assert((y * k) * 4 == (4 * y) * k && rf * 4 == (9 * r) * k) by (nonlinear_arith)
        requires
            4 * rf == (9 * r) * k,
    ;
    // the next integer
    vstd::arithmetic::div_mod::lemma_fundamental_div_mod(y as int, k as int);
    let n = x.whole_up();
    let (w, rest) = (x.whole(), x.rest());
    assert(k * w == w * k && (w + 1) * k == w * k + k && (w - 1) * k == w * k - k)
        by (nonlinear_arith);
    assert(w <= 0x40_0000) by (nonlinear_arith)
        requires
            w * k <= y,
            y <= 0x40_0000 * k,
            k > 0,
    ;
    lemma_of_int_exact(false, n);
    lemma_of_int_exact(false, 256);
    lemma_power_units(0x4380_0000, 157);
    lemma_pow2_adds(149, 8);
    let (c, least) = (of_int(false, n), Binary32 { bits: 0x4380_0000 });
    lemma_rank_orders_values(c, least);
    lemma_rank_orders_values(least, of_int(false, 256));
    assert(x.ceiled() == c);
    assert(y <= n * k && (n - 1) * k < y);
    let got = wanted_size(radius) as int;
    lemma_larger_whole(n as int, k as int);
    if n > 256 {
        assert(got == n);
    } else {
        assert(got == 256);
        assert(n * k <= 256 * k) by (nonlinear_arith)
            requires
                n <= 256,
                k > 0,
        ;
    }
}

proof fn lemma_larger_whole(n: int, k: int)
    requires
        k > 0,
    ensures
        n < 256 <==> n * k < 256 * k,
        n == 256 <==> n * k == 256 * k,
{
    assert((n < 256 <==> n * k < 256 * k) && (n == 256 <==> n * k == 256 * k)) by (nonlinear_arith)
        requires
            k > 0,
    ;
}

/// The field for an orb has 256, 512 or 1024 pixels a side: the smallest of these that holds
/// 2.25 radii, or else the largest.
#[verifier::rlimit(40)]
pub proof fn lemma_field_holds_the_orb(radius: Binary32)
    requires
        (Binary32 { bits: 0x3580_0000 }).at_most(radius),
        radius.at_most(Binary32 { bits: 0x4980_0000 }),
    ensures
        ({
            let side = field_size_for(radius) as int;
            let (r, k) = (radius.value(), pow2(149) as int);
            &&& side == 256 || side == 512 || side == 1024
            &&& side < 1024 ==> (9 * r) * 0xff_ffff <= (4 * (side * k)) * 0x100_0000
            &&& side > 256 ==> (9 * r) * 0x100_0001 > (2 * (side * k)) * 0x100_0000
        }),
{
    let k = pow2(149) as int;
    lemma_pow2_pos(149);
    lemma_wanted(radius);
    let w = wanted_size(radius) as int;
    let side = field_size_for(radius) as int;
    if w <= side {
        assert(w * k <= side * k) by (nonlinear_arith)
            requires
                w <= side,
                k > 0,
        ;
    }
    if side > 256 {
        assert((w - 1) * k >= (side / 2) * k) by (nonlinear_arith)
            requires
                w - 1 >= side / 2,
                k > 0,
        ;
        assert(2 * ((side / 2) * k) == side * k) by (nonlinear_arith)
            requires
                side == 512 || side == 1024,
        ;
    }
}

} // verus!
