//! What a silhouette takes for its subject.

use crate::binary32::{mag_units, round32, Binary32};
use crate::binary32_laws::{
    lemma_rank_orders_values, lemma_round32_between, lemma_round32_monotone, lemma_sum_units,
    lemma_times_rises, lemma_units_order,
};
use crate::field_laws::lemma_silhouette_is_the_subject;
use crate::glyph::{
    dark_count, field_side, in_subject, luma, luma_mean, luma_sum, silhouette, subject_count,
    translucent_count,
};
use crate::integers::{lemma_of_int_exact, of_int};
use crate::nearness::{
    lemma_near_chain, lemma_near_scaled, lemma_plus_near, lemma_round32_near, lemma_times_near,
    near_by,
};
use crate::placing_laws::lemma_power_units;
use vstd::arithmetic::power2::{lemma2_to64, lemma_pow2_adds, lemma_pow2_pos, pow2};
use vstd::prelude::*;

verus! {

/// How bright pixel `i` is, in thousandths of a channel's step: green counts most and blue
/// least.
pub open spec fn brightness(data: Seq<u8>, i: int) -> int {
    299 * data[4 * i] + 587 * data[4 * i + 1] + 114 * data[4 * i + 2]
}

/// A channel and its weight, in bounds.
#[verifier::rlimit(40)]
proof fn lemma_weighed_bounds(weight: Binary32, c: u8)
    requires
        !weight.negative(),
        0x3d80_0000 <= weight.mag() <= 0x3f80_0000,
    ensures
        ({
            let n = of_int(false, c as nat);
            let x = weight.times(n);
            let uv = weight.units() * n.units();
            &&& n.finite()
            &&& !n.negative()
            &&& n.units() == c * pow2(149)
            &&& uv == 0 || uv >= 0x80_0000 * pow2(149)
            &&& x.finite()
            &&& !x.negative()
            &&& x.units() <= 256 * pow2(149)
        }),
{
    let k = pow2(149);
    lemma_pow2_pos(149);
    let n = of_int(false, c as nat);
    lemma_of_int_exact(false, c as nat);
    let x = weight.times(n);
    let (u, v) = (weight.units(), n.units());
    lemma_power_units(0x3d80_0000, 145);
    lemma_power_units(0x3f80_0000, 149);
    lemma_power_units(0x4380_0000, 157);
    lemma_units_order(0x3d80_0000, weight.mag());
    lemma_units_order(weight.mag(), 0x3f80_0000);
    lemma2_to64();
    lemma_pow2_adds(149, 8);
    lemma_pow2_adds(64, 81);
    lemma_pow2_pos(81);
    assert(u >= 0x80_0000) by (nonlinear_arith)
        requires
            u >= pow2(145),
            pow2(145) == pow2(64) * pow2(81),
            pow2(64) == 0x1_0000_0000_0000_0000,
            pow2(81) >= 1,
    ;
    assert(u * v == 0 || u * v >= 0x80_0000 * k) by (nonlinear_arith)
        requires
            v == c * k,
            u >= 0x80_0000,
            k > 0,
            c >= 0,
    {
        if c > 0 {
            assert(v >= k);
            assert(u * v >= u * k);
            assert(u * k >= 0x80_0000 * k);
        } else {
            assert(v == 0);
        }
    }
    assert(mag_units(0) == 0);
    assert(0 * k <= u * v <= (256 * k) * k) by (nonlinear_arith)
        requires
            v == c * k,
            0 <= c <= 255,
            0 <= u <= k,
    {
        assert(0 <= v <= 256 * k);
        assert(u * v <= k * (256 * k));
    }
    lemma_round32_between(u * v, k, 0, 0x4380_0000);
    assert(x.mag() == round32(u * v, k) && !x.negative()) by {
        reveal(Binary32::times);
    }
    lemma_units_order(x.mag(), 0x4380_0000);
}

/// A channel and its weight.
#[verifier::rlimit(40)]
proof fn lemma_weighed(weight: Binary32, w: int, c: u8)
    requires
        !weight.negative(),
        0x3d80_0000 <= weight.mag() <= 0x3f80_0000,
        near_by(1000 * weight.units() as int, w * pow2(149), 0x100_0000),
    ensures
        ({
            let x = weight.times(of_int(false, c as nat));
            &&& x.finite()
            &&& !x.negative()
            &&& near_by(1000 * x.units() as int, (w * c) * pow2(149), 0x40_0000)
            &&& x.units() <= 256 * pow2(149)
        }),
{
    let k = pow2(149);
    lemma_pow2_pos(149);
    let n = of_int(false, c as nat);
    lemma_weighed_bounds(weight, c);
    let x = weight.times(n);
    let (u, v) = (weight.units(), n.units());
    lemma_times_near(weight, n);
    let y = x.units();
    let uc = u * c;
    assert(u * v == uc * k) by (nonlinear_arith)
        requires
            v == c * k,
            uc == u * c,
    ;
    lemma_near_scaled(y as int, uc, 0x100_0000, k as int);
    lemma_near_scaled(y as int, uc, 0x100_0000, 1000);
    if c == 0 {
        assert(uc == 0 && (w * c) * k == 0) by (nonlinear_arith)
            requires
                c == 0,
                uc == u * c,
        ;
    } else {
        lemma_near_scaled(1000 * u as int, w * k, 0x100_0000, c as int);
        assert((1000 * u) * c == uc * 1000 && (w * k) * c == (w * c) * k) by (nonlinear_arith)
            requires
                uc == u * c,
        ;
        lemma_near_chain((y * 1000) as int, uc * 1000, (w * c) * k);
    }
}

/// The weights are what they stand for.
#[verifier::rlimit(40)]
proof fn lemma_weights()
    ensures
        near_by(
            1000 * (Binary32 { bits: 0x3e99_1687 }).units() as int,
            299 * pow2(149) as int,
            0x100_0000,
        ),
        near_by(
            1000 * (Binary32 { bits: 0x3f16_45a2 }).units() as int,
            587 * pow2(149) as int,
            0x100_0000,
        ),
        near_by(
            1000 * (Binary32 { bits: 0x3de9_78d5 }).units() as int,
            114 * pow2(149) as int,
            0x100_0000,
        ),
{
    lemma2_to64();
    lemma_pow2_adds(124, 25);
    lemma_pow2_adds(125, 24);
    lemma_pow2_adds(122, 27);
    lemma_pow2_pos(124);
    lemma_pow2_pos(125);
    lemma_pow2_pos(122);
    assert(0x3e99_1687nat / 0x80_0000 == 125 && 0x3e99_1687nat % 0x80_0000 == 0x19_1687);
    assert(0x3f16_45a2nat / 0x80_0000 == 126 && 0x3f16_45a2nat % 0x80_0000 == 0x16_45a2);
    assert(0x3de9_78d5nat / 0x80_0000 == 123 && 0x3de9_78d5nat % 0x80_0000 == 0x69_78d5);
    assert((Binary32 { bits: 0x3e99_1687 }).units() == 0x99_1687 * pow2(124));
    assert((Binary32 { bits: 0x3f16_45a2 }).units() == 0x96_45a2 * pow2(125));
    assert((Binary32 { bits: 0x3de9_78d5 }).units() == 0xe9_78d5 * pow2(122));
    assert(pow2(149) == pow2(124) * 0x200_0000);
    assert(pow2(149) == pow2(125) * 0x100_0000);
    assert(pow2(149) == pow2(122) * 0x800_0000);
}

/// Two sums of near numbers, rounded.
proof fn lemma_three_near(x: int, y: int, z: int, s: int, t: int, a: int, b: int, c: int)
    requires
        near_by(1000 * x, a, 0x40_0000),
        near_by(1000 * y, b, 0x40_0000),
        near_by(1000 * z, c, 0x40_0000),
        near_by(s, x + y, 0x100_0000),
        near_by(t, s + z, 0x100_0000),
        x >= 0,
        y >= 0,
        z >= 0,
    ensures
        near_by(1000 * t, a + b + c, 0x20_0000),
{
}

/// The luma of a pixel is its brightness: the sum of its channels, red by 0.299, green by
/// 0.587 and blue by 0.114, off by at most one part in `2^21`.
#[verifier::rlimit(40)]
pub proof fn lemma_luma_weighs_the_channels(data: Seq<u8>, i: int)
    ensures
        luma(data, i).finite(),
        !luma(data, i).negative(),
        near_by(1000 * luma(data, i).units() as int, brightness(data, i) * pow2(149), 0x20_0000),
{
    let k = pow2(149);
    lemma_pow2_pos(149);
    lemma_weights();
    let (r, g, b) = (data[4 * i], data[4 * i + 1], data[4 * i + 2]);
    let x = (Binary32 { bits: 0x3e99_1687 }).times(of_int(false, r as nat));
    let y = (Binary32 { bits: 0x3f16_45a2 }).times(of_int(false, g as nat));
    let z = (Binary32 { bits: 0x3de9_78d5 }).times(of_int(false, b as nat));
    lemma_weighed(Binary32 { bits: 0x3e99_1687 }, 299, r);
    lemma_weighed(Binary32 { bits: 0x3f16_45a2 }, 587, g);
    lemma_weighed(Binary32 { bits: 0x3de9_78d5 }, 114, b);
    lemma_power_units(0x4480_0000, 159);
    lemma_power_units(0x4400_0000, 158);
    lemma2_to64();
    lemma_pow2_adds(149, 9);
    lemma_pow2_adds(149, 10);
    assert(mag_units(0) == 0);
    let s = x.plus(y);
    lemma_sum_units(x, y);
    lemma_round32_between(x.units() + y.units(), 1, 0, 0x4400_0000);
    lemma_units_order(s.mag(), 0x4400_0000);
    lemma_plus_near(x, y);
    let t = s.plus(z);
    lemma_sum_units(s, z);
    lemma_round32_between(s.units() + z.units(), 1, 0, 0x4480_0000);
    lemma_plus_near(s, z);
    lemma_three_near(
        x.units() as int,
        y.units() as int,
        z.units() as int,
        s.units() as int,
        t.units() as int,
        (299 * r) * k,
        (587 * g) * k,
        (114 * b) * k,
    );
    let (a, e, f) = (299 * r, 587 * g, 114 * b);
    assert((a + e + f) * k == a * k + e * k + f * k) by (nonlinear_arith);
    assert(brightness(data, i) == a + e + f);
}

/// The luma of a pixel does not fall where any of its channels rises.
pub proof fn lemma_luma_rises(data: Seq<u8>, i: int, other: Seq<u8>, j: int)
    requires
        data[4 * i] <= other[4 * j],
        data[4 * i + 1] <= other[4 * j + 1],
        data[4 * i + 2] <= other[4 * j + 2],
    ensures
        luma(data, i).at_most(luma(other, j)),
{
    let (wr, wg, wb) = (
        Binary32 { bits: 0x3e99_1687 },
        Binary32 { bits: 0x3f16_45a2 },
        Binary32 { bits: 0x3de9_78d5 },
    );
    lemma_weighed_rises(wr, data[4 * i], other[4 * j]);
    lemma_weighed_rises(wg, data[4 * i + 1], other[4 * j + 1]);
    lemma_weighed_rises(wb, data[4 * i + 2], other[4 * j + 2]);
    let x = wr.times(of_int(false, data[4 * i] as nat));
    let y = wg.times(of_int(false, data[4 * i + 1] as nat));
    let z = wb.times(of_int(false, data[4 * i + 2] as nat));
    let a = wr.times(of_int(false, other[4 * j] as nat));
    let b = wg.times(of_int(false, other[4 * j + 1] as nat));
    let c = wb.times(of_int(false, other[4 * j + 2] as nat));
    lemma_sum_rises(x, y, a, b);
    lemma_sum_rises(x.plus(y), z, a.plus(b), c);
}

/// A weighed channel does not fall.
proof fn lemma_weighed_rises(weight: Binary32, c: u8, d: u8)
    requires
        !weight.negative(),
        0x3d80_0000 <= weight.mag() <= 0x3f80_0000,
        c <= d,
    ensures
        ({
            let x = weight.times(of_int(false, c as nat));
            let y = weight.times(of_int(false, d as nat));
            &&& x.finite() && !x.negative() && x.units() <= 256 * pow2(149)
            &&& y.finite() && !y.negative() && y.units() <= 256 * pow2(149)
            &&& x.mag() <= y.mag()
        }),
{
    lemma_weighed_bounds(weight, c);
    lemma_weighed_bounds(weight, d);
    let (m, n) = (of_int(false, c as nat), of_int(false, d as nat));
    assert(c * pow2(149) <= d * pow2(149)) by (nonlinear_arith)
        requires
            c <= d,
            pow2(149) >= 0,
    ;
    lemma_times_rises(m, n, weight);
}

/// A sum does not fall when its terms rise.
#[verifier::rlimit(40)]
proof fn lemma_sum_rises(x: Binary32, y: Binary32, a: Binary32, b: Binary32)
    requires
        x.finite(),
        y.finite(),
        a.finite(),
        b.finite(),
        !x.negative(),
        !y.negative(),
        !a.negative(),
        !b.negative(),
        x.mag() <= a.mag(),
        y.mag() <= b.mag(),
        a.units() <= 512 * pow2(149),
        b.units() <= 512 * pow2(149),
    ensures
        x.plus(y).mag() <= a.plus(b).mag(),
        a.plus(b).finite(),
        !x.plus(y).negative(),
        !a.plus(b).negative(),
        a.units() <= 256 * pow2(149) && b.units() <= 256 * pow2(149) ==> a.plus(b).units() <= 512
            * pow2(149),
{
    lemma_sum_units(x, y);
    lemma_sum_units(a, b);
    lemma_units_order(x.mag(), a.mag());
    lemma_units_order(y.mag(), b.mag());
    lemma_round32_monotone(x.units() + y.units(), 1, a.units() + b.units(), 1);
    lemma_power_units(0x4480_0000, 159);
    lemma_power_units(0x4400_0000, 158);
    lemma2_to64();
    lemma_pow2_adds(149, 9);
    lemma_pow2_adds(149, 10);
    assert(mag_units(0) == 0);
    lemma_round32_between(a.units() + b.units(), 1, 0, 0x4480_0000);
    if a.units() <= 256 * pow2(149) && b.units() <= 256 * pow2(149) {
        lemma_round32_between(a.units() + b.units(), 1, 0, 0x4400_0000);
        lemma_units_order(a.plus(b).mag(), 0x4400_0000);
    }
}

/// How many of the first `n` pixels pass a test.
pub open spec fn how_many(test: spec_fn(int) -> bool, n: nat) -> nat
    decreases n,
{
    if n == 0 {
        0
    } else {
        how_many(test, (n - 1) as nat) + if test(n - 1) {
            1nat
        } else {
            0
        }
    }
}

/// Whether pixel `i` has a colour.
pub open spec fn shows(data: Seq<u8>, i: int, color: [u8; 3]) -> bool {
    data[4 * i] == color[0] && data[4 * i + 1] == color[1] && data[4 * i + 2] == color[2]
}

/// How bright a colour is, in thousandths of a channel's step.
pub open spec fn color_brightness(color: [u8; 3]) -> int {
    299 * color[0] + 587 * color[1] + 114 * color[2]
}

/// The luma of a colour.
spec fn color_luma(color: [u8; 3]) -> Binary32 {
    luma(seq![color[0], color[1], color[2]], 0)
}

proof fn lemma_color_luma(color: [u8; 3])
    ensures
        color_luma(color).finite(),
        !color_luma(color).negative(),
        near_by(
            1000 * color_luma(color).units() as int,
            color_brightness(color) * pow2(149),
            0x20_0000,
        ),
        color_luma(color).units() <= 256 * pow2(149),
{
    let pixel = seq![color[0], color[1], color[2]];
    lemma_luma_weighs_the_channels(pixel, 0);
    let k = pow2(149);
    let b = brightness(pixel, 0);
    assert(b == color_brightness(color));
    assert(0 <= b * k <= 255_000 * k) by (nonlinear_arith)
        requires
            0 <= b <= 255_000,
            k >= 0,
    ;
}

proof fn lemma_shown_luma(data: Seq<u8>, i: int, color: [u8; 3])
    requires
        shows(data, i, color),
    ensures
        luma(data, i) == color_luma(color),
{
    let pixel = seq![color[0], color[1], color[2]];
    assert(pixel[0] == color[0] && pixel[1] == color[1] && pixel[2] == color[2]);
}

/// The exact sum of `a` dark and `b` bright lumas.
spec fn exact_sum(dark: [u8; 3], bright: [u8; 3], a: nat, b: nat) -> int {
    (a * color_luma(dark).units() + b * color_luma(bright).units()) as int
}

/// Whether every one of the first `n` pixels is opaque and has one of two colours.
pub open spec fn two_coloured(data: Seq<u8>, n: nat, dark: [u8; 3], bright: [u8; 3]) -> bool {
    forall|i: int|
        0 <= i < n ==> #[trigger] data[4 * i + 3] == 255 && (shows(data, i, dark) || shows(
            data,
            i,
            bright,
        ))
}

/// One more term of a sum that slips.
#[verifier::rlimit(40)]
proof fn lemma_sum_step(s: int, t: int, sum: int, l: int, n: int)
    requires
        sum * (0x100_0000 - n) <= s * 0x100_0000 <= sum * (0x100_0000 + 2 * n),
        near_by(t, s + l, 0x100_0000),
        l >= 0,
        sum >= 0,
        s >= 0,
        0 <= n < 0x10_0000,
    ensures
        (sum + l) * (0x100_0000 - (n + 1)) <= t * 0x100_0000 <= (sum + l) * (0x100_0000 + 2 * (n
            + 1)),
{
    let sn = sum * n;
    let ln = l * n;
    assert(sum * (0x100_0000 - n) == sum * 0x100_0000 - sn && sum * (0x100_0000 + 2 * n) == sum
        * 0x100_0000 + 2 * sn) by (nonlinear_arith)
        requires
            sn == sum * n,
    ;
    assert((sum + l) * (0x100_0000 - (n + 1)) == (sum + l) * 0x100_0000 - sn - ln - sum - l && (sum
        + l) * (0x100_0000 + 2 * (n + 1)) == (sum + l) * 0x100_0000 + 2 * sn + 2 * ln + 2 * sum + 2
        * l) by (nonlinear_arith)
        requires
            sn == sum * n,
            ln == l * n,
    ;
    assert(0 <= sn <= 0x10_0000 * sum && 0 <= ln) by (nonlinear_arith)
        requires
            sn == sum * n,
            ln == l * n,
            0 <= n < 0x10_0000,
            sum >= 0,
            l >= 0,
    ;
}

/// What the lumas of a picture of two colours add up to.
#[verifier::rlimit(40)]
proof fn lemma_two_sum(data: Seq<u8>, n: nat, dark: [u8; 3], bright: [u8; 3])
    requires
        two_coloured(data, n, dark, bright),
        n <= 0x10_0000,
    ensures
        ({
            let a = how_many(|i: int| shows(data, i, dark), n);
            let sum = exact_sum(dark, bright, a, (n - a) as nat);
            let s = luma_sum(data, n);
            &&& a <= n
            &&& s.finite()
            &&& !s.negative()
            &&& sum * (0x100_0000 - n) <= s.units() * 0x100_0000 <= sum * (0x100_0000 + 2 * n)
            &&& 0 <= sum <= n * (256 * pow2(149))
        }),
    decreases n,
{
    let k = pow2(149);
    let test = |i: int| shows(data, i, dark);
    let a = how_many(test, n);
    let (ld, lb) = (color_luma(dark).units(), color_luma(bright).units());
    if n == 0 {
        assert(mag_units(0) == 0);
        assert(0 * ld == 0 && 0 * lb == 0 && 0 * (0x100_0000 - 0) == 0 && 0 * (256 * k) == 0)
            by (nonlinear_arith);
    } else {
        let m = (n - 1) as nat;
        lemma_two_sum(data, m, dark, bright);
        let before = how_many(test, m);
        let s = luma_sum(data, m);
        let l = luma(data, m as int);
        let sum = exact_sum(dark, bright, before, (m - before) as nat);
        assert(data[4 * (m as int) + 3] == 255);
        lemma_color_luma(dark);
        lemma_color_luma(bright);
        let b = (m - before) as nat;
        assert((before + 1) * ld == before * ld + ld && (b + 1) * lb == b * lb + lb)
            by (nonlinear_arith);
        if test(m as int) {
            lemma_shown_luma(data, m as int, dark);
        } else {
            lemma_shown_luma(data, m as int, bright);
        }
        assert(exact_sum(dark, bright, a, (n - a) as nat) == sum + l.units());
        assert(m * (256 * k) + 256 * k == n * (256 * k)) by (nonlinear_arith)
            requires
                n == m + 1,
        ;
        let t = s.plus(l);
        lemma_sum_units(s, l);
        lemma_sum_room(s.units() as int, l.units() as int, sum, m as int, k as int);
        lemma_power_units(0x4e80_0000, 179);
        lemma2_to64();
        lemma_pow2_adds(149, 30);
        assert(mag_units(0) == 0);
        lemma_round32_between(s.units() + l.units(), 1, 0, 0x4e80_0000);
        lemma_plus_near(s, l);
        lemma_sum_step(
            s.units() as int,
            t.units() as int,
            sum,
            l.units() as int,
            m as int,
        );
    }
}

proof fn lemma_sum_room(s: int, l: int, sum: int, m: int, k: int)
    requires
        s * 0x100_0000 <= sum * (0x100_0000 + 2 * m),
        0 <= sum <= m * (256 * k),
        0 <= m < 0x10_0000,
        l <= 256 * k,
        k >= 0,
    ensures
        s + l <= 0x4000_0000 * k,
{
    assert(sum * (0x100_0000 + 2 * m) <= 2 * (sum * 0x100_0000)) by (nonlinear_arith)
        requires
            0 <= m < 0x10_0000,
            sum >= 0,
    ;
    assert(m * (256 * k) <= 0x10_0000 * (256 * k)) by (nonlinear_arith)
        requires
            0 <= m < 0x10_0000,
            k >= 0,
    ;
}

/// The difference between two colours outweighs what the sum slips.
#[verifier::rlimit(40)]
proof fn lemma_outweighs(
    part: int,
    n: int,
    ld: int,
    lb: int,
    a: int,
    b: int,
    k: int,
)
    requires
        near_by(1000 * ld, a * k, 0x20_0000),
        near_by(1000 * lb, b * k, 0x20_0000),
        0 <= a < b,
        0 <= part <= n,
        0 < n <= 0x10_0000,
        k > 0,
        part * (b - a) * 0x100_0000 > (2 * n + 64) * n * b,
    ensures
        part * (lb - ld) * 0x100_0000 > (2 * n + 4) * n * lb,
        lb > ld,
{
    let d = lb - ld;
    let (ak, bk) = (a * k, b * k);
    assert(0 <= ak < bk) by (nonlinear_arith)
        requires
            ak == a * k,
            bk == b * k,
            0 <= a < b,
            k > 0,
    ;
    assert(1000 * d * 0x100_0000 >= (bk - ak) * 0x100_0000 - 16 * bk);
    assert(1000 * lb * 0x100_0000 <= bk * 0x100_0008);
    let pd = part * d;
    let pb = part * bk;
    let pa = part * ak;
    let nb = n * bk;
    let nnb = n * nb;
    // the part of the difference
    assert(1000 * pd * 0x100_0000 >= (pb - pa) * 0x100_0000 - 16 * pb) by (nonlinear_arith)
        requires
            1000 * d * 0x100_0000 >= (bk - ak) * 0x100_0000 - 16 * bk,
            pd == part * d,
            pb == part * bk,
            pa == part * ak,
            part >= 0,
    ;
    assert((pb - pa) * 0x100_0000 > 2 * nnb + 64 * nb) by {
        let z = part * (b - a) * 0x100_0000;
        let y = (2 * n + 64) * n * b;
        assert(z * k > y * k) by (nonlinear_arith)
            requires
                z > y,
                k > 0,
        ;
        assert(z * k == (pb - pa) * 0x100_0000) by (nonlinear_arith)
            requires
                z == part * (b - a) * 0x100_0000,
                pb == part * bk,
                pa == part * ak,
                ak == a * k,
                bk == b * k,
        ;
        assert(y * k == 2 * nnb + 64 * nb) by (nonlinear_arith)
            requires
                y == (2 * n + 64) * n * b,
                nnb == n * nb,
                nb == n * bk,
                bk == b * k,
        ;
    }
    assert(pb <= nb && nb >= bk && nnb <= 0x10_0000 * nb) by (nonlinear_arith)
        requires
            pb == part * bk,
            nb == n * bk,
            nnb == n * nb,
            0 <= part <= n,
            1 <= n <= 0x10_0000,
            bk >= 0,
    ;
    assert(1000 * pd * 0x100_0000 > 2 * nnb + 48 * nb);
    let nl = n * lb;
    let nnl = n * nl;
    assert(1000 * nl * 0x100_0000 <= nb * 0x100_0008) by (nonlinear_arith)
        requires
            1000 * lb * 0x100_0000 <= bk * 0x100_0008,
            nl == n * lb,
            nb == n * bk,
            n >= 0,
    ;
    assert(1000 * nnl * 0x100_0000 <= nnb * 0x100_0008) by (nonlinear_arith)
        requires
            1000 * nl * 0x100_0000 <= nb * 0x100_0008,
            nnl == n * nl,
            nnb == n * nb,
            n >= 0,
    ;
    assert((2 * n + 4) * n * lb == 2 * nnl + 4 * nl) by (nonlinear_arith)
        requires
            nnl == n * nl,
            nl == n * lb,
    ;
    assert(pd * 0x100_0000 > 2 * nnl + 4 * nl);
    assert(lb >= 0);
    assert(nl >= 0 && nnl >= 0) by (nonlinear_arith)
        requires
            nl == n * lb,
            nnl == n * nl,
            n >= 0,
            lb >= 0,
    ;
    assert(d > 0) by (nonlinear_arith)
        requires
            pd == part * d,
            pd > 0,
            part >= 0,
    ;
}

/// The mean of the lumas parts the two colours.
#[verifier::rlimit(40)]
proof fn lemma_mean_parts(
    na: int,
    nb: int,
    n: int,
    ld: int,
    lb: int,
    s: int,
    m: int,
)
    requires
        n == na + nb,
        na >= 0,
        nb >= 0,
        0 < n <= 0x10_0000,
        0 <= ld < lb,
        (na * ld + nb * lb) * (0x100_0000 - n) <= s * 0x100_0000 <= (na * ld + nb * lb)
            * (0x100_0000 + 2 * n),
        near_by(m * n, s, 0x100_0000),
        na * (lb - ld) * 0x100_0000 > (2 * n + 4) * n * lb,
        nb * (lb - ld) * 0x100_0000 > (2 * n + 4) * n * lb,
    ensures
        ld < m <= lb,
{
    let sum = na * ld + nb * lb;
    let d = lb - ld;
    let (pa, pb) = (na * d, nb * d);
    let (nl, nd, mn) = (n * lb, n * ld, m * n);
    let nnl = n * nl;
    let sn = sum * n;
    assert(sum == nl - pa && sum == nd + pb) by (nonlinear_arith)
        requires
            sum == na * ld + nb * lb,
            pa == na * d,
            pb == nb * d,
            d == lb - ld,
            n == na + nb,
            nl == n * lb,
            nd == n * ld,
    ;
    assert((2 * n + 4) * n * lb == 2 * nnl + 4 * nl) by (nonlinear_arith)
        requires
            nnl == n * nl,
            nl == n * lb,
    ;
    assert(pa >= 0 && pb >= 0 && nd >= 0) by (nonlinear_arith)
        requires
            pa == na * d,
            pb == nb * d,
            nd == n * ld,
            na >= 0,
            nb >= 0,
            d > 0,
            n > 0,
            ld >= 0,
    ;
    assert(sum >= 0);
    assert(0 <= sn <= nnl) by (nonlinear_arith)
        requires
            sn == sum * n,
            nnl == n * nl,
            0 <= sum <= nl,
            n >= 0,
    ;
    assert(sn <= 0x10_0000 * sum) by (nonlinear_arith)
        requires
            sn == sum * n,
            0 <= n <= 0x10_0000,
            sum >= 0,
    ;
    assert(sum * (0x100_0000 - n) == sum * 0x100_0000 - sn && sum * (0x100_0000 + 2 * n) == sum
        * 0x100_0000 + 2 * sn) by (nonlinear_arith)
        requires
            sn == sum * n,
    ;
    assert(pa * 0x100_0000 > 2 * nnl + 4 * nl && pb * 0x100_0000 > 2 * nnl + 4 * nl);
    // off by less than what parts them
    assert(mn * 0x100_0000 <= sum * 0x100_0000 + 2 * sn + 2 * sum);
    assert(mn * 0x100_0000 >= sum * 0x100_0000 - sn - 2 * sum);
    assert(sum <= nl);
    assert(mn < nl);
    assert(mn > nd);
    assert(m < lb) by (nonlinear_arith)
        requires
            mn == m * n,
            nl == n * lb,
            mn < nl,
            n > 0,
    ;
    assert(m > ld) by (nonlinear_arith)
        requires
            mn == m * n,
            nd == n * ld,
            mn > nd,
            n > 0,
    ;
}

/// Whether `part` of `n` pixels are enough for the mean luma to tell a brightness of `a` from
/// one of `b`: the lumas are added up in single precision, which blurs the mean.
pub open spec fn tells_apart(part: nat, n: nat, a: int, b: int) -> bool {
    part * (b - a) * 0x100_0000 > (2 * n + 64) * n * b
}

/// The mean luma of a picture of two colours lies above the dark and not above the bright one.
#[verifier::rlimit(40)]
proof fn lemma_mean_between_colors(data: Seq<u8>, n: nat, dark: [u8; 3], bright: [u8; 3])
    requires
        0 < n <= 0x10_0000,
        two_coloured(data, n, dark, bright),
        color_brightness(dark) < color_brightness(bright),
        tells_apart(
            how_many(|i: int| shows(data, i, dark), n),
            n,
            color_brightness(dark),
            color_brightness(bright),
        ),
        tells_apart(
            (n - how_many(|i: int| shows(data, i, dark), n)) as nat,
            n,
            color_brightness(dark),
            color_brightness(bright),
        ),
    ensures
        color_luma(dark).less(luma_mean(data, n)),
        luma_mean(data, n).at_most(color_luma(bright)),
{
    let k = pow2(149);
    lemma_pow2_pos(149);
    let na = how_many(|i: int| shows(data, i, dark), n);
    lemma_two_sum(data, n, dark, bright);
    let nb = (n - na) as nat;
    lemma_color_luma(dark);
    lemma_color_luma(bright);
    let (ld, lb) = (color_luma(dark), color_luma(bright));
    let (a, b) = (color_brightness(dark), color_brightness(bright));
    lemma_outweighs(na as int, n as int, ld.units() as int, lb.units() as int, a, b, k as int);
    lemma_outweighs(nb as int, n as int, ld.units() as int, lb.units() as int, a, b, k as int);
    let s = luma_sum(data, n);
    let count = of_int(false, n);
    lemma_of_int_exact(false, n);
    let sum = exact_sum(dark, bright, na, nb);
    lemma_mean_room(
        s.units() as int,
        sum,
        n as int,
        na as int,
        nb as int,
        ld.units() as int,
        lb.units() as int,
        b,
        k as int,
    );
    let nk = n * k;
    assert(nk > 0) by (nonlinear_arith)
        requires
            nk == n * k,
            n > 0,
            k > 0,
    ;
    let mean = s.over(count);
    let sk = s.units() * k;
    assert(sk >= 0x80_0000 * nk) by (nonlinear_arith)
        requires
            sk == s.units() * k,
            nk == n * k,
            s.units() >= 0x80_0000 * n,
            k > 0,
    ;
    assert(0 * nk <= sk <= s.units() * nk) by (nonlinear_arith)
        requires
            sk == s.units() * k,
            nk == n * k,
            n >= 1,
            k > 0,
            s.units() >= 0,
    ;
    assert(mag_units(0) == 0);
    assert(count.mag() > 0) by {
        if count.mag() == 0 {
            assert(count.units() == 0);
        }
    }
    lemma_round32_between(sk, nk, 0, s.mag());
    assert(mean.finite() && !mean.negative() && mean.mag() == round32(sk, nk)) by {
        reveal(Binary32::over);
    }
    lemma_round32_near(sk, nk);
    let m = mean.units();
    assert(m * nk == (m * n) * k) by (nonlinear_arith)
        requires
            nk == n * k,
    ;
    lemma_near_scaled((m * n) as int, s.units() as int, 0x100_0000, k as int);
    lemma_mean_parts(
        na as int,
        nb as int,
        n as int,
        ld.units() as int,
        lb.units() as int,
        s.units() as int,
        m as int,
    );
    lemma_rank_orders_values(ld, mean);
    lemma_rank_orders_values(mean, lb);
}

/// The sum is large enough to be divided well.
#[verifier::rlimit(40)]
proof fn lemma_mean_room(
    s: int,
    sum: int,
    n: int,
    na: int,
    nb: int,
    ld: int,
    lb: int,
    b: int,
    k: int,
)
    requires
        sum * (0x100_0000 - n) <= s * 0x100_0000,
        sum == na * ld + nb * lb,
        n == na + nb,
        na >= 0,
        nb >= 0,
        0 < n <= 0x10_0000,
        0 <= ld < lb,
        nb * (lb - ld) * 0x100_0000 > (2 * n + 4) * n * lb,
        near_by(1000 * lb, b * k, 0x20_0000),
        b > 0,
        k == pow2(149),
    ensures
        s >= 0x80_0000 * n,
{
    lemma2_to64();
    lemma_pow2_adds(64, 85);
    lemma_pow2_pos(85);
    assert(k >= 0x1_0000_0000_0000_0000) by (nonlinear_arith)
        requires
            k == pow2(64) * pow2(85),
            pow2(64) == 0x1_0000_0000_0000_0000,
            pow2(85) >= 1,
    ;
    assert(b * k >= k) by (nonlinear_arith)
        requires
            b > 0,
            k > 0,
    ;
    assert(lb >= 0x10_0000_0000_0000);
    assert(nb > 0) by (nonlinear_arith)
        requires
            nb * (lb - ld) * 0x100_0000 > (2 * n + 4) * n * lb,
            nb >= 0,
            n > 0,
            lb >= 0,
    {
        assert((2 * n + 4) * n * lb >= 0);
        if nb == 0 {
            assert(nb * (lb - ld) * 0x100_0000 == 0);
        }
    }
    assert(sum >= lb) by (nonlinear_arith)
        requires
            sum == na * ld + nb * lb,
            na >= 0,
            ld >= 0,
            nb > 0,
            lb >= 0,
    ;
    assert(sum * (0x100_0000 - n) >= sum * 0xf0_0000) by (nonlinear_arith)
        requires
            n <= 0x10_0000,
            sum >= 0,
    ;
}

/// The dark pixels are those of the dark colour.
proof fn lemma_dark_count(
    data: Seq<u8>,
    n: nat,
    dark: [u8; 3],
    bright: [u8; 3],
    mean: Binary32,
)
    requires
        two_coloured(data, n, dark, bright),
        color_luma(dark).less(mean),
        mean.at_most(color_luma(bright)),
    ensures
        dark_count(data, mean, n) == how_many(|i: int| shows(data, i, dark), n),
    decreases n,
{
    if n > 0 {
        let m = (n - 1) as nat;
        lemma_dark_count(data, m, dark, bright, mean);
        assert(data[4 * (m as int) + 3] == 255);
        lemma_color_side(data, m as int, dark, bright, mean);
    }
}

/// Which side of the mean a pixel is on.
proof fn lemma_color_side(
    data: Seq<u8>,
    i: int,
    dark: [u8; 3],
    bright: [u8; 3],
    mean: Binary32,
)
    requires
        shows(data, i, dark) || shows(data, i, bright),
        color_luma(dark).less(mean),
        mean.at_most(color_luma(bright)),
    ensures
        luma(data, i).less(mean) <==> shows(data, i, dark),
        mean.at_most(luma(data, i)) <==> shows(data, i, bright),
        !(shows(data, i, dark) && shows(data, i, bright)),
{
    if shows(data, i, dark) {
        lemma_shown_luma(data, i, dark);
    }
    if shows(data, i, bright) {
        lemma_shown_luma(data, i, bright);
    }
}

/// Where all pixels are opaque alpha tells nothing.
proof fn lemma_opaque(data: Seq<u8>, n: nat)
    requires
        forall|i: int| 0 <= i < n ==> #[trigger] data[4 * i + 3] == 255,
    ensures
        translucent_count(data, n) == 0,
    decreases n,
{
    if n > 0 {
        lemma_opaque(data, (n - 1) as nat);
        assert(data[4 * (n - 1) + 3] == 255);
    }
}

/// The number of pixels of the subject.
proof fn lemma_subject_count(data: Seq<u8>, n: nat, k: nat, test: spec_fn(int) -> bool)
    requires
        k <= n,
        forall|i: int| 0 <= i < n ==> #[trigger] in_subject(data, n, i) == test(i),
    ensures
        subject_count(data, n, k) == how_many(test, k),
    decreases k,
{
    if k > 0 {
        lemma_subject_count(data, n, (k - 1) as nat, test);
        assert(in_subject(data, n, k - 1) == test(k - 1));
    }
}

/// Two tests of which each pixel passes one.
proof fn lemma_one_of_two(one: spec_fn(int) -> bool, other: spec_fn(int) -> bool, n: nat)
    requires
        forall|i: int| 0 <= i < n ==> #[trigger] one(i) != other(i),
    ensures
        how_many(one, n) + how_many(other, n) == n,
    decreases n,
{
    if n > 0 {
        lemma_one_of_two(one, other, (n - 1) as nat);
        assert(one(n - 1) != other(n - 1));
    }
}

/// An opaque picture of two colours has a silhouette, and what is inside of it is the rarer
/// colour; the bright one where there is as much of both. The two differ enough for the blur
/// of the mean luma.
#[verifier::rlimit(40)]
pub proof fn lemma_rarer_colour_is_the_subject(
    data: Seq<u8>,
    w: nat,
    h: nat,
    dx: nat,
    dy: nat,
    size: u32,
    dark: [u8; 3],
    bright: [u8; 3],
    x: int,
    y: int,
)
    requires
        0 < w * h <= 0x10_0000,
        two_coloured(data, w * h, dark, bright),
        color_brightness(dark) < color_brightness(bright),
        tells_apart(
            how_many(|i: int| shows(data, i, dark), w * h),
            w * h,
            color_brightness(dark),
            color_brightness(bright),
        ),
        tells_apart(
            (w * h - how_many(|i: int| shows(data, i, dark), w * h)) as nat,
            w * h,
            color_brightness(dark),
            color_brightness(bright),
        ),
        size <= 0x400_0000,
        0 <= x < field_side(size),
        0 <= y < field_side(size),
    ensures
        silhouette(data, w, h, dx, dy, size) is Some,
        ({
            let rarer = if 2 * how_many(|i: int| shows(data, i, dark), w * h) < w * h {
                dark
            } else {
                bright
            };
            silhouette(data, w, h, dx, dy, size)->0[y * field_side(size) + x] >= 128 <==> dx <= x
                < dx + w && dy <= y < dy + h && shows(data, (y - dy) * w + (x - dx), rarer)
        }),
{
    let n = w * h;
    let is_dark = |i: int| shows(data, i, dark);
    let is_bright = |i: int| shows(data, i, bright);
    let na = how_many(is_dark, n);
    let mean = luma_mean(data, n);
    lemma_mean_between_colors(data, n, dark, bright);
    lemma_dark_count(data, n, dark, bright, mean);
    assert forall|i: int| 0 <= i < n implies #[trigger] data[4 * i + 3] == 255 by {}
    lemma_opaque(data, n);
    let inside = if 2 * na < n {
        is_dark
    } else {
        is_bright
    };
    assert forall|i: int| 0 <= i < n implies #[trigger] in_subject(data, n, i) == inside(i) by {
        assert(data[4 * i + 3] == 255);
        lemma_color_side(data, i, dark, bright, mean);
    }
    lemma_subject_count(data, n, n, inside);
    assert forall|i: int| 0 <= i < n implies #[trigger] is_dark(i) != is_bright(i) by {
        assert(data[4 * i + 3] == 255);
        lemma_color_side(data, i, dark, bright, mean);
    }
    lemma_one_of_two(is_dark, is_bright, n);
    lemma_part_is_there(na, n, color_brightness(dark), color_brightness(bright));
    lemma_part_is_there((n - na) as nat, n, color_brightness(dark), color_brightness(bright));
    lemma_silhouette_is_the_subject(data, w, h, dx, dy, size, x, y);
    if dx <= x < dx + w && dy <= y < dy + h {
        let (p, q) = (x - dx, y - dy);
        assert(0 <= q * w + p < n) by (nonlinear_arith)
            requires
                0 <= p < w,
                0 <= q < h,
                n == w * h,
        ;
        assert(in_subject(data, n, q * w + p) == inside(q * w + p));
    }
}

/// What tells colours apart is not empty.
proof fn lemma_part_is_there(part: nat, n: nat, a: int, b: int)
    requires
        tells_apart(part, n, a, b),
        b >= 0,
    ensures
        part > 0,
{
    assert((2 * n + 64) * n * b >= 0) by (nonlinear_arith)
        requires
            n >= 0,
            b >= 0,
    ;
    if part == 0 {
        assert(0 * (b - a) * 0x100_0000 == 0) by (nonlinear_arith);
    }
}

/// The pixels that are not opaque, counted in another way.
proof fn lemma_translucent(data: Seq<u8>, n: nat)
    ensures
        translucent_count(data, n) == how_many(|i: int| data[4 * i + 3] < 255, n),
    decreases n,
{
    if n > 0 {
        lemma_translucent(data, (n - 1) as nat);
    }
}

/// Where at least one pixel in a hundred is not opaque, what is inside of the silhouette are
/// the pixels that are at least half opaque, whatever their colours. There is no silhouette
/// where these are all pixels or none.
#[verifier::rlimit(40)]
pub proof fn lemma_opaque_is_the_subject(
    data: Seq<u8>,
    w: nat,
    h: nat,
    dx: nat,
    dy: nat,
    size: u32,
    x: int,
    y: int,
)
    requires
        w * h > 0,
        100 * how_many(|i: int| data[4 * i + 3] < 255, w * h) >= w * h,
        size <= 0x400_0000,
        0 <= x < field_side(size),
        0 <= y < field_side(size),
    ensures
        ({
            let solid = how_many(|i: int| data[4 * i + 3] >= 128, w * h);
            let shape = silhouette(data, w, h, dx, dy, size);
            &&& shape is Some <==> 0 < solid < w * h
            &&& shape is Some ==> (shape->0[y * field_side(size) + x] >= 128 <==> dx <= x < dx + w
                && dy <= y < dy + h && data[4 * ((y - dy) * w + (x - dx)) + 3] >= 128)
        }),
{
    let n = w * h;
    lemma_translucent(data, n);
    let solid = |i: int| data[4 * i + 3] >= 128;
    assert forall|i: int| 0 <= i < n implies #[trigger] in_subject(data, n, i) == solid(i) by {}
    lemma_subject_count(data, n, n, solid);
    lemma_how_many_at_most(solid, n);
    if silhouette(data, w, h, dx, dy, size) is Some {
        lemma_silhouette_is_the_subject(data, w, h, dx, dy, size, x, y);
    }
}

proof fn lemma_how_many_at_most(test: spec_fn(int) -> bool, n: nat)
    ensures
        how_many(test, n) <= n,
    decreases n,
{
    if n > 0 {
        lemma_how_many_at_most(test, (n - 1) as nat);
    }
}

} // verus!
