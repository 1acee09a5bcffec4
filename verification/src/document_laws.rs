//! Laws of the two text formats: how large, in which colour and on what ground an orb stands.

use crate::binary32::{mag_units, Binary32, ONE};
use crate::binary32_laws::{
    lemma_one_units, lemma_plus_zero, lemma_round32_between, lemma_times_zero, lemma_units_order,
};
use crate::cluster::{within_unit, Cluster};
use crate::gpu::lemma_saturated_by_one;
use crate::integers::lemma_rounded_between;
use crate::nearness::{lemma_whole_near, near_by};
use crate::placing_laws::lemma_power_units;
use crate::size_laws::{lemma_root_span_squared, lemma_span_squared, spans, spans_from_root};
use crate::style::{
    css_end, css_end_percent, css_mid_percent, css_text, css_visible, fixed3, lemma_stops_within,
    placed, rim_stop, svg_circle, svg_circles, svg_gradient, svg_gradients, svg_mid_percent,
    svg_radius, svg_rect, svg_text, svg_visible, unit_clamped, SoftnessPreset, StyleOptions,
};
use crate::style_laws::{
    circle_at, layer_at, lemma_circle_among, lemma_layer_in_text, lemma_layer_is, lemma_lengths,
    lemma_placed, lies_at,
};
use crate::text::{decimal, signed_decimal};
use vstd::arithmetic::power2::{lemma2_to64, lemma_pow2_adds, lemma_pow2_pos, pow2};
use vstd::prelude::*;
use vstd::string::*;

verus! {

/// Whether `p` is, to the nearest integer, a number of `r` units whose square is the square of
/// `length` times the size, times the weight, off by at most one part in `2^17`.
pub open spec fn size_fits(p: int, r: int, length: int, size: Binary32, weight: Binary32) -> bool {
    let k = pow2(149) as int;
    let s = length * size.units();
    &&& -k <= 2 * (p * k - r) <= k
    &&& near_by(r * r * k, s * s * weight.units(), 0x2_0000)
}

/// The sizes and weights of which this is said: a size of `2^-20` to `2^12`, a weight from
/// `2^-64` to 1.
pub open spec fn sizeable(size: Binary32, weight: Binary32) -> bool {
    &&& (Binary32 { bits: 0x3580_0000 }).at_most(size)
    &&& size.at_most(Binary32 { bits: 0x4580_0000 })
    &&& !weight.negative()
    &&& 0x1f80_0000 <= weight.mag() <= ONE
}

/// A radius is at most `2^22` pixels.
#[verifier::rlimit(40)]
proof fn lemma_radius_bound(r: int, s: int, w: int, k: int)
    requires
        near_by(r * r * k, (270 * s) * (270 * s) * w, 0x4_0000),
        0 <= s <= 0x1000 * k,
        0 <= w <= k,
        k > 0,
        r >= 0,
    ensures
        r <= 0x40_0000 * k,
{
    let ss = s * s;
    let z = ss * w;
    let kk = k * k;
    let rr = r * r;
    assert((270 * s) * (270 * s) * w == 72_900 * z) by (nonlinear_arith)
        requires
            ss == s * s,
            z == ss * w,
    ;
    assert(0 <= ss <= 0x100_0000 * kk) by (nonlinear_arith)
        requires
            ss == s * s,
            0 <= s <= 0x1000 * k,
            kk == k * k,
    ;
    assert(z <= (0x100_0000 * kk) * k && z >= 0) by (nonlinear_arith)
        requires
            z == ss * w,
            0 <= ss <= 0x100_0000 * kk,
            0 <= w <= k,
    ;
    let got = r * r * k;
    let cube = kk * k;
    assert((0x100_0000 * kk) * k == 0x100_0000 * cube) by (nonlinear_arith)
        requires
            cube == kk * k,
    ;
    assert((got - 72_900 * z) * 0x4_0000 <= 72_900 * z);
    assert(got <= 145_800 * z);
    assert(rr <= 145_800 * 0x100_0000 * kk) by (nonlinear_arith)
        requires
            got <= 145_800 * z,
            z <= 0x100_0000 * cube,
            got == rr * k,
            cube == kk * k,
            k > 0,
    {
        assert(rr * k <= (145_800 * 0x100_0000 * kk) * k);
    }
    assert(r <= 0x40_0000 * k) by (nonlinear_arith)
        requires
            r * r <= 145_800 * 0x100_0000 * (k * k),
            r >= 0,
            k > 0,
    {
        if r > 0x40_0000 * k {
            assert(r * r > (0x40_0000 * k) * (0x40_0000 * k));
            assert((0x40_0000 * k) * (0x40_0000 * k) == 0x40_0000 * 0x40_0000 * (k * k));
        }
    }
}

/// The radius of a cluster's circle.
#[verifier::rlimit(40)]
proof fn lemma_svg_size(c: Cluster, opts: StyleOptions)
    requires
        sizeable(opts.orb_size, c.weight),
    ensures
        svg_visible(c, opts),
        size_fits(
            svg_radius(c, opts).rounded().as_i32(),
            svg_radius(c, opts).units() as int,
            270,
            opts.orb_size,
            c.weight,
        ),
{
    let length = Binary32 { bits: 0x4387_0000 };
    let (size, weight) = (opts.orb_size, c.weight);
    lemma_two_seventy();
    let r = spans(length, size, weight);
    assert(opts.size_factor() == size && weight.larger(Binary32 { bits: 0 }) == weight);
    assert(svg_radius(c, opts) == r);
    lemma_span_squared(length, 270, size, weight);
    lemma_power_units(0x4580_0000, 161);
    lemma_units_order(size.mag(), 0x4580_0000);
    lemma_power_units(ONE as nat, 149);
    lemma_units_order(weight.mag(), ONE as nat);
    lemma2_to64();
    lemma_pow2_adds(149, 12);
    lemma_pow2_pos(149);
    let k = pow2(149);
    let s = size.units() as int;
    assert(270nat * s == 270int * s);
    lemma_radius_bound(r.units() as int, s, weight.units() as int, k as int);
    lemma_power_units(0x4a80_0000, 171);
    lemma_pow2_adds(149, 22);
    lemma_units_order(r.mag(), 0x4a80_0000);
    assert(0 * k == 0) by (nonlinear_arith);
    lemma_rounded_between(r, 0, 0x40_0000);
    lemma_whole_near(r);
}

/// The units of 270 and 30.
proof fn lemma_two_seventy()
    ensures
        (Binary32 { bits: 0x4387_0000 }).units() == 270 * pow2(149),
        (Binary32 { bits: 0x41f0_0000 }).units() == 30 * pow2(149),
{
    lemma2_to64();
    lemma_pow2_adds(134, 15);
    lemma_pow2_adds(130, 19);
    assert(0x4387_0000nat / 0x80_0000 == 135 && 0x4387_0000nat % 0x80_0000 == 0x7_0000);
    assert(0x41f0_0000nat / 0x80_0000 == 131 && 0x41f0_0000nat % 0x80_0000 == 0x70_0000);
    assert((Binary32 { bits: 0x4387_0000 }).units() == 0x87_0000 * pow2(134));
    assert((Binary32 { bits: 0x41f0_0000 }).units() == 0xf0_0000 * pow2(130));
}

/// An SVG picture draws each cluster as a circle where the cluster lies, and the area of the
/// circle follows its weight: the radius is 270, a quarter of the picture's width, times the
/// size that is asked for, times the root of the weight.
#[verifier::rlimit(40)]
pub proof fn lemma_svg_circle_fits_its_cluster(
    clusters: Seq<Cluster>,
    opts: StyleOptions,
    i: int,
) -> (parts: (Seq<char>, Seq<char>, int, int, int, int))
    requires
        0 <= i < clusters.len(),
        within_unit(clusters[i].centroid.x),
        within_unit(clusters[i].centroid.y),
        sizeable(opts.orb_size, clusters[i].weight),
    ensures
        svg_text(clusters, opts) == parts.0 + circle_at(i as nat, parts.2, parts.3, parts.4)
            + parts.1,
        lies_at(parts.2, clusters[i].centroid.x, 1080),
        lies_at(parts.3, clusters[i].centroid.y, 1920),
        size_fits(parts.4, parts.5, 270, opts.orb_size, clusters[i].weight),
{
    let c = clusters[i];
    let x = placed(c.centroid.x, Binary32 { bits: 0x4487_0000 });
    let y = placed(c.centroid.y, Binary32 { bits: 0x44f0_0000 });
    let r = svg_radius(c, opts);
    let p = r.rounded().as_i32();
    lemma_lengths();
    lemma_placed(c.centroid.x, Binary32 { bits: 0x4487_0000 }, 1080);
    lemma_placed(c.centroid.y, Binary32 { bits: 0x44f0_0000 }, 1920);
    lemma_svg_size(c, opts);
    let circle = svg_circle(i as nat, c, opts);
    assert(circle == circle_at(i as nat, x, y, p));
    let (before, after) = lemma_circle_among(clusters, opts, i, clusters.len());
    let circles = svg_circles(clusters, opts, clusters.len());
    let text = svg_text(clusters, opts);
    let tail = "</svg>\n"@;
    let head = text.take(text.len() - tail.len() - circles.len());
    assert(text =~= head + circles + tail);
    assert(text =~= (head + before) + circle + (after + tail));
    (head + before, after + tail, x, y, p, r.units() as int)
}

/// A cluster that weighs nothing is not drawn.
pub proof fn lemma_nothing_is_drawn_without_weight(c: Cluster, opts: StyleOptions)
    requires
        c.weight.mag() == 0,
        opts.orb_size.mag() < 0x4a80_0000,
    ensures
        !svg_visible(c, opts),
        !css_visible(c),
{
    reveal(Binary32::root);
    reveal(Binary32::times);
    let w = c.weight.larger(Binary32 { bits: 0 });
    assert(w.mag() == 0);
    assert(w.root() == w);
    assert(mag_units(0) == 0);
    let a = (Binary32 { bits: 0x4387_0000 }).times(opts.size_factor());
    lemma_two_seventy();
    lemma_finite_size(opts.size_factor());
    lemma_times_zero(a, w);
}

/// 270 times a size is a number.
#[verifier::rlimit(40)]
proof fn lemma_finite_size(size: Binary32)
    requires
        size.mag() < 0x4a80_0000,
    ensures
        (Binary32 { bits: 0x4387_0000 }).times(size).finite(),
{
    let k = pow2(149);
    lemma_two_seventy();
    lemma_pow2_pos(149);
    lemma_power_units(0x4a80_0000, 171);
    lemma_units_order(size.mag(), 0x4a80_0000);
    lemma_power_units(0x4f00_0000, 180);
    lemma2_to64();
    lemma_pow2_adds(171, 9);
    let s = size.units();
    assert(mag_units(0) == 0);
    assert(0 * k <= (270 * k) * s <= pow2(180) * k) by (nonlinear_arith)
        requires
            0 <= s <= pow2(171),
            pow2(180) == pow2(171) * 512,
            k > 0,
    {
        assert(270 * s <= pow2(180));
        assert((270 * k) * s == (270 * s) * k);
        assert((270 * s) * k <= pow2(180) * k);
    }
    lemma_round32_between((270 * k) * s, k, 0, 0x4f00_0000);
    reveal(Binary32::times);
}

/// The gradient of an SVG picture for a colour and the opacities of its centre and of its
/// middle stop: the colour is the same at all stops, and the edge is clear.
pub open spec fn gradient_at(
    i: nat,
    rgb: Seq<u8>,
    mid: int,
    alpha: Seq<char>,
    mid_alpha: Seq<char>,
) -> Seq<char> {
    let color = decimal(rgb[0] as nat) + ","@ + decimal(rgb[1] as nat) + ","@ + decimal(
        rgb[2] as nat,
    );
    "    <radialGradient id=\"orb-"@ + decimal(i) + "\" cx=\"50%\" cy=\"50%\" r=\"50%\">\n"@ + (
    "      <stop offset=\""@ + signed_decimal(0) + "%\" stop-color=\"rgb("@ + color
        + ")\" stop-opacity=\""@ + alpha + "\"/>\n"@) + ("      <stop offset=\""@ + signed_decimal(
        mid,
    ) + "%\" stop-color=\"rgb("@ + color + ")\" stop-opacity=\""@ + mid_alpha + "\"/>\n"@) + (
    "      <stop offset=\""@ + signed_decimal(100) + "%\" stop-color=\"rgb("@ + color
        + ")\" stop-opacity=\""@ + "0"@ + "\"/>\n"@) + "    </radialGradient>\n"@
}

/// A gradient stands among the gradients.
#[verifier::rlimit(40)]
proof fn lemma_gradient_among(clusters: Seq<Cluster>, opts: StyleOptions, i: int, n: nat) -> (around: (
    Seq<char>,
    Seq<char>,
))
    requires
        0 <= i < n <= clusters.len(),
        svg_visible(clusters[i], opts),
    ensures
        svg_gradients(clusters, opts, n) == around.0 + svg_gradient(i as nat, clusters[i], opts)
            + around.1,
    decreases n,
{
    let before = svg_gradients(clusters, opts, (n - 1) as nat);
    if i == n - 1 {
        let gradient = svg_gradient(i as nat, clusters[i], opts);
        lemma_nothing_behind(before + gradient);
        (before, Seq::empty())
    } else {
        let (a, b) = lemma_gradient_among(clusters, opts, i, (n - 1) as nat);
        let c = clusters[n - 1];
        let gradient = svg_gradient(i as nat, clusters[i], opts);
        let more = if svg_visible(c, opts) {
            svg_gradient((n - 1) as nat, c, opts)
        } else {
            Seq::empty()
        };
        if !svg_visible(c, opts) {
            lemma_nothing_behind(before);
        }
        lemma_regrouped(a, gradient, b, more);
        (a, b + more)
    }
}

proof fn lemma_nothing_behind(s: Seq<char>)
    ensures
        s + Seq::empty() == s,
{
    assert(s + Seq::empty() =~= s);
}

proof fn lemma_regrouped(a: Seq<char>, x: Seq<char>, b: Seq<char>, more: Seq<char>)
    ensures
        (a + x + b) + more == a + x + (b + more),
{
    assert((a + x + b) + more =~= a + x + (b + more));
}

proof fn lemma_within_text(
    head: Seq<char>,
    rect: Seq<char>,
    open: Seq<char>,
    a: Seq<char>,
    x: Seq<char>,
    b: Seq<char>,
    close: Seq<char>,
    circles: Seq<char>,
    tail: Seq<char>,
)
    ensures
        head + rect + open + (a + x + b) + close + circles + tail == (head + rect + open + a) + x + (b
            + close + circles + tail),
{
    assert(head + rect + open + (a + x + b) + close + circles + tail =~= (head + rect + open + a) + x
        + (b + close + circles + tail));
}

/// At a saturation of 1 an SVG picture fills the circle of each cluster with a gradient of the
/// cluster's colour, red, green and blue in this order, under the number that the circle
/// refers to. Its opacity is that of the softness at the centre, half of it at the middle stop
/// and none at the edge. At the middle softness the middle stop is that of a rim of this blur,
/// in percent.
#[verifier::rlimit(40)]
pub proof fn lemma_svg_gradient_shows_its_cluster(
    clusters: Seq<Cluster>,
    opts: StyleOptions,
    i: int,
) -> (parts: (Seq<char>, Seq<char>, int))
    requires
        0 <= i < clusters.len(),
        sizeable(opts.orb_size, clusters[i].weight),
        opts.saturation.bits == ONE,
    ensures
        svg_text(clusters, opts) == parts.0 + gradient_at(
            i as nat,
            clusters[i].color@,
            parts.2,
            fixed3(
                Binary32 {
                    bits: if opts.softness == SoftnessPreset::High {
                        0x3f0c_cccd
                    } else {
                        0x3f80_0000
                    },
                },
            ),
            fixed3(opts.mid_alpha()),
        ) + parts.1,
        plain_blur(opts) ==> lies_at(parts.2, rim_stop(opts.blur), 100),
{
    let c = clusters[i];
    if plain_blur(opts) {
        lemma_mid_stop(opts);
    }
    lemma_svg_size(c, opts);
    assert(opts.colour_factor() == (Binary32 { bits: ONE }));
    lemma_saturated_by_one(c.color);
    let mid = svg_mid_percent(opts);
    lemma_gradient_is(i as nat, c, opts, mid);
    let (a, b) = lemma_gradient_among(clusters, opts, i, clusters.len());
    let head =
        "<?xml version=\"1.0\" encoding=\"UTF-8\"?>\n<svg xmlns=\"http://www.w3.org/2000/svg\" viewBox=\"0 0 1080 1920\" width=\"1080\" height=\"1920\">\n"@;
    let rect = svg_rect(opts.background@);
    let circles = svg_circles(clusters, opts, clusters.len());
    lemma_within_text(
        head,
        rect,
        "  <defs>\n"@,
        a,
        svg_gradient(i as nat, c, opts),
        b,
        "  </defs>\n"@,
        circles,
        "</svg>\n"@,
    );
    (head + rect + "  <defs>\n"@ + a, b + "  </defs>\n"@ + circles + "</svg>\n"@, mid)
}

/// Whether the blur is taken as it is: at the middle softness, where there is some.
pub open spec fn plain_blur(opts: StyleOptions) -> bool {
    opts.softness == SoftnessPreset::Mid && within_unit(opts.blur) && opts.blur.mag() > 0
}

/// The stop of a plain blur.
proof fn lemma_plain_stop(opts: StyleOptions)
    requires
        plain_blur(opts),
    ensures
        opts.soft_blur() == opts.blur,
        within_unit(rim_stop(opts.blur)),
        rim_stop(opts.blur).mag() > 0,
{
    lemma_plus_zero(opts.blur, Binary32 { bits: 0 });
    lemma_stops_within(opts.blur);
}

/// The middle stop of a gradient.
proof fn lemma_mid_stop(opts: StyleOptions)
    requires
        plain_blur(opts),
    ensures
        lies_at(svg_mid_percent(opts), rim_stop(opts.blur), 100),
{
    let hundred = Binary32 { bits: 0x42c8_0000 };
    lemma_plain_stop(opts);
    lemma_lengths();
    let x = rim_stop(opts.blur);
    lemma_placed(x, hundred, 100);
    assert(unit_clamped(x) == x);
    assert(svg_mid_percent(opts) == placed(x, hundred));
}

/// What a gradient is made of.
proof fn lemma_gradient_is(i: nat, c: Cluster, opts: StyleOptions, mid: int)
    requires
        opts.saturation.bits == ONE,
        mid == svg_mid_percent(opts),
    ensures
        svg_gradient(i, c, opts) == gradient_at(
            i,
            c.color@,
            mid,
            fixed3(
                Binary32 {
                    bits: if opts.softness == SoftnessPreset::High {
                        0x3f0c_cccd
                    } else {
                        0x3f80_0000
                    },
                },
            ),
            fixed3(opts.mid_alpha()),
        ),
{
    assert(opts.colour_factor() == (Binary32 { bits: ONE }));
    lemma_saturated_by_one(c.color);
}

/// The background of an SVG picture: nothing where it is clear, and else its colour, red, green
/// and blue in this order, with its opacity where it is not full. It lies under all orbs.
#[verifier::rlimit(40)]
pub proof fn lemma_svg_background(clusters: Seq<Cluster>, opts: StyleOptions) -> (parts: (
    Seq<char>,
    Seq<char>,
))
    ensures
        ({
            let b = opts.background;
            let fill = "  <rect width=\"100%\" height=\"100%\" fill=\"rgb("@ + (decimal(
                b[0] as nat,
            ) + ","@ + decimal(b[1] as nat) + ","@ + decimal(b[2] as nat));
            let rect = if b[3] == 0 {
                Seq::empty()
            } else if b[3] == 255 {
                fill + ")\"/>\n"@
            } else {
                fill + ")\" fill-opacity=\""@ + fixed3(crate::orb::channel_number(b[3]))
                    + "\"/>\n"@
            };
            svg_text(clusters, opts) == parts.0 + rect + parts.1
        }),
{
    let head =
        "<?xml version=\"1.0\" encoding=\"UTF-8\"?>\n<svg xmlns=\"http://www.w3.org/2000/svg\" viewBox=\"0 0 1080 1920\" width=\"1080\" height=\"1920\">\n"@;
    let rect = svg_rect(opts.background@);
    let gradients = svg_gradients(clusters, opts, clusters.len());
    let circles = svg_circles(clusters, opts, clusters.len());
    lemma_rect_in_text(head, rect, "  <defs>\n"@, gradients, "  </defs>\n"@, circles, "</svg>\n"@);
    (head, "  <defs>\n"@ + gradients + "  </defs>\n"@ + circles + "</svg>\n"@)
}

proof fn lemma_rect_in_text(
    head: Seq<char>,
    rect: Seq<char>,
    open: Seq<char>,
    gradients: Seq<char>,
    close: Seq<char>,
    circles: Seq<char>,
    tail: Seq<char>,
)
    ensures
        head + rect + open + gradients + close + circles + tail == head + rect + (open + gradients
            + close + circles + tail),
{
    assert(head + rect + open + gradients + close + circles + tail =~= head + rect + (open
        + gradients + close + circles + tail));
}

/// Whether `p` percent is where a gradient ends that would span a number of `r` units whose
/// square is the square of 30 times the size, times the weight: that number to the nearest
/// integer, but 2 at least and 100 at most.
#[verifier::opaque]
pub open spec fn end_fits(p: int, r: int, size: Binary32, weight: Binary32) -> bool {
    let k = pow2(149) as int;
    let s = 30 * size.units() as int;
    &&& near_by(r * r * k, s * s * weight.units(), 0x2_0000)
    &&& r <= 2 * k ==> p == 2
    &&& r >= 100 * k ==> p == 100
    &&& 2 * k <= r <= 100 * k ==> -k <= 2 * (p * k - r) <= k
}

/// The end of a cluster's gradient.
#[verifier::rlimit(40)]
proof fn lemma_css_size(c: Cluster, opts: StyleOptions)
    requires
        sizeable(opts.orb_size, c.weight),
    ensures
        end_fits(
            css_end_percent(c, opts),
            spans_from_root(
                Binary32 { bits: 0x41f0_0000 },
                opts.orb_size,
                c.weight,
            ).units() as int,
            opts.orb_size,
            c.weight,
        ),
{
    reveal(end_fits);
    let length = Binary32 { bits: 0x41f0_0000 };
    let (size, weight) = (opts.orb_size, c.weight);
    let (two, hundred) = (Binary32 { bits: 0x4000_0000 }, Binary32 { bits: 0x42c8_0000 });
    lemma_two_seventy();
    let r = spans_from_root(length, size, weight);
    assert(opts.size_factor() == size && weight.larger(Binary32 { bits: 0 }) == weight);
    lemma_root_span_squared(length, 30, size, weight);
    let e = r.clamped(two, hundred);
    assert(css_end(c, opts) == e);
    let k = pow2(149);
    lemma_pow2_pos(149);
    lemma_lengths();
    lemma_power_units(0x4000_0000, 150);
    lemma2_to64();
    lemma_pow2_adds(149, 1);
    lemma_units_order(r.mag(), 0x4000_0000);
    lemma_units_order(0x4000_0000, r.mag());
    lemma_units_order(r.mag(), 0x42c8_0000);
    lemma_units_order(0x42c8_0000, r.mag());
    lemma_units_order(0x4000_0000, e.mag());
    lemma_units_order(e.mag(), 0x42c8_0000);
    lemma_rounded_between(e, 2, 100);
    lemma_whole_near(e);
    let p = css_end_percent(c, opts);
    if r.units() <= 2 * k {
        assert(e == two);
        assert(p * k <= 2 * k + k / 2);
        lemma_at_least(p, 2, k as int);
    } else if r.units() >= 100 * k {
        assert(e == hundred);
        lemma_at_most(p, 100, k as int);
    }
}

/// A number whose multiple is no more than a half beyond.
proof fn lemma_at_least(p: int, n: int, k: int)
    requires
        p >= n,
        2 * (p * k - n * k) <= k,
        k > 0,
    ensures
        p == n,
{
    assert(p * k - n * k == (p - n) * k) by (nonlinear_arith);
    assert(p <= n) by (nonlinear_arith)
        requires
            2 * ((p - n) * k) <= k,
            k > 0,
    ;
}

proof fn lemma_at_most(p: int, n: int, k: int)
    requires
        p <= n,
        2 * (p * k - n * k) >= -k,
        k > 0,
    ensures
        p == n,
{
    assert(p * k - n * k == (p - n) * k) by (nonlinear_arith);
    assert(p >= n) by (nonlinear_arith)
        requires
            2 * ((p - n) * k) >= -k,
            k > 0,
    ;
}

/// A style sheet draws each cluster as a layer where the cluster lies, in its colour, and the
/// area of the layer follows its weight: it ends at 30 percent, times the size that is asked
/// for, times the root of the weight.
#[verifier::rlimit(60)]
pub proof fn lemma_css_layer_fits_its_cluster(
    clusters: Seq<Cluster>,
    opts: StyleOptions,
    i: int,
) -> (parts: (Seq<char>, Seq<char>, int, int, int, int, int))
    requires
        0 <= i < clusters.len(),
        within_unit(clusters[i].centroid.x),
        within_unit(clusters[i].centroid.y),
        sizeable(opts.orb_size, clusters[i].weight),
        opts.saturation.bits == ONE,
    ensures
        css_text(clusters, opts) == parts.0 + layer_at(
            parts.2,
            parts.3,
            clusters[i].color@,
            if opts.softness == SoftnessPreset::High {
                "0.55"@
            } else {
                "1"@
            },
            if opts.softness == SoftnessPreset::High {
                "0.275"@
            } else {
                "0.5"@
            },
            parts.4,
            parts.5,
        ) + parts.1,
        lies_at(parts.2, clusters[i].centroid.x, 100),
        lies_at(parts.3, clusters[i].centroid.y, 100),
        0 <= parts.4 < parts.5,
        end_fits(parts.5, parts.6, opts.orb_size, clusters[i].weight),
        plain_blur(opts) ==> mid_fits(parts.4, parts.5, parts.6, rim_stop(opts.blur)),
{
    let c = clusters[i];
    let hundred = Binary32 { bits: 0x42c8_0000 };
    let (x, y) = (placed(c.centroid.x, hundred), placed(c.centroid.y, hundred));
    let (mid, end) = (css_mid_percent(c, opts), css_end_percent(c, opts));
    lemma_layer_numbers(c, opts);
    if plain_blur(opts) {
        lemma_css_mid(c, opts);
    }
    let (head, tail) = lemma_layer_text(clusters, opts, i, x, y, mid, end);
    let r = spans_from_root(Binary32 { bits: 0x41f0_0000 }, opts.orb_size, c.weight);
    (head, tail, x, y, mid, end, r.units() as int)
}

/// A layer stands in the style sheet with its numbers.
#[verifier::rlimit(40)]
proof fn lemma_layer_text(
    clusters: Seq<Cluster>,
    opts: StyleOptions,
    i: int,
    x: int,
    y: int,
    mid: int,
    end: int,
) -> (around: (Seq<char>, Seq<char>))
    requires
        0 <= i < clusters.len(),
        (Binary32 { bits: 0 }).less(clusters[i].weight),
        opts.saturation.bits == ONE,
        x == placed(clusters[i].centroid.x, Binary32 { bits: 0x42c8_0000 }),
        y == placed(clusters[i].centroid.y, Binary32 { bits: 0x42c8_0000 }),
        mid == css_mid_percent(clusters[i], opts),
        end == css_end_percent(clusters[i], opts),
    ensures
        css_text(clusters, opts) == around.0 + layer_at(
            x,
            y,
            clusters[i].color@,
            if opts.softness == SoftnessPreset::High {
                "0.55"@
            } else {
                "1"@
            },
            if opts.softness == SoftnessPreset::High {
                "0.275"@
            } else {
                "0.5"@
            },
            mid,
            end,
        ) + around.1,
{
    lemma_layer_is(clusters[i], opts, x, y, mid, end);
    lemma_layer_in_text(clusters, opts, i)
}

/// Whether `mid` percent is where the middle stop lies of a gradient that spans `r` units and
/// ends at `end` percent: at the part `x` of what it spans, to the nearest integer, but before
/// the end.
#[verifier::opaque]
pub open spec fn mid_fits(mid: int, end: int, r: int, x: Binary32) -> bool {
    let k = pow2(149) as int;
    2 * k <= r <= 100 * k ==> mid == end - 1 || -(4097 * (k * k)) <= 8192 * (mid * k * k - r
        * x.units()) <= 4097 * (k * k)
}

/// The middle stop of a layer.
#[verifier::rlimit(40)]
proof fn lemma_css_mid(c: Cluster, opts: StyleOptions)
    requires
        plain_blur(opts),
        sizeable(opts.orb_size, c.weight),
    ensures
        mid_fits(
            css_mid_percent(c, opts),
            css_end_percent(c, opts),
            spans_from_root(
                Binary32 { bits: 0x41f0_0000 },
                opts.orb_size,
                c.weight,
            ).units() as int,
            rim_stop(opts.blur),
        ),
{
    reveal(mid_fits);
    let (two, hundred) = (Binary32 { bits: 0x4000_0000 }, Binary32 { bits: 0x42c8_0000 });
    let length = Binary32 { bits: 0x41f0_0000 };
    let (size, weight) = (opts.orb_size, c.weight);
    let k = pow2(149);
    lemma_two_seventy();
    let r = spans_from_root(length, size, weight);
    assert(opts.size_factor() == size && weight.larger(Binary32 { bits: 0 }) == weight);
    lemma_root_span_squared(length, 30, size, weight);
    lemma_plain_stop(opts);
    lemma_lengths();
    let e = css_end(c, opts);
    assert(e == r.clamped(two, hundred));
    if 2 * k <= r.units() <= 100 * k {
        lemma_power_units(0x4000_0000, 150);
        lemma2_to64();
        lemma_pow2_adds(149, 1);
        lemma_units_order(0x4000_0000, r.mag());
        lemma_units_order(r.mag(), 0x42c8_0000);
        assert(e == r);
        lemma_stopped(r, rim_stop(opts.blur));
    }
}

/// A part of a number of percent, rounded.
#[verifier::rlimit(40)]
proof fn lemma_stopped(r: Binary32, x: Binary32)
    requires
        r.finite(),
        !r.negative(),
        r.mag() <= 0x42c8_0000,
        2 * pow2(149) <= r.units() <= 100 * pow2(149),
        within_unit(x),
    ensures
        ({
            let p = r.times(x).rounded().as_i32();
            let k = pow2(149) as int;
            &&& 0 <= p
            &&& -(4097 * (k * k)) <= 8192 * (p * k * k - r.units() * x.units()) <= 4097 * (k * k)
        }),
{
    let k = pow2(149);
    lemma_pow2_pos(149);
    lemma_one_units();
    lemma_units_order(x.mag(), ONE as nat);
    lemma_lengths();
    let v = r.times(x);
    let (a, b) = (r.units(), x.units());
    let n = a * b;
    assert(mag_units(0) == 0);
    assert(0 * k <= n <= (100 * k) * k) by (nonlinear_arith)
        requires
            n == a * b,
            0 <= a <= 100 * k,
            0 <= b <= k,
    ;
    lemma_round32_between(n, k, 0, 0x42c8_0000);
    assert(v.mag() <= 0x42c8_0000 && !v.negative()) by {
        reveal(Binary32::times);
    }
    lemma_units_order(v.mag(), 0x42c8_0000);
    crate::placing_laws::lemma_product_off(r, x);
    assert(0 * k == 0) by (nonlinear_arith);
    lemma_rounded_between(v, 0, 100);
    lemma_whole_near(v);
    crate::wandering_laws::lemma_large_one();
    let p = v.rounded().as_i32();
    let (ki, kk) = (k as int, (k * k) as int);
    let (pk, vk) = (p * ki, v.units() * ki);
    assert(0x80_0000 * ki <= kk && (100 * k) * k == 100 * kk) by (nonlinear_arith)
        requires
            ki == k,
            kk == k * k,
            k >= 0x100_0000,
    ;
    assert(-kk <= 2 * (pk * ki - vk) <= kk) by (nonlinear_arith)
        requires
            -ki <= 2 * (pk - v.units()) <= ki,
            vk == v.units() * ki,
            kk == ki * ki,
            ki > 0,
    ;
    assert(p * ki * ki == pk * ki);
}

/// The numbers of a layer.
#[verifier::rlimit(40)]
proof fn lemma_layer_numbers(c: Cluster, opts: StyleOptions)
    requires
        within_unit(c.centroid.x),
        within_unit(c.centroid.y),
        sizeable(opts.orb_size, c.weight),
    ensures
        lies_at(placed(c.centroid.x, Binary32 { bits: 0x42c8_0000 }), c.centroid.x, 100),
        lies_at(placed(c.centroid.y, Binary32 { bits: 0x42c8_0000 }), c.centroid.y, 100),
        0 <= css_mid_percent(c, opts) < css_end_percent(c, opts),
        end_fits(
            css_end_percent(c, opts),
            spans_from_root(
                Binary32 { bits: 0x41f0_0000 },
                opts.orb_size,
                c.weight,
            ).units() as int,
            opts.orb_size,
            c.weight,
        ),
{
    let hundred = Binary32 { bits: 0x42c8_0000 };
    lemma_lengths();
    lemma_placed(c.centroid.x, hundred, 100);
    lemma_placed(c.centroid.y, hundred, 100);
    lemma_css_size(c, opts);
    lemma_end_positive(c, opts);
}

/// A gradient ends behind its middle stop.
proof fn lemma_end_positive(c: Cluster, opts: StyleOptions)
    requires
        sizeable(opts.orb_size, c.weight),
    ensures
        0 <= css_mid_percent(c, opts) < css_end_percent(c, opts),
{
    reveal(end_fits);
    lemma_css_size(c, opts);
    let k = pow2(149) as int;
    lemma_pow2_pos(149);
    let p = css_end_percent(c, opts);
    let r = spans_from_root(Binary32 { bits: 0x41f0_0000 }, opts.orb_size, c.weight).units() as int;
    if 2 * k < r < 100 * k {
        assert(p >= 2) by (nonlinear_arith)
            requires
                -k <= 2 * (p * k - r),
                r >= 2 * k,
                k > 0,
        ;
    }
}

/// The background colour of a style sheet: clear, or its colour, red, green and blue in this
/// order, with its opacity where it is not full.
#[verifier::rlimit(40)]
pub proof fn lemma_css_background(clusters: Seq<Cluster>, opts: StyleOptions) -> (parts: (
    Seq<char>,
    Seq<char>,
))
    ensures
        ({
            let b = opts.background;
            let list = decimal(b[0] as nat) + ", "@ + decimal(b[1] as nat) + ", "@ + decimal(
                b[2] as nat,
            );
            let color = if b[3] == 0 {
                "transparent"@
            } else if b[3] == 255 {
                "rgb("@ + list + ")"@
            } else {
                "rgba("@ + list + ", "@ + fixed3(crate::orb::channel_number(b[3])) + ")"@
            };
            css_text(clusters, opts) == parts.0 + color + parts.1
        }),
{
    let color = crate::style::css_background(opts.background@);
    let text = css_text(clusters, opts);
    let head = crate::style::css_head(opts.background@);
    let rest = text.skip(head.len() as int);
    assert(text =~= head + rest);
    let before = head.take(head.len() - color.len() - ";\n"@.len());
    assert(head =~= before + color + ";\n"@);
    lemma_regrouped(before, color, ";\n"@, rest);
    (before, ";\n"@ + rest)
}

} // verus!
