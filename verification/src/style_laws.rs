//! Laws of the two text formats: where a colour of the picture ends up.

use crate::binary32::{mag_units, round32, Binary32, ONE};
use crate::binary32_laws::{
    lemma_one_units, lemma_round32_between, lemma_times_rises, lemma_units_order,
};
use crate::cluster::{within_unit, Cluster};
use crate::color_track::lemma_near_rises;
use crate::drift_laws::lemma_small_rounding;
use crate::gpu::lemma_saturated_by_one;
use crate::integers::lemma_rounded_between;
use crate::nearness::{lemma_round32_near, lemma_whole_near};
use crate::rounding::lemma_pow2_values;
use crate::style::{
    css_layer, css_layers, css_lines, css_text, css_visible, placed, svg_circle, svg_circles,
    svg_radius, svg_text, svg_visible, SoftnessPreset, StyleOptions,
};
use crate::text::{decimal, signed_decimal};
use vstd::arithmetic::power2::{lemma2_to64, lemma_pow2_adds, lemma_pow2_pos, pow2};
use vstd::prelude::*;
use vstd::string::*;

verus! {

/// Whether `p` is `length` times `x`, to the nearest integer: off by a half and a 4096th part
/// of that at most.
pub open spec fn lies_at(p: int, x: Binary32, length: int) -> bool {
    let k = pow2(149) as int;
    -(4097 * k) <= 8192 * (p * k - length * x.units()) <= 4097 * k
}

/// A product with a whole number.
#[verifier::rlimit(40)]
proof fn lemma_scaled_units(x: Binary32, size: Binary32, n: nat)
    requires
        within_unit(x),
        1 <= n <= 1920,
        !size.negative(),
        size.mag() <= 0x44f0_0000,
        size.units() == n * pow2(149),
    ensures
        !x.times(size).negative(),
        x.times(size).mag() <= size.mag(),
        -(n * pow2(149) + 0x100_0000) <= (x.times(size).units() - n * x.units()) * 0x100_0000 <= n
            * pow2(149) + 0x100_0000,
{
    let k = pow2(149);
    lemma_pow2_pos(149);
    lemma_one_units();
    lemma_units_order(x.mag(), ONE as nat);
    let u = x.units();
    let nu = n * u;
    assert(u * (n * k) == nu * k) by (nonlinear_arith)
        requires
            nu == n * u,
    ;
    assert(mag_units(0) == 0);
    assert(0 * k <= nu * k <= (n * k) * k) by (nonlinear_arith)
        requires
            nu == n * u,
            0 <= u <= k,
    ;
    lemma_round32_between(nu * k, k, 0, size.mag());
    assert(x.times(size).mag() == round32(nu * k, k)) by {
        reveal(Binary32::times);
    }
    assert(!x.times(size).negative()) by {
        reveal(Binary32::times);
    }
    let v = x.times(size).units();
    assert(nu <= n * k) by (nonlinear_arith)
        requires
            nu == n * u,
            u <= k,
    ;
    if nu >= 0x80_0000 {
        assert(nu * k >= 0x80_0000 * k) by (nonlinear_arith)
            requires
                nu >= 0x80_0000,
                k > 0,
        ;
        lemma_round32_near(nu * k, k);
        crate::nearness::lemma_near_scaled(v as int, nu as int, 0x100_0000, k as int);
    } else {
        assert(nu * k < 0x80_0000 * k) by (nonlinear_arith)
            requires
                nu < 0x80_0000,
                k > 0,
        ;
        lemma_small_rounding(nu * k, k);
        assert(nu - 1 <= v <= nu + 1) by (nonlinear_arith)
            requires
                nu * k - k <= v * k <= nu * k + k,
                k > 0,
        ;
    }
}

/// A placed coordinate lies where its part of the length is.
#[verifier::rlimit(40)]
pub(crate) proof fn lemma_placed(x: Binary32, size: Binary32, n: nat)
    requires
        within_unit(x),
        1 <= n <= 1920,
        !size.negative(),
        size.mag() <= 0x44f0_0000,
        size.units() == n * pow2(149),
    ensures
        0 <= placed(x, size) <= n,
        lies_at(placed(x, size), x, n as int),
{
    let k = pow2(149);
    lemma_pow2_pos(149);
    lemma_scaled_units(x, size, n);
    let v = x.times(size);
    lemma_units_order(v.mag(), size.mag());
    assert(0 * k == 0) by (nonlinear_arith);
    lemma_rounded_between(v, 0, n);
    lemma_whole_near(v);
    lemma_pow2_values();
    lemma_pow2_adds(64, 85);
    lemma_pow2_pos(85);
    assert(k >= 0x1_0000_0000_0000_0000) by (nonlinear_arith)
        requires
            k == pow2(64) * pow2(85),
            pow2(64) == 0x1_0000_0000_0000_0000,
            pow2(85) >= 1,
    ;
    assert(n * k <= 1920 * k) by (nonlinear_arith)
        requires
            n <= 1920,
            k >= 0,
    ;
    let p = placed(x, size);
    assert(p == v.whole_near());
    let pk = p * k;
    assert(n as int * x.units() == n * x.units());
}

/// What a placed coordinate is.
proof fn lemma_placed_is(x: Binary32, size: Binary32, n: nat)
    requires
        within_unit(x),
        1 <= n <= 1920,
        !size.negative(),
        size.mag() <= 0x44f0_0000,
        size.units() == n * pow2(149),
    ensures
        placed(x, size) == x.times(size).whole_near(),
{
    lemma_scaled_units(x, size, n);
    let v = x.times(size);
    lemma_units_order(v.mag(), size.mag());
    assert(0 * pow2(149) == 0) by (nonlinear_arith);
    lemma_rounded_between(v, 0, n);
}

/// A placed coordinate does not fall where the coordinate rises.
proof fn lemma_placed_rises(x: Binary32, y: Binary32, size: Binary32, n: nat)
    requires
        within_unit(x),
        within_unit(y),
        x.at_most(y),
        1 <= n <= 1920,
        !size.negative(),
        size.mag() <= 0x44f0_0000,
        size.units() == n * pow2(149),
    ensures
        placed(x, size) <= placed(y, size),
{
    lemma_placed_is(x, size, n);
    lemma_placed_is(y, size, n);
    lemma_units_order(x.mag(), y.mag());
    lemma_times_rises(x, y, size);
    lemma_units_order(x.times(size).mag(), y.times(size).mag());
    lemma_near_rises(x.times(size), y.times(size));
}

/// The lengths that coordinates are scaled by.
pub(crate) proof fn lemma_lengths()
    ensures
        mag_units(0x4487_0000) == 1080 * pow2(149),
        mag_units(0x44f0_0000) == 1920 * pow2(149),
        mag_units(0x42c8_0000) == 100 * pow2(149),
{
    lemma_pow2_values();
    lemma2_to64();
    lemma_pow2_adds(13, 136);
    lemma_pow2_adds(17, 132);
    assert(0x4487_0000nat / 0x80_0000 == 137);
    assert(0x44f0_0000nat / 0x80_0000 == 137);
    assert(0x42c8_0000nat / 0x80_0000 == 133);
    assert(mag_units(0x4487_0000) == 0x87_0000 * pow2(136));
    assert(mag_units(0x44f0_0000) == 0xf0_0000 * pow2(136));
    assert(mag_units(0x42c8_0000) == 0xc8_0000 * pow2(132));
}

/// The circle of an SVG picture with a place and a radius.
pub open spec fn circle_at(i: nat, x: int, y: int, radius: int) -> Seq<char> {
    "  <circle cx=\""@ + signed_decimal(x) + "\" cy=\""@ + signed_decimal(y) + "\" r=\""@
        + signed_decimal(radius) + "\" fill=\"url(#orb-"@ + decimal(i) + ")\"/>\n"@
}

/// A circle stands among the circles.
#[verifier::rlimit(40)]
pub(crate) proof fn lemma_circle_among(clusters: Seq<Cluster>, opts: StyleOptions, i: int, n: nat) -> (around: (
    Seq<char>,
    Seq<char>,
))
    requires
        0 <= i < n <= clusters.len(),
        svg_visible(clusters[i], opts),
    ensures
        svg_circles(clusters, opts, n) == around.0 + svg_circle(i as nat, clusters[i], opts)
            + around.1,
    decreases n,
{
    if i == n - 1 {
        let before = svg_circles(clusters, opts, (n - 1) as nat);
        assert(before + svg_circle(i as nat, clusters[i], opts) =~= before + svg_circle(
            i as nat,
            clusters[i],
            opts,
        ) + Seq::empty());
        (before, Seq::empty())
    } else {
        let (before, after) = lemma_circle_among(clusters, opts, i, (n - 1) as nat);
        let c = clusters[n - 1];
        let more = if svg_visible(c, opts) {
            svg_circle((n - 1) as nat, c, opts)
        } else {
            Seq::empty()
        };
        let circle = svg_circle(i as nat, clusters[i], opts);
        assert(svg_circles(clusters, opts, n) =~= svg_circles(clusters, opts, (n - 1) as nat) + more);
        assert((before + circle + after) + more =~= before + circle + (after + more));
        (before, after + more)
    }
}

/// The SVG picture holds the circle of every cluster that is visible where the cluster lies in
/// the picture: its `cx` is the cluster's `x` times 1080, its `cy` the cluster's `y` times 1920,
/// each to the nearest integer.
#[verifier::rlimit(40)]
pub proof fn lemma_svg_circle_lies_at_its_cluster(
    clusters: Seq<Cluster>,
    opts: StyleOptions,
    i: int,
) -> (parts: (Seq<char>, Seq<char>, int, int, int))
    requires
        0 <= i < clusters.len(),
        svg_visible(clusters[i], opts),
        within_unit(clusters[i].centroid.x),
        within_unit(clusters[i].centroid.y),
    ensures
        svg_text(clusters, opts) == parts.0 + circle_at(i as nat, parts.2, parts.3, parts.4)
            + parts.1,
        lies_at(parts.2, clusters[i].centroid.x, 1080),
        lies_at(parts.3, clusters[i].centroid.y, 1920),
{
    let c = clusters[i];
    let x = placed(c.centroid.x, Binary32 { bits: 0x4487_0000 });
    let y = placed(c.centroid.y, Binary32 { bits: 0x44f0_0000 });
    let radius = svg_radius(c, opts).rounded().as_i32();
    lemma_lengths();
    lemma_placed(c.centroid.x, Binary32 { bits: 0x4487_0000 }, 1080);
    lemma_placed(c.centroid.y, Binary32 { bits: 0x44f0_0000 }, 1920);
    let circle = svg_circle(i as nat, c, opts);
    assert(circle == circle_at(i as nat, x, y, radius));
    let (before, after) = lemma_circle_among(clusters, opts, i, clusters.len());
    let circles = svg_circles(clusters, opts, clusters.len());
    let text = svg_text(clusters, opts);
    let tail = "</svg>\n"@;
    let head = text.take(text.len() - tail.len() - circles.len());
    assert(text =~= head + circles + tail);
    assert(text =~= (head + before) + circle + (after + tail));
    (head + before, after + tail, x, y, radius)
}

/// What a circle is made of.
proof fn lemma_circle_is(c: Cluster, i: nat, opts: StyleOptions)
    ensures
        svg_circle(i, c, opts) == circle_at(
            i,
            placed(c.centroid.x, Binary32 { bits: 0x4487_0000 }),
            placed(c.centroid.y, Binary32 { bits: 0x44f0_0000 }),
            svg_radius(c, opts).rounded().as_i32(),
        ),
{
}

/// Coordinates keep their order.
proof fn lemma_order_kept(x: Binary32, y: Binary32, size: Binary32, n: nat)
    requires
        within_unit(x),
        within_unit(y),
        1 <= n <= 1920,
        !size.negative(),
        size.mag() <= 0x44f0_0000,
        size.units() == n * pow2(149),
    ensures
        x.at_most(y) ==> placed(x, size) <= placed(y, size),
        y.at_most(x) ==> placed(y, size) <= placed(x, size),
{
    if x.at_most(y) {
        lemma_placed_rises(x, y, size, n);
    }
    if y.at_most(x) {
        lemma_placed_rises(y, x, size, n);
    }
}

/// Two clusters, one to the right of and below the other, have circles in the same order: how
/// far right a circle lies depends on `x` alone, and how far down on `y` alone.
#[verifier::rlimit(40)]
pub proof fn lemma_svg_circles_keep_their_order(
    c: Cluster,
    d: Cluster,
    i: nat,
    opts: StyleOptions,
) -> (at: (int, int, int, int, int, int))
    requires
        within_unit(c.centroid.x),
        within_unit(c.centroid.y),
        within_unit(d.centroid.x),
        within_unit(d.centroid.y),
    ensures
        svg_circle(i, c, opts) == circle_at(i, at.0, at.1, at.4),
        svg_circle(i, d, opts) == circle_at(i, at.2, at.3, at.5),
        c.centroid.x.at_most(d.centroid.x) ==> at.0 <= at.2,
        c.centroid.y.at_most(d.centroid.y) ==> at.1 <= at.3,
        d.centroid.x.at_most(c.centroid.x) ==> at.2 <= at.0,
        d.centroid.y.at_most(c.centroid.y) ==> at.3 <= at.1,
{
    let (w, h) = (Binary32 { bits: 0x4487_0000 }, Binary32 { bits: 0x44f0_0000 });
    lemma_lengths();
    lemma_order_kept(c.centroid.x, d.centroid.x, w, 1080);
    lemma_order_kept(c.centroid.y, d.centroid.y, h, 1920);
    lemma_circle_is(c, i, opts);
    lemma_circle_is(d, i, opts);
    (
        placed(c.centroid.x, w),
        placed(c.centroid.y, h),
        placed(d.centroid.x, w),
        placed(d.centroid.y, h),
        svg_radius(c, opts).rounded().as_i32(),
        svg_radius(d, opts).rounded().as_i32(),
    )
}

/// The layer of a style sheet with a place, a colour and stops.
pub open spec fn layer_at(
    x: int,
    y: int,
    rgb: Seq<u8>,
    alpha: Seq<char>,
    mid_alpha: Seq<char>,
    mid: int,
    end: int,
) -> Seq<char> {
    let color = "rgba("@ + (decimal(rgb[0] as nat) + ","@ + decimal(rgb[1] as nat) + ","@ + decimal(
        rgb[2] as nat,
    )) + ","@;
    "radial-gradient(circle at "@ + signed_decimal(x) + "% "@ + signed_decimal(y) + "%, "@ + (color
        + alpha + ") "@ + signed_decimal(0) + "%"@) + ", "@ + (color + mid_alpha + ") "@
        + signed_decimal(mid) + "%"@) + ", "@ + (color + "0"@ + ") "@ + signed_decimal(end) + "%"@)
        + ")"@
}

/// A layer stands among the layers.
proof fn lemma_layer_among(clusters: Seq<Cluster>, opts: StyleOptions, i: int, n: nat) -> (j: int)
    requires
        0 <= i < n <= clusters.len(),
        css_visible(clusters[i]),
    ensures
        0 <= j < css_layers(clusters, opts, n).len(),
        css_layers(clusters, opts, n)[j] == css_layer(clusters[i], opts),
    decreases n,
{
    if i == n - 1 {
        css_layers(clusters, opts, n).len() - 1
    } else {
        lemma_layer_among(clusters, opts, i, (n - 1) as nat)
    }
}

/// A layer stands among the lines.
pub(crate) proof fn lemma_line_among(layers: Seq<Seq<char>>, j: int, k: nat) -> (around: (Seq<char>, Seq<char>))
    requires
        0 <= j < k <= layers.len(),
    ensures
        css_lines(layers, k) == around.0 + layers[j] + around.1,
    decreases k,
{
    let before = css_lines(layers, (k - 1) as nat);
    let end = if k < layers.len() {
        ",\n"@
    } else {
        ";\n"@
    };
    if j == k - 1 {
        let head = before + "        "@;
        assert(css_lines(layers, k) =~= head + layers[j] + end);
        (head, end)
    } else {
        let (a, b) = lemma_line_among(layers, j, (k - 1) as nat);
        let tail = b + "        "@ + layers[k - 1] + end;
        assert(css_lines(layers, k) =~= a + layers[j] + tail);
        (a, tail)
    }
}

/// The style sheet holds the layer of every cluster that weighs something, where the cluster
/// lies in the picture, in percent of its width and height, and in the cluster's colour.
#[verifier::rlimit(40)]
pub proof fn lemma_css_layer_lies_at_its_cluster(
    clusters: Seq<Cluster>,
    opts: StyleOptions,
    i: int,
) -> (parts: (Seq<char>, Seq<char>, int, int, int, int))
    requires
        0 <= i < clusters.len(),
        (Binary32 { bits: 0 }).less(clusters[i].weight),
        within_unit(clusters[i].centroid.x),
        within_unit(clusters[i].centroid.y),
        opts.saturation.bits == ONE,
    ensures
        css_text(clusters, opts) == parts.0 + layer_at(
            parts.2,
            parts.3,
            clusters[i].color@,
            if opts.softness == SoftnessPreset::High {
                "0.55"@
            } else {
                "1"@
            },
            if opts.softness == SoftnessPreset::High {
                "0.275"@
            } else {
                "0.5"@
            },
            parts.4,
            parts.5,
        ) + parts.1,
        lies_at(parts.2, clusters[i].centroid.x, 100),
        lies_at(parts.3, clusters[i].centroid.y, 100),
{
    let c = clusters[i];
    let hundred = Binary32 { bits: 0x42c8_0000 };
    let (x, y) = (placed(c.centroid.x, hundred), placed(c.centroid.y, hundred));
    let (mid, end) = (
        crate::style::css_mid_percent(c, opts),
        crate::style::css_end_percent(c, opts),
    );
    lemma_lengths();
    lemma_placed(c.centroid.x, hundred, 100);
    lemma_placed(c.centroid.y, hundred, 100);
    lemma_layer_is(c, opts, x, y, mid, end);
    let (head, tail) = lemma_layer_in_text(clusters, opts, i);
    (head, tail, x, y, mid, end)
}

/// A layer stands in the style sheet.
pub(crate) proof fn lemma_layer_in_text(clusters: Seq<Cluster>, opts: StyleOptions, i: int) -> (around: (
    Seq<char>,
    Seq<char>,
))
    requires
        0 <= i < clusters.len(),
        (Binary32 { bits: 0 }).less(clusters[i].weight),
    ensures
        css_text(clusters, opts) == around.0 + css_layer(clusters[i], opts) + around.1,
{
    let layers = css_layers(clusters, opts, clusters.len());
    let j = lemma_layer_among(clusters, opts, i, clusters.len());
    let (a, b) = lemma_line_among(layers, j, layers.len());
    let (head, mid, tail) = (
        crate::style::css_head(opts.background@),
        "    --orber-bg:\n"@,
        "}\n"@,
    );
    lemma_spliced(head, mid, a, layers[j], b, tail);
    (head + mid + a, b + tail)
}

/// A text in the middle of others.
proof fn lemma_spliced(
    head: Seq<char>,
    mid: Seq<char>,
    a: Seq<char>,
    x: Seq<char>,
    b: Seq<char>,
    tail: Seq<char>,
)
    ensures
        head + (mid + (a + x + b)) + tail == (head + mid + a) + x + (b + tail),
{
    assert(head + (mid + (a + x + b)) + tail =~= (head + mid + a) + x + (b + tail));
}

/// What a layer is made of.
#[verifier::rlimit(40)]
pub(crate) proof fn lemma_layer_is(c: Cluster, opts: StyleOptions, x: int, y: int, mid: int, end: int)
    requires
        opts.saturation.bits == ONE,
        x == placed(c.centroid.x, Binary32 { bits: 0x42c8_0000 }),
        y == placed(c.centroid.y, Binary32 { bits: 0x42c8_0000 }),
        mid == crate::style::css_mid_percent(c, opts),
        end == crate::style::css_end_percent(c, opts),
    ensures
        css_layer(c, opts) == layer_at(
            x,
            y,
            c.color@,
            if opts.softness == SoftnessPreset::High {
                "0.55"@
            } else {
                "1"@
            },
            if opts.softness == SoftnessPreset::High {
                "0.275"@
            } else {
                "0.5"@
            },
            mid,
            end,
        ),
{
    assert(opts.colour_factor() == (Binary32 { bits: ONE }));
    lemma_saturated_by_one(c.color);
}

} // verus!
