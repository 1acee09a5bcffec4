//! Pictures as text: SVG and CSS.
//!
//! Both formats share the layout of the rendered pictures: one orb for each
//! cluster, at its centroid, with a radius that grows with the root of its weight.

use crate::binary32::{lemma_round32_zero, mag_units, Binary32, INF_MAG, ONE};
use crate::binary32_laws::{
    lemma_clamped_within, lemma_difference_number, lemma_difference_units,
    lemma_mag_units_increases, lemma_no_way_towards, lemma_rank_orders_values, lemma_ratio_rises,
    lemma_round32_between, lemma_round32_monotone, lemma_times_one, lemma_times_rises,
    lemma_units_order,
};
use crate::cluster::Cluster;
use crate::integers::lemma_rounded_between;
use crate::orb::{adjust_saturation_pub, lemma_channel_in_unit, saturated};
use crate::rounding::{half_even, lemma_pow2_values, power_of_two};
use crate::text::{decimal, padded, push_decimal, push_padded, push_signed, signed_decimal};
use vstd::arithmetic::power2::{
    lemma_pow2_adds, lemma_pow2_pos, lemma_pow2_strictly_increases, pow2,
};
use vstd::prelude::*;
use vstd::string::*;

verus! {

/// How soft the orbs look.
#[derive(Clone, Copy, Debug, PartialEq, Eq, Hash, Structural)]
pub enum SoftnessPreset {
    /// Sharp edges.
    Low,
    /// The plain look.
    Mid,
    /// Soft edges, more translucent.
    High,
}

impl Default for SoftnessPreset {
    fn default() -> (r: SoftnessPreset)
        ensures
            r == SoftnessPreset::Mid,
    {
        SoftnessPreset::Mid
    }
}

impl SoftnessPreset {
    pub open spec fn alpha(self) -> Binary32 {
        match self {
            SoftnessPreset::Low => Binary32 { bits: ONE },
            SoftnessPreset::Mid => Binary32 { bits: ONE },
            SoftnessPreset::High => Binary32 { bits: 0x3f0c_cccd },
        }
    }

    pub open spec fn offset(self) -> Binary32 {
        match self {
            SoftnessPreset::Low => Binary32 { bits: 0xbe80_0000 },
            SoftnessPreset::Mid => Binary32 { bits: 0 },
            SoftnessPreset::High => Binary32 { bits: 0x3e80_0000 },
        }
    }

    pub open spec fn edge(self) -> Binary32 {
        match self {
            SoftnessPreset::Low => Binary32 { bits: 0x3e99_999a },
            SoftnessPreset::Mid => Binary32 { bits: 0x3f19_999a },
            SoftnessPreset::High => Binary32 { bits: ONE },
        }
    }

    /// Multiplies the opacity at the centre of an orb: 1, 1 or 0.55.
    pub fn alpha_mul(self) -> (r: Binary32)
        ensures
            r == self.alpha(),
    {
        match self {
            SoftnessPreset::Low => Binary32 { bits: ONE },
            SoftnessPreset::Mid => Binary32 { bits: ONE },
            SoftnessPreset::High => Binary32 { bits: 0x3f0c_cccd },
        }
    }

    /// Is added to the blur: -0.25, 0 or 0.25. The sum is clamped to 0 to 1 by the
    /// callers.
    pub fn blur_offset(self) -> (r: Binary32)
        ensures
            r == self.offset(),
    {
        match self {
            SoftnessPreset::Low => Binary32 { bits: 0xbe80_0000 },
            SoftnessPreset::Mid => Binary32 { bits: 0 },
            SoftnessPreset::High => Binary32 { bits: 0x3e80_0000 },
        }
    }

    /// The width of the edge of glyphs and pictures: 0.3, 0.6 or 1.
    pub fn edge_softness(self) -> (r: Binary32)
        ensures
            r == self.edge(),
    {
        match self {
            SoftnessPreset::Low => Binary32 { bits: 0x3e99_999a },
            SoftnessPreset::Mid => Binary32 { bits: 0x3f19_999a },
            SoftnessPreset::High => Binary32 { bits: ONE },
        }
    }
}

/// How the opacity falls off, whatever the shape.
#[derive(Clone, Copy, Debug, PartialEq, Eq, Structural)]
pub enum FalloffProfile {
    Rim,
    Soft,
}

pub open spec fn unit_clamped(x: Binary32) -> Binary32 {
    x.clamped(Binary32 { bits: 0 }, Binary32 { bits: ONE })
}

fn unit_clamp(x: Binary32) -> (r: Binary32)
    ensures
        r == unit_clamped(x),
{
    x.clamp(Binary32 { bits: 0 }, Binary32 { bits: ONE })
}

/// Where the middle stop of a rim lies: `1 - 0.8 * blur`, within 0.05 to 0.95.
pub open spec fn rim_stop(blur: Binary32) -> Binary32 {
    (Binary32 { bits: ONE }).minus(
        unit_clamped(blur).times(Binary32 { bits: 0x3f4c_cccd }),
    ).clamped(Binary32 { bits: 0x3d4c_cccd }, Binary32 { bits: 0x3f73_3333 })
}

/// How far a soft orb keeps its full opacity: `1 - blur`, within 0.05 to 0.95.
pub open spec fn hold_stop(blur: Binary32) -> Binary32 {
    (Binary32 { bits: ONE }).minus(unit_clamped(blur)).clamped(
        Binary32 { bits: 0x3d4c_cccd },
        Binary32 { bits: 0x3f73_3333 },
    )
}

/// The middle stop of the rim profile: towards the outside at blur 0, towards the
/// centre at blur 1.
pub fn rim_mid_stop(blur: Binary32) -> (r: Binary32)
    ensures
        r == rim_stop(blur),
{
    (Binary32 { bits: ONE }).sub(unit_clamp(blur).mul(Binary32 { bits: 0x3f4c_cccd })).clamp(
        Binary32 { bits: 0x3d4c_cccd },
        Binary32 { bits: 0x3f73_3333 },
    )
}

/// The end of the held centre of the soft profile.
pub fn soft_hold_stop(blur: Binary32) -> (r: Binary32)
    ensures
        r == hold_stop(blur),
{
    (Binary32 { bits: ONE }).sub(unit_clamp(blur)).clamp(
        Binary32 { bits: 0x3d4c_cccd },
        Binary32 { bits: 0x3f73_3333 },
    )
}

/// How far `r` lies between `stop` (0) and the edge (1).
pub open spec fn outer_part(r: Binary32, stop: Binary32) -> Binary32 {
    r.minus(stop).over(
        (Binary32 { bits: ONE }).minus(stop).larger(Binary32 { bits: 0x3586_37bd }),
    )
}

fn outer_fraction(r: Binary32, stop: Binary32) -> (u: Binary32)
    ensures
        u == outer_part(r, stop),
{
    r.sub(stop).div((Binary32 { bits: ONE }).sub(stop).max(Binary32 { bits: 0x3586_37bd }))
}

/// The opacity at distance `r` from the centre, where the edge is at 1: none
/// outside and none without opacity; between the stops straight lines.
pub open spec fn falloff(
    profile: FalloffProfile,
    r: Binary32,
    blur: Binary32,
    opacity: Binary32,
) -> Binary32 {
    let one = Binary32 { bits: ONE };
    let zero = Binary32 { bits: 0 };
    let full = unit_clamped(opacity);
    let r = r.larger(zero);
    if full.at_most(zero) || one.at_most(r) {
        zero
    } else {
        match profile {
            FalloffProfile::Rim => {
                let mid = full.times(Binary32 { bits: 0x3ea0_a0a1 });
                let stop = rim_stop(blur);
                if r.at_most(stop) {
                    let u = if zero.less(stop) {
                        r.over(stop)
                    } else {
                        one
                    };
                    full.plus(mid.minus(full).times(u))
                } else {
                    mid.times(one.minus(outer_part(r, stop)))
                }
            },
            FalloffProfile::Soft => {
                let stop = hold_stop(blur);
                if r.at_most(stop) {
                    full
                } else {
                    full.times(one.minus(outer_part(r, stop)))
                }
            },
        }
    }
}

/// The opacity at distance `r` from the centre (0), where the edge is at 1.
pub fn falloff_curve(
    profile: FalloffProfile,
    r: Binary32,
    blur: Binary32,
    opacity: Binary32,
) -> (a: Binary32)
    ensures
        a == falloff(profile, r, blur, opacity),
{
    let one = Binary32 { bits: ONE };
    let zero = Binary32 { bits: 0 };
    let full = unit_clamp(opacity);
    if full.le(zero) {
        return zero;
    }
    let r = r.max(zero);
    if one.le(r) {
        return zero;
    }
    match profile {
        FalloffProfile::Rim => {
            let mid = full.mul(Binary32 { bits: 0x3ea0_a0a1 });
            let stop = rim_mid_stop(blur);
            if r.le(stop) {
                let u = if zero.lt(stop) {
                    r.div(stop)
                } else {
                    one
                };
                full.add(mid.sub(full).mul(u))
            } else {
                mid.mul(one.sub(outer_fraction(r, stop)))
            }
        },
        FalloffProfile::Soft => {
            let stop = soft_hold_stop(blur);
            if r.le(stop) {
                full
            } else {
                full.mul(one.sub(outer_fraction(r, stop)))
            }
        },
    }
}

/// At the edge and outside of it nothing is left of an orb.
pub proof fn lemma_falloff_outside(
    profile: FalloffProfile,
    r: Binary32,
    blur: Binary32,
    opacity: Binary32,
)
    requires
        (Binary32 { bits: ONE }).at_most(r),
    ensures
        falloff(profile, r, blur, opacity) == (Binary32 { bits: 0 }),
{
}

/// The stops of both profiles lie within 0.05 to 0.95.
pub proof fn lemma_stops_within(blur: Binary32)
    requires
        !blur.nan_pattern(),
    ensures
        !rim_stop(blur).negative(),
        0x3d4c_cccd <= rim_stop(blur).mag() <= 0x3f73_3333,
        !hold_stop(blur).negative(),
        0x3d4c_cccd <= hold_stop(blur).mag() <= 0x3f73_3333,
{
    let one = Binary32 { bits: ONE };
    let (low, high) = (Binary32 { bits: 0x3d4c_cccd }, Binary32 { bits: 0x3f73_3333 });
    let part = Binary32 { bits: 0x3f4c_cccd };
    let b = unit_clamped(blur);
    assert(b.mag() <= ONE);
    lemma_part_finite(b, part);
    lemma_difference_number(one, b.times(part));
    lemma_difference_number(one, b);
    lemma_clamped_within(one.minus(b.times(part)), low, high);
    lemma_clamped_within(one.minus(b), low, high);
}

/// A product of numbers of at most 1 is finite.
proof fn lemma_part_finite(b: Binary32, part: Binary32)
    requires
        b.mag() <= ONE,
        part.mag() <= ONE,
    ensures
        b.times(part).finite(),
{
    let one = Binary32 { bits: ONE };
    lemma_units_order(b.mag(), ONE as nat);
    lemma_times_rises(b.absolute(), one, part.absolute());
    lemma_times_one(part.absolute());
    reveal(Binary32::times);
}

/// What the rim profile gives in the centre.
proof fn lemma_rim_centre(full: Binary32, stop: Binary32)
    requires
        !full.negative(),
        0 < full.mag() <= ONE,
        stop.finite(),
        !stop.negative(),
        stop.mag() > 0,
    ensures
        full.plus(
            full.times(Binary32 { bits: 0x3ea0_a0a1 }).minus(full).times(
                (Binary32 { bits: 0 }).over(stop),
            ),
        ) == full,
{
    let one = Binary32 { bits: ONE };
    let part = Binary32 { bits: 0x3ea0_a0a1 };
    let u = (Binary32 { bits: 0 }).over(stop);
    assert(u.mag() == 0) by {
        reveal(Binary32::over);
        assert(mag_units(0) == 0);
        lemma_mag_units_increases(0, stop.mag());
        assert(0 * pow2(149) == 0);
        lemma_round32_zero(stop.units());
    }
    lemma_units_order(part.mag(), ONE as nat);
    lemma_times_rises(part, one, full);
    lemma_times_one(full);
    lemma_no_way_towards(full, full.times(part), u);
}

/// In the centre an orb has its full opacity.
pub proof fn lemma_falloff_centre(profile: FalloffProfile, blur: Binary32, opacity: Binary32)
    requires
        !blur.nan_pattern(),
        !opacity.nan_pattern(),
    ensures
        falloff(profile, Binary32 { bits: 0 }, blur, opacity).rank() == unit_clamped(
            opacity,
        ).rank(),
{
    let zero = Binary32 { bits: 0 };
    let full = unit_clamped(opacity);
    lemma_stops_within(blur);
    if zero.less(full) && profile is Rim {
        lemma_rim_centre(full, rim_stop(blur));
    }
}

/// How far `r` lies between a stop and the edge, and what that leaves of the opacity.
proof fn lemma_outer_falls(r: Binary32, q: Binary32, stop: Binary32, full: Binary32)
    requires
        !r.negative(),
        !q.negative(),
        !stop.negative(),
        !full.negative(),
        stop.mag() <= r.mag() <= q.mag() < ONE,
        0 < full.mag() <= ONE,
    ensures
        ({
            let one = Binary32 { bits: ONE };
            let a = full.times(one.minus(outer_part(r, stop)));
            let b = full.times(one.minus(outer_part(q, stop)));
            &&& !a.negative()
            &&& !b.negative()
            &&& b.mag() <= a.mag() <= full.mag()
        }),
{
    let one = Binary32 { bits: ONE };
    let tiny = Binary32 { bits: 0x3586_37bd };
    lemma_units_order(stop.mag(), r.mag());
    lemma_units_order(r.mag(), q.mag());
    lemma_units_order(q.mag(), ONE as nat);
    lemma_difference_units(r, stop);
    lemma_difference_units(q, stop);
    lemma_difference_units(one, stop);
    let (x, y, d) = (r.minus(stop), q.minus(stop), one.minus(stop));
    lemma_round32_monotone(
        (r.units() - stop.units()) as nat,
        1,
        (q.units() - stop.units()) as nat,
        1,
    );
    lemma_round32_monotone(
        (q.units() - stop.units()) as nat,
        1,
        (one.units() - stop.units()) as nat,
        1,
    );
    assert(mag_units(0) == 0);
    lemma_round32_between((one.units() - stop.units()) as nat, 1, 0, ONE as nat);
    let e = d.larger(tiny);
    assert(!e.negative() && d.mag() <= e.mag() < INF_MAG && e.mag() > 0);
    lemma_units_order(x.mag(), y.mag());
    lemma_units_order(y.mag(), e.mag());
    lemma_ratio_rises(x, y, e);
    let (u, v) = (x.over(e), y.over(e));
    lemma_units_order(u.mag(), v.mag());
    lemma_units_order(v.mag(), ONE as nat);
    lemma_difference_units(one, u);
    lemma_difference_units(one, v);
    lemma_round32_monotone(
        (one.units() - v.units()) as nat,
        1,
        (one.units() - u.units()) as nat,
        1,
    );
    lemma_round32_between((one.units() - u.units()) as nat, 1, 0, ONE as nat);
    let (g, h) = (one.minus(u), one.minus(v));
    lemma_units_order(h.mag(), g.mag());
    lemma_units_order(g.mag(), ONE as nat);
    lemma_times_rises(h, g, full);
    lemma_times_rises(g, one, full);
    lemma_times_one(full);
}

/// A soft orb keeps its full opacity up to the hold stop and never gets more opaque
/// outwards.
pub proof fn lemma_soft_falls(r: Binary32, q: Binary32, blur: Binary32, opacity: Binary32)
    requires
        r.at_most(q),
        !blur.nan_pattern(),
        !opacity.nan_pattern(),
    ensures
        r.at_most(hold_stop(blur)) && (Binary32 { bits: 0 }).less(opacity) ==> falloff(
            FalloffProfile::Soft,
            r,
            blur,
            opacity,
        ) == unit_clamped(opacity),
        falloff(FalloffProfile::Soft, q, blur, opacity).at_most(
            falloff(FalloffProfile::Soft, r, blur, opacity),
        ),
{
    let zero = Binary32 { bits: 0 };
    let full = unit_clamped(opacity);
    let stop = hold_stop(blur);
    lemma_stops_within(blur);
    let (a, b) = (r.larger(zero), q.larger(zero));
    if zero.less(full) && !(Binary32 { bits: ONE }).at_most(a) {
        if stop.less(a) {
            if !(Binary32 { bits: ONE }).at_most(b) {
                lemma_outer_falls(a, b, stop, full);
            } else {
                lemma_outer_falls(a, a, stop, full);
            }
        } else if stop.less(b) && !(Binary32 { bits: ONE }).at_most(b) {
            lemma_outer_falls(b, b, stop, full);
        }
    }
}

/// How many thousandths a number has, to the nearest, the even one on a tie.
pub open spec fn thousandths(x: Binary32) -> nat {
    half_even(x.units() * 1000, pow2(149))
}

/// A number within 0 to 1 with three decimals.
pub open spec fn fixed3(x: Binary32) -> Seq<char> {
    decimal(thousandths(x) / 1000) + "."@ + padded(decimal(thousandths(x) % 1000), 3)
}

fn count_thousandths(x: Binary32) -> (r: u64)
    requires
        !x.negative(),
        x.at_most(Binary32 { bits: ONE }),
    ensures
        r == thousandths(x),
{
    let (m, e) = x.parts();
    let t: u32 = 149 - e;
    proof {
        lemma_pow2_values();
        lemma_pow2_pos(e as nat);
        lemma_pow2_pos(t as nat);
        lemma_pow2_adds(e as nat, t as nat);
        assert(x.units() * 1000 == (m * 1000) * pow2(e as nat)) by (nonlinear_arith)
            requires
                x.units() == m * pow2(e as nat),
        ;
        assert(pow2(149) == pow2(t as nat) * pow2(e as nat)) by (nonlinear_arith)
            requires
                pow2(149) == pow2(e as nat) * pow2(t as nat),
        ;
        crate::rounding::lemma_half_even_scale((m * 1000) as nat, pow2(t as nat), pow2(e as nat));
    }
    if t >= 60 {
        proof {
            if t > 60 {
                lemma_pow2_strictly_increases(60, t as nat);
            }
            vstd::arithmetic::div_mod::lemma_basic_div((m * 1000) as int, pow2(t as nat) as int);
            vstd::arithmetic::div_mod::lemma_small_mod((m * 1000) as nat, pow2(t as nat));
        }
        return 0;
    }
    proof {
        lemma_pow2_strictly_increases(t as nat, 60);
    }
    let w: u64 = power_of_two(t) as u64;
    let n: u64 = m as u64 * 1000;
    let q: u64 = n / w;
    let r: u64 = n % w;
    proof {
        vstd::arithmetic::div_mod::lemma_div_nonincreasing(n as int, w as int);
    }
    if 2 * r < w || (2 * r == w && q % 2 == 0) {
        q
    } else {
        q + 1
    }
}

/// Appends a number within 0 to 1 with three decimals.
fn fixed3_text(x: Binary32) -> (s: String)
    requires
        !x.negative(),
        x.at_most(Binary32 { bits: ONE }),
    ensures
        s@ == fixed3(x),
{
    let n: u64 = count_thousandths(x);
    let mut s = String::new();
    push_decimal(&mut s, n / 1000);
    s.append(".");
    push_padded(&mut s, n % 1000, 10, 3);
    proof {
        assert(s@ =~= fixed3(x));
    }
    s
}

/// `r,g,b` with what separates them.
pub open spec fn rgb_list(rgb: Seq<u8>, gap: Seq<char>) -> Seq<char> {
    decimal(rgb[0] as nat) + gap + decimal(rgb[1] as nat) + gap + decimal(rgb[2] as nat)
}

fn rgb_text(r: u8, g: u8, b: u8, gap: &str) -> (s: String)
    ensures
        s@ == rgb_list(seq![r, g, b], gap@),
{
    let mut s = String::new();
    push_decimal(&mut s, r as u64);
    proof {
        assert(s@ =~= decimal(r as nat));
    }
    s.append(gap);
    push_decimal(&mut s, g as u64);
    s.append(gap);
    push_decimal(&mut s, b as u64);
    s
}

/// Options of the two text formats.
#[derive(Clone, Copy, Debug)]
pub struct StyleOptions {
    /// Multiplies the size of every orb.
    pub orb_size: Binary32,
    /// 0 is sharp, 1 fully blurred.
    pub blur: Binary32,
    /// Multiplies the saturation of every colour.
    pub saturation: Binary32,
    /// Red, green, blue and alpha behind the orbs.
    pub background: [u8; 4],
    pub softness: SoftnessPreset,
}

impl Default for StyleOptions {
    fn default() -> (r: StyleOptions)
        ensures
            r.orb_size.bits == ONE,
            r.blur.bits == 0x3f00_0000,
            r.saturation.bits == ONE,
            r.background@ == seq![0u8, 0, 0, 255],
            r.softness == SoftnessPreset::Mid,
    {
        let r = StyleOptions {
            orb_size: Binary32 { bits: ONE },
            blur: Binary32 { bits: 0x3f00_0000 },
            saturation: Binary32 { bits: ONE },
            background: [0, 0, 0, 255],
            softness: SoftnessPreset::Mid,
        };
        assert(r.background@ =~= seq![0u8, 0, 0, 255]);
        r
    }
}

impl StyleOptions {
    /// The blur with the offset of the softness, within 0 to 1.
    pub open spec fn soft_blur(self) -> Binary32 {
        unit_clamped(self.blur.plus(self.softness.offset()))
    }

    /// The saturation factor, not below 0.
    pub open spec fn colour_factor(self) -> Binary32 {
        self.saturation.larger(Binary32 { bits: 0 })
    }

    /// The size factor, not below 0.
    pub open spec fn size_factor(self) -> Binary32 {
        self.orb_size.larger(Binary32 { bits: 0 })
    }

    /// The opacity of the middle stop.
    pub open spec fn mid_alpha(self) -> Binary32 {
        (Binary32 { bits: 0x3f00_0000 }).times(self.softness.alpha())
    }
}

/// The radius of a cluster in an SVG picture: a quarter of the shorter side, times
/// the size factor, times the root of the weight.
pub open spec fn svg_radius(c: Cluster, opts: StyleOptions) -> Binary32 {
    (Binary32 { bits: 0x4387_0000 }).times(opts.size_factor()).times(
        c.weight.larger(Binary32 { bits: 0 }).root(),
    )
}

pub open spec fn svg_visible(c: Cluster, opts: StyleOptions) -> bool {
    (Binary32 { bits: 0 }).less(svg_radius(c, opts))
}

/// A coordinate within 0 to 1, scaled and rounded.
pub open spec fn placed(x: Binary32, size: Binary32) -> int {
    unit_clamped(x).times(size).rounded().as_i32()
}

fn place(x: Binary32, size: Binary32) -> (r: i32)
    ensures
        r == placed(x, size),
{
    unit_clamp(x).mul(size).round().to_i32()
}

/// The middle stop of an SVG gradient, in percent.
pub open spec fn svg_mid_percent(opts: StyleOptions) -> int {
    rim_stop(opts.soft_blur()).times(Binary32 { bits: 0x42c8_0000 }).rounded().as_i32()
}

/// The background of an SVG picture: none where it is transparent.
pub open spec fn svg_rect(bg: Seq<u8>) -> Seq<char> {
    if bg[3] == 0 {
        Seq::empty()
    } else if bg[3] == 255 {
        "  <rect width=\"100%\" height=\"100%\" fill=\"rgb("@ + rgb_list(bg, ","@) + ")\"/>\n"@
    } else {
        "  <rect width=\"100%\" height=\"100%\" fill=\"rgb("@ + rgb_list(bg, ","@)
            + ")\" fill-opacity=\""@ + fixed3(crate::orb::channel_number(bg[3])) + "\"/>\n"@
    }
}

/// One stop of a gradient.
pub open spec fn svg_stop(offset: int, rgb: Seq<char>, opacity: Seq<char>) -> Seq<char> {
    "      <stop offset=\""@ + signed_decimal(offset) + "%\" stop-color=\"rgb("@ + rgb
        + ")\" stop-opacity=\""@ + opacity + "\"/>\n"@
}

/// The gradient of the cluster with index `i`.
pub open spec fn svg_gradient(i: nat, c: Cluster, opts: StyleOptions) -> Seq<char> {
    let rgb = rgb_list(saturated(c.color, opts.colour_factor()), ","@);
    "    <radialGradient id=\"orb-"@ + decimal(i) + "\" cx=\"50%\" cy=\"50%\" r=\"50%\">\n"@
        + svg_stop(0, rgb, fixed3(opts.softness.alpha())) + svg_stop(
        svg_mid_percent(opts),
        rgb,
        fixed3(opts.mid_alpha()),
    ) + svg_stop(100, rgb, "0"@) + "    </radialGradient>\n"@
}

/// The circle of the cluster with index `i`.
pub open spec fn svg_circle(i: nat, c: Cluster, opts: StyleOptions) -> Seq<char> {
    "  <circle cx=\""@ + signed_decimal(placed(c.centroid.x, Binary32 { bits: 0x4487_0000 }))
        + "\" cy=\""@ + signed_decimal(placed(c.centroid.y, Binary32 { bits: 0x44f0_0000 }))
        + "\" r=\""@ + signed_decimal(svg_radius(c, opts).rounded().as_i32())
        + "\" fill=\"url(#orb-"@ + decimal(i) + ")\"/>\n"@
}

/// The gradients of the visible ones among the first `n` clusters, in order.
pub open spec fn svg_gradients(clusters: Seq<Cluster>, opts: StyleOptions, n: nat) -> Seq<char>
    decreases n,
{
    if n == 0 {
        Seq::empty()
    } else {
        let before = svg_gradients(clusters, opts, (n - 1) as nat);
        let c = clusters[n - 1];
        if svg_visible(c, opts) {
            before + svg_gradient((n - 1) as nat, c, opts)
        } else {
            before
        }
    }
}

/// The circles of the visible ones among the first `n` clusters, in order.
pub open spec fn svg_circles(clusters: Seq<Cluster>, opts: StyleOptions, n: nat) -> Seq<char>
    decreases n,
{
    if n == 0 {
        Seq::empty()
    } else {
        let before = svg_circles(clusters, opts, (n - 1) as nat);
        let c = clusters[n - 1];
        if svg_visible(c, opts) {
            before + svg_circle((n - 1) as nat, c, opts)
        } else {
            before
        }
    }
}

/// The whole SVG picture.
pub open spec fn svg_text(clusters: Seq<Cluster>, opts: StyleOptions) -> Seq<char> {
    "<?xml version=\"1.0\" encoding=\"UTF-8\"?>\n<svg xmlns=\"http://www.w3.org/2000/svg\" viewBox=\"0 0 1080 1920\" width=\"1080\" height=\"1920\">\n"@
        + svg_rect(opts.background@) + "  <defs>\n"@ + svg_gradients(clusters, opts, clusters.len())
        + "  </defs>\n"@ + svg_circles(clusters, opts, clusters.len()) + "</svg>\n"@
}

fn svg_rect_text(bg: [u8; 4]) -> (s: String)
    ensures
        s@ == svg_rect(bg@),
{
    let list = rgb_text(bg[0], bg[1], bg[2], ",");
    proof {
        assert(list@ == rgb_list(bg@, ","@));
    }
    if bg[3] == 0 {
        return String::new();
    }
    let mut s = String::from_str("  <rect width=\"100%\" height=\"100%\" fill=\"rgb(");
    s.append(list.as_str());
    if bg[3] == 255 {
        s.append(")\"/>\n");
    } else {
        s.append(")\" fill-opacity=\"");
        let x = crate::orb::channel_to_number(bg[3]);
        proof {
            lemma_channel_in_unit(bg[3]);
        }
        let t = fixed3_text(x);
        s.append(t.as_str());
        s.append("\"/>\n");
    }
    s
}

fn svg_stop_text(offset: i32, rgb: &str, opacity: &str) -> (s: String)
    ensures
        s@ == svg_stop(offset as int, rgb@, opacity@),
{
    let mut s = String::from_str("      <stop offset=\"");
    push_signed(&mut s, offset as i64);
    s.append("%\" stop-color=\"rgb(");
    s.append(rgb);
    s.append(")\" stop-opacity=\"");
    s.append(opacity);
    s.append("\"/>\n");
    s
}

fn svg_mid_stop(opts: &StyleOptions) -> (r: i32)
    ensures
        r == svg_mid_percent(*opts),
{
    rim_mid_stop(unit_clamp(opts.blur.add(opts.softness.blur_offset()))).mul(
        Binary32 { bits: 0x42c8_0000 },
    ).round().to_i32()
}

fn color_text(c: &Cluster, opts: &StyleOptions) -> (s: String)
    ensures
        s@ == rgb_list(saturated(c.color, opts.colour_factor()), ","@),
{
    let rgb = adjust_saturation_pub(c.color, opts.saturation.max(Binary32 { bits: 0 }));
    rgb_text(rgb[0], rgb[1], rgb[2], ",")
}

fn svg_alpha_texts(opts: &StyleOptions) -> (r: (String, String))
    ensures
        r.0@ == fixed3(opts.softness.alpha()),
        r.1@ == fixed3(opts.mid_alpha()),
{
    let alpha = opts.softness.alpha_mul();
    proof {
        lemma_half_alpha(opts.softness.alpha());
    }
    (fixed3_text(alpha), fixed3_text((Binary32 { bits: 0x3f00_0000 }).mul(alpha)))
}

fn svg_gradient_text(i: usize, c: &Cluster, opts: &StyleOptions) -> (s: String)
    ensures
        s@ == svg_gradient(i as nat, *c, *opts),
{
    let list = color_text(c, opts);
    let (full_text, mid_text) = svg_alpha_texts(opts);
    let first = svg_stop_text(0, list.as_str(), full_text.as_str());
    let middle = svg_stop_text(svg_mid_stop(opts), list.as_str(), mid_text.as_str());
    let last = svg_stop_text(100, list.as_str(), "0");
    let mut s = String::from_str("    <radialGradient id=\"orb-");
    push_decimal(&mut s, i as u64);
    s.append("\" cx=\"50%\" cy=\"50%\" r=\"50%\">\n");
    s.append(first.as_str());
    s.append(middle.as_str());
    s.append(last.as_str());
    s.append("    </radialGradient>\n");
    s
}

fn svg_circle_text(i: usize, c: &Cluster, radius: Binary32, Ghost(opts): Ghost<StyleOptions>) -> (s:
    String)
    requires
        radius == svg_radius(*c, opts),
    ensures
        s@ == svg_circle(i as nat, *c, opts),
{
    let cx: i32 = place(c.centroid.x, Binary32 { bits: 0x4487_0000 });
    let cy: i32 = place(c.centroid.y, Binary32 { bits: 0x44f0_0000 });
    let r: i32 = radius.round().to_i32();
    let mut s = String::from_str("  <circle cx=\"");
    push_signed(&mut s, cx as i64);
    s.append("\" cy=\"");
    push_signed(&mut s, cy as i64);
    s.append("\" r=\"");
    push_signed(&mut s, r as i64);
    s.append("\" fill=\"url(#orb-");
    push_decimal(&mut s, i as u64);
    s.append(")\"/>\n");
    s
}

/// Half of a number within 0 to 1 lies within 0 to 1.
proof fn lemma_half_alpha(a: Binary32)
    requires
        !a.negative(),
        a.at_most(Binary32 { bits: ONE }),
    ensures
        !(Binary32 { bits: 0x3f00_0000 }).times(a).negative(),
        (Binary32 { bits: 0x3f00_0000 }).times(a).at_most(Binary32 { bits: ONE }),
{
    reveal(Binary32::times);
    let half = Binary32 { bits: 0x3f00_0000 };
    let one = Binary32 { bits: ONE };
    let k = pow2(149);
    lemma_pow2_values();
    lemma_pow2_pos(149);
    lemma_pow2_pos(125);
    lemma_pow2_adds(23, 126);
    lemma_pow2_adds(125, 1);
    assert(half.units() == 0x80_0000 * pow2(125));
    assert(one.units() == k);
    lemma_rank_orders_values(a, one);
    assert(half.units() <= k);
    assert(half.units() * a.units() <= one.units() * k) by (nonlinear_arith)
        requires
            half.units() <= k,
            a.units() <= k,
            one.units() == k,
    ;
    assert(0 * k <= half.units() * a.units()) by (nonlinear_arith);
    assert(crate::binary32::mag_units(0) == 0);
    crate::binary32_laws::lemma_round32_between(half.units() * a.units(), k, 0, ONE as nat);
}

/// Draws the clusters as a self-contained SVG picture of 1080 by 1920.
pub fn render_svg(clusters: &[Cluster], opts: &StyleOptions) -> (s: String)
    ensures
        s@ == svg_text(clusters@, *opts),
{
    let unit = (Binary32 { bits: 0x4387_0000 }).mul(opts.orb_size.max(Binary32 { bits: 0 }));
    let mut s = String::from_str(
        "<?xml version=\"1.0\" encoding=\"UTF-8\"?>\n<svg xmlns=\"http://www.w3.org/2000/svg\" viewBox=\"0 0 1080 1920\" width=\"1080\" height=\"1920\">\n",
    );
    let rect = svg_rect_text(opts.background);
    s.append(rect.as_str());
    s.append("  <defs>\n");
    let mut defs = String::new();
    let mut circles = String::new();
    let mut i: usize = 0;
    while i < clusters.len()
        invariant
            i <= clusters.len(),
            unit == (Binary32 { bits: 0x4387_0000 }).times(opts.size_factor()),
            defs@ == svg_gradients(clusters@, *opts, i as nat),
            circles@ == svg_circles(clusters@, *opts, i as nat),
        decreases clusters.len() - i,
    {
        let c: Cluster = clusters[i];
        let radius = unit.mul(c.weight.max(Binary32 { bits: 0 }).sqrt());
        if (Binary32 { bits: 0 }).lt(radius) {
            let g = svg_gradient_text(i, &c, opts);
            defs.append(g.as_str());
            let d = svg_circle_text(i, &c, radius, Ghost(*opts));
            circles.append(d.as_str());
        }
        i = i + 1;
    }
    s.append(defs.as_str());
    s.append("  </defs>\n");
    s.append(circles.as_str());
    s.append("</svg>\n");
    s
}

/// The background colour of a style sheet.
pub open spec fn css_background(bg: Seq<u8>) -> Seq<char> {
    if bg[3] == 0 {
        "transparent"@
    } else if bg[3] == 255 {
        "rgb("@ + rgb_list(bg, ", "@) + ")"@
    } else {
        "rgba("@ + rgb_list(bg, ", "@) + ", "@ + fixed3(crate::orb::channel_number(bg[3])) + ")"@
    }
}

/// The end of a gradient in percent of the background: 30 times the root of the
/// weight, times the size factor, within 2 to 100.
pub open spec fn css_end(c: Cluster, opts: StyleOptions) -> Binary32 {
    c.weight.larger(Binary32 { bits: 0 }).root().times(Binary32 { bits: 0x41f0_0000 }).times(
        opts.size_factor(),
    ).clamped(Binary32 { bits: 0x4000_0000 }, Binary32 { bits: 0x42c8_0000 })
}

/// The end of a gradient, rounded.
pub open spec fn css_end_percent(c: Cluster, opts: StyleOptions) -> int {
    css_end(c, opts).rounded().as_i32()
}

/// The middle stop of a gradient, rounded, and below the end in any case.
pub open spec fn css_mid_percent(c: Cluster, opts: StyleOptions) -> int {
    let mid = css_end(c, opts).times(rim_stop(opts.soft_blur())).rounded().as_i32();
    if mid < 0 {
        0
    } else if mid > css_end_percent(c, opts) - 1 {
        css_end_percent(c, opts) - 1
    } else {
        mid
    }
}

/// The opacity of the centre, as `{}` writes it.
pub open spec fn css_alpha(softness: SoftnessPreset) -> Seq<char> {
    match softness {
        SoftnessPreset::Low => "1"@,
        SoftnessPreset::Mid => "1"@,
        SoftnessPreset::High => "0.55"@,
    }
}

/// The opacity of the middle stop, half of that of the centre, as `{}` writes it.
pub open spec fn css_mid_alpha(softness: SoftnessPreset) -> Seq<char> {
    match softness {
        SoftnessPreset::Low => "0.5"@,
        SoftnessPreset::Mid => "0.5"@,
        SoftnessPreset::High => "0.275"@,
    }
}

/// One stop of a layer.
pub open spec fn css_stop(rgb: Seq<char>, alpha: Seq<char>, percent: int) -> Seq<char> {
    "rgba("@ + rgb + ","@ + alpha + ") "@ + signed_decimal(percent) + "%"@
}

/// The layer of one cluster.
pub open spec fn css_layer(c: Cluster, opts: StyleOptions) -> Seq<char> {
    let rgb = rgb_list(saturated(c.color, opts.colour_factor()), ","@);
    let hundred = Binary32 { bits: 0x42c8_0000 };
    css_place(placed(c.centroid.x, hundred), placed(c.centroid.y, hundred)) + css_stop(
        rgb,
        css_alpha(opts.softness),
        0,
    ) + ", "@ + css_stop(rgb, css_mid_alpha(opts.softness), css_mid_percent(c, opts)) + ", "@
        + css_stop(rgb, "0"@, css_end_percent(c, opts)) + ")"@
}

pub open spec fn css_place(x: int, y: int) -> Seq<char> {
    "radial-gradient(circle at "@ + signed_decimal(x) + "% "@ + signed_decimal(y) + "%, "@
}

/// Whether a cluster gets a layer.
pub open spec fn css_visible(c: Cluster) -> bool {
    (Binary32 { bits: 0 }).less(c.weight.larger(Binary32 { bits: 0 }))
}

/// The layers of the first `n` clusters, in order.
pub open spec fn css_layers(clusters: Seq<Cluster>, opts: StyleOptions, n: nat) -> Seq<Seq<char>>
    decreases n,
{
    if n == 0 {
        Seq::empty()
    } else {
        let before = css_layers(clusters, opts, (n - 1) as nat);
        if css_visible(clusters[n - 1]) {
            before.push(css_layer(clusters[n - 1], opts))
        } else {
            before
        }
    }
}

/// The first `k` layers, a comma behind each but the last of all.
pub open spec fn css_lines(layers: Seq<Seq<char>>, k: nat) -> Seq<char>
    decreases k,
{
    if k == 0 {
        Seq::empty()
    } else {
        css_lines(layers, (k - 1) as nat) + "        "@ + layers[k - 1] + (if k < layers.len() {
            ",\n"@
        } else {
            ";\n"@
        })
    }
}

/// The style sheet up to its layers.
pub open spec fn css_head(background: Seq<u8>) -> Seq<char> {
    "/* orber-generated background.\n   Apply to <body> or any block element:\n       body {\n           margin: 0;\n           min-height: 100vh;\n           background-color: var(--orber-bg-color);\n           background-image: var(--orber-bg);\n       }\n   Generated as CSS variables; reference with var(--orber-bg) and var(--orber-bg-color). */\n:root {\n    --orber-bg-color: "@ + css_background(background) + ";\n"@
}

/// The whole style sheet.
pub open spec fn css_text(clusters: Seq<Cluster>, opts: StyleOptions) -> Seq<char> {
    let layers = css_layers(clusters, opts, clusters.len());
    css_head(opts.background@) + (if layers.len() == 0 {
        "    --orber-bg: none;\n"@
    } else {
        "    --orber-bg:\n"@ + css_lines(layers, layers.len())
    }) + "}\n"@
}

/// No infinite weight meets a size of zero, which would leave an orb without size.
pub open spec fn css_sized(clusters: Seq<Cluster>, opts: StyleOptions) -> bool {
    forall|i: int|
        0 <= i < clusters.len() && #[trigger] clusters[i].weight.infinite()
            ==> opts.size_factor().mag() > 0
}

fn css_background_text(bg: [u8; 4]) -> (s: String)
    ensures
        s@ == css_background(bg@),
{
    if bg[3] == 0 {
        return String::from_str("transparent");
    }
    let list = rgb_text(bg[0], bg[1], bg[2], ", ");
    proof {
        assert(list@ == rgb_list(bg@, ", "@));
    }
    if bg[3] == 255 {
        let mut s = String::from_str("rgb(");
        s.append(list.as_str());
        s.append(")");
        s
    } else {
        let mut s = String::from_str("rgba(");
        s.append(list.as_str());
        s.append(", ");
        proof {
            lemma_channel_in_unit(bg[3]);
        }
        let t = fixed3_text(crate::orb::channel_to_number(bg[3]));
        s.append(t.as_str());
        s.append(")");
        s
    }
}

fn css_stop_text(rgb: &str, alpha: &str, percent: i32) -> (s: String)
    ensures
        s@ == css_stop(rgb@, alpha@, percent as int),
{
    let mut s = String::from_str("rgba(");
    s.append(rgb);
    s.append(",");
    s.append(alpha);
    s.append(") ");
    push_signed(&mut s, percent as i64);
    s.append("%");
    s
}

fn css_place_text(x: i32, y: i32) -> (s: String)
    ensures
        s@ == css_place(x as int, y as int),
{
    let mut s = String::from_str("radial-gradient(circle at ");
    push_signed(&mut s, x as i64);
    s.append("% ");
    push_signed(&mut s, y as i64);
    s.append("%, ");
    s
}

/// The end of a gradient lies within 2 to 100, and its middle before it.
pub proof fn lemma_css_stops(c: Cluster, opts: StyleOptions)
    requires
        !css_end(c, opts).nan_pattern(),
    ensures
        2 <= css_end_percent(c, opts) <= 100,
        0 <= css_mid_percent(c, opts) < css_end_percent(c, opts),
{
    let x = css_end(c, opts);
    let two = Binary32 { bits: 0x4000_0000 };
    let hundred = Binary32 { bits: 0x42c8_0000 };
    lemma_rank_orders_values(two, x);
    lemma_rank_orders_values(x, hundred);
    lemma_pow2_values();
    vstd::arithmetic::power2::lemma2_to64();
    lemma_pow2_adds(22, 127);
    lemma_pow2_adds(17, 132);
    assert(two.units() == 0x80_0000 * pow2(127));
    assert(two.units() == 2 * pow2(149));
    assert(hundred.units() == 0xc8_0000 * pow2(132));
    assert(hundred.units() == 100 * pow2(149));
    lemma_rounded_between(x, 2, 100);
}

/// Thirty times a number far from the largest is finite.
proof fn lemma_thirty_times_finite(x: Binary32)
    requires
        x.mag() <= 0x6080_0000,
    ensures
        x.times(Binary32 { bits: 0x41f0_0000 }).finite(),
{
    reveal(Binary32::times);
    let thirty = Binary32 { bits: 0x41f0_0000 };
    let k = pow2(149);
    let top = crate::binary32::mag_units(0x6080_0000);
    lemma_pow2_values();
    lemma_pow2_pos(149);
    vstd::arithmetic::power2::lemma2_to64();
    if x.mag() < 0x6080_0000 {
        crate::binary32_laws::lemma_mag_units_increases(x.mag(), 0x6080_0000);
    }
    lemma_pow2_adds(19, 130);
    lemma_pow2_adds(192, 5);
    lemma_pow2_pos(130);
    assert(top == 0x80_0000 * pow2(192));
    assert(thirty.units() == 0xf0_0000 * pow2(130));
    assert(k == 0x8_0000 * pow2(130));
    let high = crate::binary32::mag_units(0x6300_0000);
    assert(high == 0x80_0000 * pow2(197));
    let c = pow2(192);
    assert(0x80_0000 * (c * 32) == 32 * (0x80_0000 * c)) by (nonlinear_arith);
    assert(x.units() * thirty.units() <= high * k) by (nonlinear_arith)
        requires
            x.units() <= top,
            thirty.units() <= 32 * k,
            high == 32 * top,
    ;
    assert(0 * k <= x.units() * thirty.units()) by (nonlinear_arith);
    assert(crate::binary32::mag_units(0) == 0);
    crate::binary32_laws::lemma_round32_between(x.units() * thirty.units(), k, 0, 0x6300_0000);
}

fn css_end_size(c: &Cluster, opts: &StyleOptions) -> (r: Binary32)
    requires
        css_visible(*c),
        c.weight.infinite() ==> opts.size_factor().mag() > 0,
    ensures
        r == css_end(*c, *opts),
        !r.nan_pattern(),
{
    let thirty = Binary32 { bits: 0x41f0_0000 };
    let weight = c.weight.max(Binary32 { bits: 0 });
    let size = opts.orb_size.max(Binary32 { bits: 0 });
    let root = weight.sqrt();
    proof {
        crate::binary32_laws::lemma_times_number(root, thirty);
        crate::binary32_laws::lemma_times_grows(root, thirty);
        if weight.finite() {
            lemma_thirty_times_finite(root);
        }
        crate::binary32_laws::lemma_times_number(root.times(thirty), size);
    }
    root.mul(thirty).mul(size).clamp(Binary32 { bits: 0x4000_0000 }, Binary32 { bits: 0x42c8_0000 })
}

fn css_layer_text(c: &Cluster, opts: &StyleOptions) -> (s: String)
    requires
        css_visible(*c),
        c.weight.infinite() ==> opts.size_factor().mag() > 0,
    ensures
        s@ == css_layer(*c, *opts),
{
    let hundred = Binary32 { bits: 0x42c8_0000 };
    let list = color_text(c, opts);
    let end = css_end_size(c, opts);
    let end_percent: i32 = end.round().to_i32();
    let mid_factor = rim_mid_stop(unit_clamp(opts.blur.add(opts.softness.blur_offset())));
    let mid: i32 = end.mul(mid_factor).round().to_i32();
    proof {
        lemma_css_stops(*c, *opts);
    }
    let mid_percent: i32 = if mid < 0 {
        0
    } else if mid > end_percent - 1 {
        end_percent - 1
    } else {
        mid
    };
    let (alpha, mid_alpha) = match opts.softness {
        SoftnessPreset::Low => ("1", "0.5"),
        SoftnessPreset::Mid => ("1", "0.5"),
        SoftnessPreset::High => ("0.55", "0.275"),
    };
    let first = css_stop_text(list.as_str(), alpha, 0);
    let middle = css_stop_text(list.as_str(), mid_alpha, mid_percent);
    let last = css_stop_text(list.as_str(), "0", end_percent);
    let mut s = css_place_text(place(c.centroid.x, hundred), place(c.centroid.y, hundred));
    s.append(first.as_str());
    s.append(", ");
    s.append(middle.as_str());
    s.append(", ");
    s.append(last.as_str());
    s.append(")");
    s
}

/// Draws the clusters as a style sheet that defines the custom properties
/// `--orber-bg-color` and `--orber-bg`.
pub fn render_css(clusters: &[Cluster], opts: &StyleOptions) -> (s: String)
    requires
        css_sized(clusters@, *opts),
    ensures
        s@ == css_text(clusters@, *opts),
{
    let mut layers: Vec<String> = Vec::new();
    let mut i: usize = 0;
    while i < clusters.len()
        invariant
            i <= clusters.len(),
            css_sized(clusters@, *opts),
            layers@.len() == css_layers(clusters@, *opts, i as nat).len(),
            forall|j: int|
                0 <= j < layers@.len() ==> (#[trigger] layers@[j])@ == css_layers(
                    clusters@,
                    *opts,
                    i as nat,
                )[j],
        decreases clusters.len() - i,
    {
        let c: Cluster = clusters[i];
        if (Binary32 { bits: 0 }).lt(c.weight.max(Binary32 { bits: 0 })) {
            assert(clusters@[i as int].weight == c.weight);
            let layer = css_layer_text(&c, opts);
            layers.push(layer);
        }
        i = i + 1;
    }
    let ghost all = css_layers(clusters@, *opts, clusters@.len());
    let mut s = String::from_str(
        "/* orber-generated background.\n   Apply to <body> or any block element:\n       body {\n           margin: 0;\n           min-height: 100vh;\n           background-color: var(--orber-bg-color);\n           background-image: var(--orber-bg);\n       }\n   Generated as CSS variables; reference with var(--orber-bg) and var(--orber-bg-color). */\n:root {\n    --orber-bg-color: ",
    );
    let background = css_background_text(opts.background);
    s.append(background.as_str());
    s.append(";\n");
    if layers.len() == 0 {
        s.append("    --orber-bg: none;\n");
    } else {
        let mut body = String::from_str("    --orber-bg:\n");
        let mut lines = String::new();
        let mut k: usize = 0;
        while k < layers.len()
            invariant
                k <= layers@.len(),
                layers@.len() == all.len(),
                forall|j: int| 0 <= j < layers@.len() ==> (#[trigger] layers@[j])@ == all[j],
                lines@ == css_lines(all, k as nat),
            decreases layers.len() - k,
        {
            lines.append("        ");
            lines.append(layers[k].as_str());
            k = k + 1;
            if k < layers.len() {
                lines.append(",\n");
            } else {
                lines.append(";\n");
            }
        }
        body.append(lines.as_str());
        s.append(body.as_str());
    }
    s.append("}\n");
    s
}

} // verus!
