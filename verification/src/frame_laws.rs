//! Laws of what a packed frame tells the shader.

use crate::animate::{header_words, packed, AnimateOptions, MotionDirection, MotionSpeed};
use crate::binary32::{mag_units, Binary32, ONE};
use crate::binary32_laws::{
    lemma_one_units, lemma_plus_zero, lemma_round32_between, lemma_units_order,
};
use crate::cluster::{within_unit, Cluster};
use crate::gpu::{colored_at, direction_number, frame_header, frame_words, is_frame, radius_unit};
use crate::integers::{lemma_of_int_exact, of_int};
use crate::glyph_laws::lemma_part;
use crate::nearness::{lemma_near_scaled, lemma_over_near, lemma_times_near, near_by};
use crate::orb::{channel_number, lemma_channel_in_unit};
use crate::placing_laws::lemma_power_units;
use crate::rounding::lemma_pow2_values;
use crate::style::SoftnessPreset;
use vstd::arithmetic::power2::{lemma2_to64, lemma_pow2_adds, lemma_pow2_pos, pow2};
use vstd::prelude::*;

verus! {

/// Whether the shader reads a direction as sideways: below 1.5.
pub open spec fn reads_sideways(word: Binary32) -> bool {
    word.less(Binary32 { bits: 0x3fc0_0000 })
}

/// Whether the shader reads a direction as reversed: above 0.5 sideways, above 2.5 otherwise.
pub open spec fn reads_reversed(word: Binary32) -> bool {
    if reads_sideways(word) {
        (Binary32 { bits: 0x3f00_0000 }).less(word)
    } else {
        (Binary32 { bits: 0x4020_0000 }).less(word)
    }
}

/// The header of a frame is that of its options.
#[verifier::rlimit(40)]
pub(crate) proof fn lemma_header_of_frame(
    clusters: Seq<Cluster>,
    opts: AnimateOptions,
    width: u32,
    height: u32,
    n_orbs: nat,
    t: Binary32,
    field: bool,
    pack: Seq<Binary32>,
)
    requires
        is_frame(clusters, opts, width, height, n_orbs, t, field, pack),
    ensures
        pack.len() >= 16,
        forall|j: int| 0 <= j < 4 ==> #[trigger] pack[j] == channel_number(opts.background[j]),
        pack[4] == radius_unit(width, height, opts.orb_size),
        pack[5] == frame_header(opts, width, height, field).base_blur,
        pack[6] == direction_number(opts.direction),
        pack[7] == of_int(false, opts.speed.cycles() as nat),
        pack[8] == of_int(false, n_orbs),
        pack[9] == frame_header(opts, width, height, field).alpha_mul,
        pack[10].bits == if field {
            0x3f80_0000u32
        } else {
            0
        },
        pack[11].bits == if field && !opts.glyph_rotate {
            0u32
        } else {
            0x3f80_0000
        },
        pack[12] == opts.softness.edge(),
        pack[13] == opts.shadow_strength.clamped(
            Binary32 { bits: 0 },
            Binary32 { bits: 0x3f80_0000 },
        ),
{
    let at = choose|at: Seq<Cluster>|
        #[trigger] colored_at(clusters, opts, t, at) && pack == frame_words(
            at,
            opts,
            width,
            height,
            n_orbs,
            t,
            field,
        );
    let header = header_words(frame_header(opts, width, height, field), n_orbs);
    assert(header.len() == 16);
}

/// The orbs of a frame drift the way that is asked for: the shader reads the frame's
/// direction as sideways for the two horizontal ones, and as reversed for the ways to the
/// left and to the top.
#[verifier::rlimit(40)]
pub proof fn lemma_orbs_drift_as_asked(
    clusters: Seq<Cluster>,
    opts: AnimateOptions,
    width: u32,
    height: u32,
    n_orbs: nat,
    t: Binary32,
    field: bool,
    pack: Seq<Binary32>,
)
    requires
        is_frame(clusters, opts, width, height, n_orbs, t, field, pack),
    ensures
        pack.len() >= 16,
        reads_sideways(pack[6]) <==> (opts.direction == MotionDirection::LeftToRight
            || opts.direction == MotionDirection::RightToLeft),
        reads_reversed(pack[6]) <==> (opts.direction == MotionDirection::RightToLeft
            || opts.direction == MotionDirection::BottomToTop),
        pack[6].value() == pow2(149) * match opts.direction {
            MotionDirection::LeftToRight => 0,
            MotionDirection::RightToLeft => 1,
            MotionDirection::TopToBottom => 2,
            MotionDirection::BottomToTop => 3int,
        },
{
    lemma_header_of_frame(clusters, opts, width, height, n_orbs, t, field, pack);
    lemma_direction_read(opts.direction);
}

/// How the shader reads the number of a direction.
#[verifier::rlimit(40)]
proof fn lemma_direction_read(d: MotionDirection)
    ensures
        reads_sideways(direction_number(d)) <==> (d == MotionDirection::LeftToRight || d
            == MotionDirection::RightToLeft),
        reads_reversed(direction_number(d)) <==> (d == MotionDirection::RightToLeft || d
            == MotionDirection::BottomToTop),
        direction_number(d).value() == pow2(149) * match d {
            MotionDirection::LeftToRight => 0,
            MotionDirection::RightToLeft => 1,
            MotionDirection::TopToBottom => 2,
            MotionDirection::BottomToTop => 3int,
        },
{
    lemma_one_units();
    lemma_pow2_values();
    lemma2_to64();
    lemma_pow2_adds(23, 127);
    lemma_pow2_adds(1, 149);
    lemma_pow2_adds(22, 127);
    assert(0x4000_0000nat / 0x80_0000 == 128);
    assert(0x4040_0000nat / 0x80_0000 == 128);
    assert(mag_units(0x4000_0000) == 0x80_0000 * pow2(127));
    assert(mag_units(0x4040_0000) == 0xc0_0000 * pow2(127));
    assert(mag_units(0) == 0);
    assert(pow2(149) * 0 == 0 && pow2(149) * 1 == pow2(149)) by (nonlinear_arith);
}

/// A channel is the 255th part of its byte.
#[verifier::rlimit(40)]
pub proof fn lemma_channel_near(c: u8)
    ensures
        !channel_number(c).negative(),
        channel_number(c).finite(),
        near_by(
            255 * channel_number(c).units() as int,
            c * pow2(149) as int,
            0x100_0000,
        ),
{
    let k = pow2(149);
    let full = Binary32 { bits: 0x437f_0000 };
    let n = of_int(false, c as nat);
    lemma_pow2_pos(149);
    lemma_channel_in_unit(c);
    lemma_of_int_exact(false, c as nat);
    lemma_pow2_values();
    lemma2_to64();
    lemma_pow2_adds(16, 133);
    lemma_pow2_adds(64, 85);
    lemma_pow2_pos(85);
    assert(0x437f_0000nat / 0x80_0000 == 134);
    assert(full.units() == 0xff_0000 * pow2(133));
    assert(full.units() == 255 * k);
    assert(k >= 0x1_0000_0000_0000_0000) by (nonlinear_arith)
        requires
            k == pow2(64) * pow2(85),
            pow2(64) == 0x1_0000_0000_0000_0000,
            pow2(85) >= 1,
    ;
    if c > 0 {
        assert((c * k) * k >= 0x80_0000 * (255 * k)) by (nonlinear_arith)
            requires
                c >= 1,
                k >= 0x1_0000_0000_0000_0000,
        ;
    } else {
        assert(0 * k == 0) by (nonlinear_arith);
    }
    lemma_over_near(n, full);
    let u = channel_number(c).units();
    assert(u * (255 * k) == (255 * u) * k && (c * k) * k == (c * k as int) * k) by (nonlinear_arith);
    lemma_near_scaled(255 * u as int, c * k as int, 0x100_0000, k as int);
}

/// The background of a frame is that of the options, channel for channel.
#[verifier::rlimit(40)]
pub proof fn lemma_frame_background(
    clusters: Seq<Cluster>,
    opts: AnimateOptions,
    width: u32,
    height: u32,
    n_orbs: nat,
    t: Binary32,
    field: bool,
    pack: Seq<Binary32>,
    j: int,
)
    requires
        is_frame(clusters, opts, width, height, n_orbs, t, field, pack),
        0 <= j < 4,
    ensures
        !pack[j].negative(),
        near_by(
            255 * pack[j].units() as int,
            opts.background[j] * pow2(149) as int,
            0x100_0000,
        ),
{
    lemma_header_of_frame(clusters, opts, width, height, n_orbs, t, field, pack);
    lemma_channel_near(opts.background[j]);
}

/// The header tells how often the orbs cross the picture, how many there are, whether they
/// are fields, whether glyphs turn, and how opaque and how soft they are.
#[verifier::rlimit(40)]
pub proof fn lemma_frame_counts(
    clusters: Seq<Cluster>,
    opts: AnimateOptions,
    width: u32,
    height: u32,
    n_orbs: nat,
    t: Binary32,
    field: bool,
    pack: Seq<Binary32>,
)
    requires
        is_frame(clusters, opts, width, height, n_orbs, t, field, pack),
        n_orbs < 0x100_0000,
    ensures
        pack[7].value() == pow2(149) * match opts.speed {
            MotionSpeed::VerySlow => 1,
            MotionSpeed::Slow => 2,
            MotionSpeed::Mid => 3,
            MotionSpeed::Fast => 4int,
        },
        pack[8].value() == n_orbs * pow2(149),
        pack[9].bits == if opts.softness == SoftnessPreset::High {
            0x3f0c_cccdu32
        } else {
            0x3f80_0000
        },
        pack[10].bits == if field {
            0x3f80_0000u32
        } else {
            0
        },
        pack[11].bits == if field && !opts.glyph_rotate {
            0u32
        } else {
            0x3f80_0000
        },
        pack[12].bits == match opts.softness {
            SoftnessPreset::Low => 0x3e99_999au32,
            SoftnessPreset::Mid => 0x3f19_999a,
            SoftnessPreset::High => 0x3f80_0000,
        },
        within_unit(opts.shadow_strength) ==> pack[13] == opts.shadow_strength,
{
    lemma_header_of_frame(clusters, opts, width, height, n_orbs, t, field, pack);
    lemma_of_int_exact(false, n_orbs);
    lemma_speed_read(opts.speed);
    lemma_softness_read(opts.softness);
}

/// How often the orbs cross the picture, for each speed.
proof fn lemma_speed_read(speed: MotionSpeed)
    ensures
        of_int(false, speed.cycles() as nat).value() == pow2(149) * match speed {
            MotionSpeed::VerySlow => 1,
            MotionSpeed::Slow => 2,
            MotionSpeed::Mid => 3,
            MotionSpeed::Fast => 4int,
        },
{
    let cycles = speed.cycles() as nat;
    lemma_of_int_exact(false, cycles);
    assert(pow2(149) * cycles == cycles * pow2(149)) by (nonlinear_arith);
}

/// How opaque and how soft the orbs are, for each softness.
proof fn lemma_softness_read(softness: SoftnessPreset)
    ensures
        softness.alpha().clamped(Binary32 { bits: 0 }, Binary32 { bits: ONE }).bits == if softness
            == SoftnessPreset::High {
            0x3f0c_cccdu32
        } else {
            0x3f80_0000
        },
        softness.edge().bits == match softness {
            SoftnessPreset::Low => 0x3e99_999au32,
            SoftnessPreset::Mid => 0x3f19_999a,
            SoftnessPreset::High => 0x3f80_0000,
        },
{
}

/// A quarter of a whole number is exact.
#[verifier::rlimit(40)]
proof fn lemma_quarter(n: nat)
    requires
        n < 0x100_0000,
    ensures
        ({
            let q = of_int(false, n).times(Binary32 { bits: 0x3e80_0000 });
            &&& q.finite()
            &&& !q.negative()
            &&& 4 * q.units() == n * pow2(149)
            &&& q.units() <= 0x40_0000 * pow2(149)
        }),
{
    let k = pow2(149);
    let quarter = Binary32 { bits: 0x3e80_0000 };
    let x = of_int(false, n);
    lemma_pow2_pos(149);
    lemma_of_int_exact(false, n);
    lemma_power_units(0x3e80_0000, 147);
    lemma2_to64();
    lemma_pow2_adds(147, 2);
    let h = pow2(147);
    let nk = n * k;
    assert(nk == 4 * (n * h)) by (nonlinear_arith)
        requires
            nk == n * k,
            k == 4 * h,
    ;
    assert(n * h <= 0x40_0000 * k) by (nonlinear_arith)
        requires
            n < 0x100_0000,
            k == 4 * h,
    ;
    let low: nat = if n == 0 {
        0
    } else {
        (x.mag() - 0x100_0000) as nat
    };
    assert(mag_units(0) == 0);
    if n > 0 {
        assert(nk >= k) by (nonlinear_arith)
            requires
                nk == n * k,
                n >= 1,
                k > 0,
        ;
        lemma_one_units();
        lemma_units_order(ONE as nat, x.mag());
        lemma_part(x.mag(), 2);
        assert(x.mag() - 2 * 0x80_0000 == low);
    } else {
        assert(nk == 0) by (nonlinear_arith)
            requires
                nk == n * k,
                n == 0,
        ;
        lemma_units_order(x.mag(), 0);
    }
    assert(4 * mag_units(low) == nk);
    assert(x.units() * h == mag_units(low) * k) by (nonlinear_arith)
        requires
            x.units() == 4 * mag_units(low),
            k == 4 * h,
    ;
    lemma_round32_between(x.units() * quarter.units(), k, low, low);
    reveal(Binary32::times);
}

/// The radius of an orb of weight 1 is a quarter of the shorter side of the frame, times the
/// size that is asked for, off by at most one part in `2^24`. Whether the frame stands or lies
/// does not matter.
#[verifier::rlimit(40)]
pub proof fn lemma_radius_is_a_quarter_of_the_shorter_side(
    clusters: Seq<Cluster>,
    opts: AnimateOptions,
    width: u32,
    height: u32,
    n_orbs: nat,
    t: Binary32,
    field: bool,
    pack: Seq<Binary32>,
)
    requires
        is_frame(clusters, opts, width, height, n_orbs, t, field, pack),
        width < 0x100_0000,
        height < 0x100_0000,
        opts.orb_size.finite(),
        (Binary32 { bits: 0x1f80_0000 }).at_most(opts.orb_size),
        opts.orb_size.at_most(Binary32 { bits: 0x5f80_0000 }),
    ensures
        ({
            let shorter = if width <= height {
                width
            } else {
                height
            };
            near_by(
                4 * pack[4].value(),
                shorter * opts.orb_size.value(),
                0x100_0000,
            )
        }),
        radius_unit(width, height, opts.orb_size) == radius_unit(height, width, opts.orb_size),
{
    lemma_header_of_frame(clusters, opts, width, height, n_orbs, t, field, pack);
    let shorter = if width <= height {
        width
    } else {
        height
    };
    lemma_radius_near(shorter as nat, opts.orb_size);
}

/// A quarter of a side, times a size.
#[verifier::rlimit(40)]
proof fn lemma_radius_near(n: nat, size: Binary32)
    requires
        n < 0x100_0000,
        (Binary32 { bits: 0x1f80_0000 }).at_most(size),
        size.at_most(Binary32 { bits: 0x5f80_0000 }),
    ensures
        ({
            let q = of_int(false, n).times(Binary32 { bits: 0x3e80_0000 });
            let r = q.times(size.larger(Binary32 { bits: 0 }));
            near_by(4 * r.value(), n * size.value(), 0x100_0000)
        }),
{
    let k = pow2(149);
    lemma_pow2_pos(149);
    let q = of_int(false, n).times(Binary32 { bits: 0x3e80_0000 });
    lemma_quarter(n);
    assert(size.larger(Binary32 { bits: 0 }) == size);
    let (u, v) = (q.units(), size.units());
    lemma_power_units(0x1f80_0000, 85);
    lemma_power_units(0x5f80_0000, 213);
    lemma_power_units(0x6b00_0000, 236);
    lemma_units_order(0x1f80_0000, size.mag());
    lemma_units_order(size.mag(), 0x5f80_0000);
    lemma2_to64();
    lemma_pow2_adds(64, 21);
    lemma_pow2_adds(213, 23);
    lemma_pow2_pos(21);
    lemma_pow2_pos(213);
    assert(pow2(85) >= 0x1_0000_0000_0000_0000) by (nonlinear_arith)
        requires
            pow2(85) == pow2(64) * pow2(21),
            pow2(64) == 0x1_0000_0000_0000_0000,
            pow2(21) >= 1,
    ;
    let nk = n * k;
    assert(u * v == 0 || u * v >= 0x80_0000 * k) by (nonlinear_arith)
        requires
            4 * u == nk,
            nk == n * k,
            n >= 0,
            k > 0,
            v >= 0x1_0000_0000_0000_0000,
    {
        if n == 0 {
            assert(u == 0);
        } else {
            assert(nk >= k);
            assert((4 * u) * v >= k * v);
            assert(k * v >= k * 0x1_0000_0000_0000_0000);
        }
    }
    assert(0 * k <= u * v <= pow2(236) * k) by (nonlinear_arith)
        requires
            0 <= u <= 0x40_0000 * k,
            0 <= v <= pow2(213),
            pow2(236) == pow2(213) * 0x80_0000,
            k > 0,
    {
        assert(u * v <= (0x40_0000 * k) * pow2(213));
    }
    assert(mag_units(0) == 0);
    lemma_round32_between(u * v, k, 0, 0x6b00_0000);
    let r = q.times(size);
    assert(r.finite() && !r.negative()) by {
        reveal(Binary32::times);
    }
    lemma_times_near(q, size);
    let nv = n * v;
    assert(4 * (u * v) == nv * k) by (nonlinear_arith)
        requires
            4 * u == nk,
            nk == n * k,
            nv == n * v,
    ;
    lemma_near_scaled((r.units() * k) as int, (u * v) as int, 0x100_0000, 4);
    lemma_near_scaled(4 * r.units() as int, nv as int, 0x100_0000, k as int);
    assert((r.units() * k) * 4 == (4 * r.units()) * k) by (nonlinear_arith);
}

/// At the middle softness the orbs have the blur that is asked for.
#[verifier::rlimit(40)]
pub proof fn lemma_middle_softness_keeps_the_blur(
    clusters: Seq<Cluster>,
    opts: AnimateOptions,
    width: u32,
    height: u32,
    n_orbs: nat,
    t: Binary32,
    field: bool,
    pack: Seq<Binary32>,
)
    requires
        is_frame(clusters, opts, width, height, n_orbs, t, field, pack),
        opts.softness == SoftnessPreset::Mid,
        within_unit(opts.blur),
        opts.blur.mag() > 0,
    ensures
        pack[5] == opts.blur,
{
    lemma_header_of_frame(clusters, opts, width, height, n_orbs, t, field, pack);
    lemma_blur_kept(opts, width, height, field);
}

/// The blur of a header at the middle softness.
proof fn lemma_blur_kept(opts: AnimateOptions, width: u32, height: u32, field: bool)
    requires
        opts.softness == SoftnessPreset::Mid,
        within_unit(opts.blur),
        opts.blur.mag() > 0,
    ensures
        frame_header(opts, width, height, field).base_blur == opts.blur,
{
    lemma_plus_zero(opts.blur, Binary32 { bits: 0 });
}

} // verus!
