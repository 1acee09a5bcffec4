//! Orbs in motion: the parameters of each orb, and the frames packed for drawing.
//!
//! At a time within 0 to 1 the state of every orb follows from the seed, the clusters
//! and the options alone. All orbs drift the same way, leave the picture at one side
//! and come back at the other; since every orb crosses it a whole number of times, the
//! last state is the first one and the motion loops.

use crate::binary32::{Binary32, ONE};
use crate::binary32_laws::{lemma_minus_self, lemma_plus_zero, lemma_times_one, lemma_times_zero};
use crate::cluster::{Centroid, Cluster};
use crate::color_track::{color_at, interpolate_color_track};
use crate::draws::{
    count_draw, draw_count, draw_fraction, draw_real, draw_word, fraction_draw, real_draw, word_draw,
};
use crate::integers::of_int;
use crate::keyframe_track::{
    interpolate_keyframe_track, key_from, keyframe_at, span_from, KeyframeClusterPoint,
};
use crate::orb::{channel_number, channel_to_number, OrbShape, OrbStyle};
use crate::style::SoftnessPreset;
use vstd::prelude::*;

verus! {

/// Where the orbs drift to.
#[derive(Clone, Copy, Debug, PartialEq, Eq, Structural)]
pub enum MotionDirection {
    LeftToRight,
    RightToLeft,
    TopToBottom,
    BottomToTop,
}

/// How fast the orbs drift, by how often they cross the picture.
#[derive(Clone, Copy, Debug, PartialEq, Eq, Structural)]
pub enum MotionSpeed {
    VerySlow,
    Slow,
    Mid,
    Fast,
}

impl MotionSpeed {
    pub open spec fn cycles(self) -> u32 {
        match self {
            MotionSpeed::VerySlow => 1,
            MotionSpeed::Slow => 2,
            MotionSpeed::Mid => 3,
            MotionSpeed::Fast => 4,
        }
    }

    /// How often the orbs cross the picture. A whole number, so that the motion loops.
    pub fn cycle_count(self) -> (r: u32)
        ensures
            r == self.cycles(),
    {
        match self {
            MotionSpeed::VerySlow => 1,
            MotionSpeed::Slow => 2,
            MotionSpeed::Mid => 3,
            MotionSpeed::Fast => 4,
        }
    }
}

/// The pattern of 0.2, the strength of the shadow at the rim of the orbs.
pub const SHADOW_STRENGTH_DEFAULT: u32 = 0x3e4c_cccd;

/// The pattern of 0.1, the share of a cluster's wandering that its orbs follow.
pub const KEYFRAME_DRIFT_GAIN: u32 = 0x3dcc_cccd;

/// The most orbs that a frame may have.
pub const MAX_ORB_COUNT: usize = 1024;

/// Strengths of the watercolour layer over the orbs.
#[derive(Clone, Copy, Debug, PartialEq, Eq, Structural)]
pub struct AquaBleedConfig {
    pub bleed: Binary32,
    pub bloom: Binary32,
    pub offset: Binary32,
    pub halo: Binary32,
}

/// The options of a frame.
#[derive(Clone, Debug)]
pub struct AnimateOptions {
    pub width: u32,
    pub height: u32,
    /// The watercolour layer; none leaves the plain orbs.
    pub aqua: Option<AquaBleedConfig>,
    pub orb_size: Binary32,
    pub blur: Binary32,
    pub saturation: Binary32,
    pub direction: MotionDirection,
    pub speed: MotionSpeed,
    pub seed: u64,
    /// How many orbs there are; as many as clusters where it is not given.
    pub count: Option<usize>,
    pub background: [u8; 4],
    pub shape: OrbShape,
    pub softness: SoftnessPreset,
    /// Whether glyphs turn.
    pub glyph_rotate: bool,
    pub shadow_strength: Binary32,
    /// The colours of each cluster over time.
    pub color_tracks: Option<Vec<Vec<[u8; 3]>>>,
    /// The keyframes of each cluster. They win over the colour tracks.
    pub keyframe_tracks: Option<Vec<Vec<KeyframeClusterPoint>>>,
}

impl Default for AnimateOptions {
    fn default() -> (r: AnimateOptions)
        ensures
            r.width == 1080,
            r.height == 1920,
            r.aqua is None,
            r.orb_size.bits == ONE,
            r.blur.bits == 0x3f00_0000,
            r.saturation.bits == ONE,
            r.direction == MotionDirection::LeftToRight,
            r.speed == MotionSpeed::Slow,
            r.seed == 0,
            r.count is None,
            r.background@ == seq![0u8, 0, 0, 255],
            r.shape is Orb,
            r.softness == SoftnessPreset::Mid,
            r.glyph_rotate,
            r.shadow_strength.bits == SHADOW_STRENGTH_DEFAULT,
            r.color_tracks is None,
            r.keyframe_tracks is None,
    {
        let r = AnimateOptions {
            width: 1080,
            height: 1920,
            aqua: None,
            orb_size: Binary32 { bits: ONE },
            blur: Binary32 { bits: 0x3f00_0000 },
            saturation: Binary32 { bits: ONE },
            direction: MotionDirection::LeftToRight,
            speed: MotionSpeed::Slow,
            seed: 0,
            count: None,
            background: [0, 0, 0, 255],
            shape: OrbShape::Orb,
            softness: SoftnessPreset::Mid,
            glyph_rotate: true,
            shadow_strength: Binary32 { bits: SHADOW_STRENGTH_DEFAULT },
            color_tracks: None,
            keyframe_tracks: None,
        };
        assert(r.background@ =~= seq![0u8, 0, 0, 255]);
        r
    }
}

/// The mixing function of SplitMix64.
pub open spec fn splitmix(x: u64) -> u64 {
    let a = x.wrapping_add(0x9E37_79B9_7F4A_7C15);
    let b = (a ^ (a >> 30)).wrapping_mul(0xBF58_476D_1CE4_E5B9);
    let c = (b ^ (b >> 27)).wrapping_mul(0x94D0_49BB_1331_11EB);
    c ^ (c >> 31)
}

/// Mixes a number into one that looks random.
pub fn splitmix64(x: u64) -> (r: u64)
    ensures
        r == splitmix(x),
{
    let a: u64 = x.wrapping_add(0x9E37_79B9_7F4A_7C15);
    let b: u64 = (a ^ (a >> 30)).wrapping_mul(0xBF58_476D_1CE4_E5B9);
    let c: u64 = (b ^ (b >> 27)).wrapping_mul(0x94D0_49BB_1331_11EB);
    c ^ (c >> 31)
}

/// The upper 24 bits of a hash as a number within 0 to 1.
pub open spec fn hash_unit(x: u64) -> Binary32 {
    of_int(false, (x >> 40) as nat).over(Binary32 { bits: 0x4b80_0000 })
}

/// The upper 24 bits of a hash as a number within 0 to 1.
pub fn unit_from_hash(x: u64) -> (r: Binary32)
    ensures
        r == hash_unit(x),
{
    Binary32::from_u64(x >> 40).div(Binary32 { bits: 0x4b80_0000 })
}

/// The parameters of one orb.
#[derive(Clone, Copy, Debug, PartialEq, Eq, Structural)]
pub struct OrbParams {
    /// Where the orb starts along its way, within 0 to 1.
    pub phase: Binary32,
    /// Where the breathing of radius, blur and opacity starts, within a full turn.
    pub phi_radius: Binary32,
    pub phi_blur: Binary32,
    pub phi_opacity: Binary32,
    pub style: OrbStyle,
    /// The cluster that gives colour and weight.
    pub cluster_idx: usize,
    /// The place across the way, within 0 to 1.
    pub cross_axis: Binary32,
    /// Multiplies the number of crossings: 1, 2 or 3.
    pub speed_mult: u32,
    /// The angle at which a glyph starts.
    pub base_angle: Binary32,
    /// How often and which way a glyph turns.
    pub rot_speed_signed: Binary32,
}

/// A weight, not below 0.
pub open spec fn weight_part(w: Binary32) -> Binary32 {
    w.larger(Binary32 { bits: 0 })
}

/// The sum of the first `n` weights, from the first on.
pub open spec fn weight_sum(weights: Seq<Binary32>, n: nat) -> Binary32
    decreases n,
{
    if n == 0 {
        Binary32 { bits: 0 }
    } else {
        weight_sum(weights, (n - 1) as nat).plus(weight_part(weights[n - 1]))
    }
}

/// The first of the weights from `i` on up to which the sum reaches `r`; the last one
/// where none does.
pub open spec fn reached(weights: Seq<Binary32>, r: Binary32, i: nat) -> nat
    decreases weights.len() - i,
{
    if i + 1 >= weights.len() {
        if weights.len() == 0 {
            0
        } else {
            (weights.len() - 1) as nat
        }
    } else if r.at_most(weight_sum(weights, i + 1)) {
        i
    } else {
        reached(weights, r, i + 1)
    }
}

/// The index that a fraction of the total weight falls on; the first one without weight.
pub open spec fn weighted_index(weights: Seq<Binary32>, total: Binary32, f: Binary32) -> nat {
    if total.at_most(Binary32 { bits: 0 }) || weights.len() == 0 {
        0
    } else {
        reached(weights, f.times(total), 0)
    }
}

/// The index that a fraction of the total weight falls on, so that a chance fraction gives
/// each a chance in proportion to its weight.
pub fn index_by_weight(weights: &Vec<Binary32>, total: Binary32, f: Binary32) -> (r: usize)
    ensures
        r == weighted_index(weights@, total, f),
        weights@.len() > 0 ==> r < weights@.len(),
{
    if total.le(Binary32 { bits: 0 }) || weights.len() == 0 {
        return 0;
    }
    let r = f.mul(total);
    let mut acc = Binary32 { bits: 0 };
    let mut i: usize = 0;
    while i + 1 < weights.len()
        invariant
            i < weights@.len(),
            weighted_index(weights@, total, f) == reached(weights@, r, 0),
            acc == weight_sum(weights@, i as nat),
            reached(weights@, r, 0) == reached(weights@, r, i as nat),
        decreases weights.len() - i,
    {
        acc = acc.add(weights[i].max(Binary32 { bits: 0 }));
        if r.le(acc) {
            return i;
        }
        i = i + 1;
    }
    i
}

/// The fraction for a weighted pick, and the position behind its draw. Without weight
/// nothing is drawn.
pub open spec fn pick_draw(seed: u64, pos: u128, weights: Seq<Binary32>, total: Binary32) -> (
    Binary32,
    u128,
) {
    if total.at_most(Binary32 { bits: 0 }) || weights.len() == 0 {
        (Binary32 { bits: 0 }, pos)
    } else {
        fraction_draw(seed, pos)
    }
}

/// The hash from which orb `i` takes its turning.
pub open spec fn turn_hash(seed: u64, i: u64) -> u64 {
    splitmix(seed ^ i.wrapping_mul(0x9E37_79B9_7F4A_7C15))
}

/// The angle at which the glyph of orb `i` starts.
pub open spec fn turn_start(seed: u64, i: u64) -> Binary32 {
    hash_unit(turn_hash(seed, i)).times(Binary32 { bits: 0x40c9_0fdb })
}

/// Which way the glyph of orb `i` turns.
pub open spec fn turn_sign(seed: u64, i: u64) -> Binary32 {
    if splitmix(turn_hash(seed, i) ^ 0xD1B5_4A32_D192_ED03) & 1 == 0 {
        Binary32 { bits: ONE }
    } else {
        Binary32 { bits: 0xbf80_0000 }
    }
}

/// What is drawn for one orb.
#[derive(Clone, Copy, Debug, PartialEq, Eq, Structural)]
pub struct OrbDraws {
    pub phase: Binary32,
    pub phi_radius: Binary32,
    pub phi_blur: Binary32,
    pub phi_opacity: Binary32,
    pub cross_axis: Binary32,
    /// The last bit gives the style.
    pub word: u32,
    /// The fraction of the total weight that gives the cluster.
    pub pick: Binary32,
    pub speed_mult: u32,
}

/// The parameters of orb `i` for what was drawn. Its turning comes from a hash.
pub open spec fn orb_of(
    seed: u64,
    weights: Seq<Binary32>,
    total: Binary32,
    i: u64,
    d: OrbDraws,
) -> OrbParams {
    OrbParams {
        phase: d.phase,
        phi_radius: d.phi_radius,
        phi_blur: d.phi_blur,
        phi_opacity: d.phi_opacity,
        style: if d.word & 1 == 0 {
            OrbStyle::Rim
        } else {
            OrbStyle::Soft
        },
        cluster_idx: weighted_index(weights, total, d.pick) as usize,
        cross_axis: d.cross_axis,
        speed_mult: d.speed_mult,
        base_angle: turn_start(seed, i),
        rot_speed_signed: of_int(false, d.speed_mult as nat).times(turn_sign(seed, i)),
    }
}

/// The draws of an orb and the position of the stream behind them: phase, three breathing
/// phases, the place across, the style, the cluster and the speed, in this order.
pub open spec fn orb_draws(seed: u64, pos: u128, weights: Seq<Binary32>, total: Binary32) -> (
    OrbDraws,
    u128,
) {
    let zero = Binary32 { bits: 0 };
    let one = Binary32 { bits: ONE };
    let turn = Binary32 { bits: 0x40c9_0fdb };
    let (phase, p1) = real_draw(seed, pos, zero, one);
    let (phi_radius, p2) = real_draw(seed, p1, zero, turn);
    let (phi_blur, p3) = real_draw(seed, p2, zero, turn);
    let (phi_opacity, p4) = real_draw(seed, p3, zero, turn);
    let (cross_axis, p5) = real_draw(seed, p4, zero, one);
    let (word, p6) = word_draw(seed, p5);
    let (pick, p7) = pick_draw(seed, p6, weights, total);
    let (speed_mult, p8) = count_draw(seed, p7, 1, 3);
    (
        OrbDraws { phase, phi_radius, phi_blur, phi_opacity, cross_axis, word, pick, speed_mult },
        p8,
    )
}

/// The parameters of orb `i`, and the position of the stream behind its draws.
pub open spec fn orb_drawn(
    seed: u64,
    pos: u128,
    weights: Seq<Binary32>,
    total: Binary32,
    i: u64,
) -> (OrbParams, u128) {
    let (draws, next) = orb_draws(seed, pos, weights, total);
    (orb_of(seed, weights, total, i, draws), next)
}

/// The position of the stream before orb `n`.
pub open spec fn orb_pos(seed: u64, weights: Seq<Binary32>, n: nat) -> u128
    decreases n,
{
    if n == 0 {
        0
    } else {
        orb_drawn(
            seed,
            orb_pos(seed, weights, (n - 1) as nat),
            weights,
            weight_sum(weights, weights.len()),
            (n - 1) as u64,
        ).1
    }
}

/// The parameters of orb `i`.
pub open spec fn orb_params(seed: u64, weights: Seq<Binary32>, i: nat) -> OrbParams {
    orb_drawn(
        seed,
        orb_pos(seed, weights, i),
        weights,
        weight_sum(weights, weights.len()),
        i as u64,
    ).0
}

/// 0 to 1 and 0 to a full turn are ranges that a draw accepts.
proof fn lemma_draw_ranges()
    ensures
        (Binary32 { bits: ONE }).minus(Binary32 { bits: 0 }).finite(),
        (Binary32 { bits: 0x40c9_0fdb }).minus(Binary32 { bits: 0 }).finite(),
{
    let zero = (Binary32 { bits: 0 }).opposite();
    crate::binary32_laws::lemma_plus_zero(Binary32 { bits: ONE }, zero);
    crate::binary32_laws::lemma_plus_zero(Binary32 { bits: 0x40c9_0fdb }, zero);
}

/// Whether the parameters of an orb lie in their ranges: the phases of the way and the
/// place across within 0 to 1, those of the breathing within a full turn, the speed from
/// 1 to 3. A glyph turns as often as its orb crosses the picture.
pub open spec fn orb_in_range(p: OrbParams) -> bool {
    let zero = Binary32 { bits: 0 };
    let one = Binary32 { bits: ONE };
    let turn = Binary32 { bits: 0x40c9_0fdb };
    &&& zero.at_most(p.phase) && p.phase.less(one)
    &&& zero.at_most(p.phi_radius) && p.phi_radius.less(turn)
    &&& zero.at_most(p.phi_blur) && p.phi_blur.less(turn)
    &&& zero.at_most(p.phi_opacity) && p.phi_opacity.less(turn)
    &&& zero.at_most(p.cross_axis) && p.cross_axis.less(one)
    &&& 1 <= p.speed_mult <= 3
    &&& p.rot_speed_signed.absolute() == of_int(false, p.speed_mult as nat)
}

/// A small number times 1 or -1 keeps its magnitude.
proof fn lemma_signed_number(n: nat, sign: Binary32)
    requires
        n <= 3,
        sign.bits == ONE || sign.bits == 0xbf80_0000,
    ensures
        of_int(false, n).times(sign).absolute() == of_int(false, n),
{
    let x = of_int(false, n);
    let one = Binary32 { bits: ONE };
    crate::integers::lemma_of_int_exact(false, n);
    crate::binary32_laws::lemma_times_one(x);
    reveal(Binary32::times);
    assert(sign.units() == one.units());
    assert(x.absolute() == x);
    assert(x.times(sign).mag() == x.times(one).mag());
}

/// Whether what was drawn for an orb lies in its ranges.
pub open spec fn draws_in_range(d: OrbDraws) -> bool {
    let zero = Binary32 { bits: 0 };
    let one = Binary32 { bits: ONE };
    let turn = Binary32 { bits: 0x40c9_0fdb };
    &&& zero.at_most(d.phase) && d.phase.less(one)
    &&& zero.at_most(d.phi_radius) && d.phi_radius.less(turn)
    &&& zero.at_most(d.phi_blur) && d.phi_blur.less(turn)
    &&& zero.at_most(d.phi_opacity) && d.phi_opacity.less(turn)
    &&& zero.at_most(d.cross_axis) && d.cross_axis.less(one)
    &&& 1 <= d.speed_mult <= 3
}

/// The parameters of orb `i` for what was drawn.
pub fn orb_from_draws(seed: u64, weights: &Vec<Binary32>, total: Binary32, i: u64, d: OrbDraws) -> (r:
    OrbParams)
    ensures
        r == orb_of(seed, weights@, total, i, d),
        weights@.len() > 0 ==> r.cluster_idx < weights@.len(),
        draws_in_range(d) ==> orb_in_range(r),
{
    let one = Binary32 { bits: ONE };
    let style = if d.word & 1 == 0 {
        OrbStyle::Rim
    } else {
        OrbStyle::Soft
    };
    let hash: u64 = splitmix64(seed ^ i.wrapping_mul(0x9E37_79B9_7F4A_7C15));
    let sign = if splitmix64(hash ^ 0xD1B5_4A32_D192_ED03) & 1 == 0 {
        one
    } else {
        Binary32 { bits: 0xbf80_0000 }
    };
    proof {
        if draws_in_range(d) {
            lemma_signed_number(d.speed_mult as nat, sign);
        }
    }
    OrbParams {
        phase: d.phase,
        phi_radius: d.phi_radius,
        phi_blur: d.phi_blur,
        phi_opacity: d.phi_opacity,
        style,
        cluster_idx: index_by_weight(weights, total, d.pick),
        cross_axis: d.cross_axis,
        speed_mult: d.speed_mult,
        base_angle: unit_from_hash(hash).mul(Binary32 { bits: 0x40c9_0fdb }),
        rot_speed_signed: Binary32::from_u64(d.speed_mult as u64).mul(sign),
    }
}

/// Draws the parameters of one orb.
fn draw_orb(seed: u64, pos: u128, weights: &Vec<Binary32>, total: Binary32, i: u64) -> (r: (
    OrbParams,
    u128,
))
    ensures
        r == orb_drawn(seed, pos, weights@, total, i),
        weights@.len() > 0 ==> r.0.cluster_idx < weights@.len(),
        orb_in_range(r.0),
{
    let zero = Binary32 { bits: 0 };
    let one = Binary32 { bits: ONE };
    let turn = Binary32 { bits: 0x40c9_0fdb };
    proof {
        lemma_draw_ranges();
    }
    let (phase, p1) = draw_real(seed, pos, zero, one);
    let (phi_radius, p2) = draw_real(seed, p1, zero, turn);
    let (phi_blur, p3) = draw_real(seed, p2, zero, turn);
    let (phi_opacity, p4) = draw_real(seed, p3, zero, turn);
    let (cross_axis, p5) = draw_real(seed, p4, zero, one);
    let (word, p6) = draw_word(seed, p5);
    let (pick, p7) = if total.le(zero) || weights.len() == 0 {
        (zero, p6)
    } else {
        draw_fraction(seed, p6)
    };
    let (speed_mult, p8) = draw_count(seed, p7, 1, 3);
    let draws = OrbDraws {
        phase,
        phi_radius,
        phi_blur,
        phi_opacity,
        cross_axis,
        word,
        pick,
        speed_mult,
    };
    (orb_from_draws(seed, weights, total, i, draws), p8)
}

/// The parameters of `n` orbs.
pub fn generate_orb_params(seed: u64, n: usize, weights: &Vec<Binary32>) -> (r: Vec<OrbParams>)
    ensures
        r@ == Seq::new(n as nat, |i: int| orb_params(seed, weights@, i as nat)),
        forall|i: int|
            0 <= i < n ==> orb_in_range(#[trigger] r@[i]) && (weights@.len() > 0
                ==> r@[i].cluster_idx < weights@.len()),
{
    let mut total = Binary32 { bits: 0 };
    let mut j: usize = 0;
    while j < weights.len()
        invariant
            j <= weights@.len(),
            total == weight_sum(weights@, j as nat),
        decreases weights.len() - j,
    {
        total = total.add(weights[j].max(Binary32 { bits: 0 }));
        j = j + 1;
    }
    let mut r: Vec<OrbParams> = Vec::new();
    let mut pos: u128 = 0;
    let mut i: usize = 0;
    while i < n
        invariant
            i <= n,
            total == weight_sum(weights@, weights@.len()),
            pos == orb_pos(seed, weights@, i as nat),
            r@ == Seq::new(i as nat, |k: int| orb_params(seed, weights@, k as nat)),
            forall|k: int|
                0 <= k < i ==> orb_in_range(#[trigger] r@[k]) && (weights@.len() > 0
                    ==> r@[k].cluster_idx < weights@.len()),
        decreases n - i,
    {
        let (p, next) = draw_orb(seed, pos, weights, total, i as u64);
        r.push(p);
        pos = next;
        i = i + 1;
        proof {
            assert(r@ =~= Seq::new(i as nat, |k: int| orb_params(seed, weights@, k as nat)));
        }
    }
    r
}

/// A longer series of orbs begins with the shorter one.
pub proof fn lemma_orbs_do_not_depend_on_their_number(
    seed: u64,
    weights: Seq<Binary32>,
    m: nat,
    n: nat,
)
    requires
        m <= n,
    ensures
        Seq::new(n, |i: int| orb_params(seed, weights, i as nat)).take(m as int) == Seq::new(
            m,
            |i: int| orb_params(seed, weights, i as nat),
        ),
{
    assert(Seq::new(n, |i: int| orb_params(seed, weights, i as nat)).take(m as int) =~= Seq::new(
        m,
        |i: int| orb_params(seed, weights, i as nat),
    ));
}

/// What a frame is packed from, besides the clusters.
#[derive(Clone, Copy, Debug)]
pub struct PackHeader {
    /// Red, green, blue and alpha of the background.
    pub bg: [u8; 4],
    pub base_radius_unit: Binary32,
    pub base_blur: Binary32,
    pub direction_id: Binary32,
    pub cycle: Binary32,
    pub alpha_mul: Binary32,
    pub shape_id: Binary32,
    pub glyph_rotate: bool,
    pub edge_softness: Binary32,
    pub shadow_strength: Binary32,
}


/// The header words.
pub open spec fn header_words(h: PackHeader, n_orbs: nat) -> Seq<Binary32> {
    let zero = Binary32 { bits: 0 };
    let one = Binary32 { bits: ONE };
    seq![
        channel_number(h.bg[0]),
        channel_number(h.bg[1]),
        channel_number(h.bg[2]),
        channel_number(h.bg[3]),
        h.base_radius_unit,
        h.base_blur,
        h.direction_id,
        h.cycle,
        of_int(false, n_orbs),
        h.alpha_mul,
        h.shape_id,
        if h.glyph_rotate {
            one
        } else {
            zero
        },
        h.edge_softness,
        h.shadow_strength.clamped(zero, one),
        zero,
        zero,
    ]
}

/// The weights of the clusters, none below 0.
pub open spec fn cluster_weights(clusters: Seq<Cluster>) -> Seq<Binary32> {
    Seq::new(clusters.len(), |i: int| weight_part(clusters[i].weight))
}

/// The drift of the cluster with index `idx`: none where it is not given.
pub open spec fn drift_of(cross_drift: Option<Seq<Binary32>>, idx: nat) -> Binary32 {
    match cross_drift {
        Some(d) => if idx < d.len() {
            d[idx as int]
        } else {
            Binary32 { bits: 0 }
        },
        None => Binary32 { bits: 0 },
    }
}

/// The words of one orb.
pub open spec fn orb_words(c: Cluster, p: OrbParams, drift: Binary32) -> Seq<Binary32> {
    let zero = Binary32 { bits: 0 };
    seq![
        channel_number(c.color[0]),
        channel_number(c.color[1]),
        channel_number(c.color[2]),
        weight_part(c.weight),
        p.phase,
        p.phi_radius,
        p.phi_blur,
        p.phi_opacity,
        p.cross_axis,
        if p.style == OrbStyle::Rim {
            zero
        } else {
            Binary32 { bits: ONE }
        },
        of_int(false, p.speed_mult as nat),
        p.base_angle,
        p.rot_speed_signed,
        drift,
        zero,
        zero,
    ]
}

/// The words of the first `n` orbs; zeros where there is no cluster.
pub open spec fn all_orb_words(
    clusters: Seq<Cluster>,
    seed: u64,
    cross_drift: Option<Seq<Binary32>>,
    n: nat,
) -> Seq<Binary32>
    decreases n,
{
    if n == 0 {
        Seq::empty()
    } else {
        let before = all_orb_words(clusters, seed, cross_drift, (n - 1) as nat);
        if clusters.len() == 0 {
            before + Seq::new(16, |i: int| Binary32 { bits: 0 })
        } else {
            let p = orb_params(seed, cluster_weights(clusters), (n - 1) as nat);
            before + orb_words(
                clusters[p.cluster_idx as int],
                p,
                drift_of(cross_drift, p.cluster_idx as nat),
            )
        }
    }
}

/// What [`pack_render_data`] returns.
pub open spec fn packed(
    clusters: Seq<Cluster>,
    h: PackHeader,
    seed: u64,
    n_orbs: nat,
    cross_drift: Option<Seq<Binary32>>,
) -> Seq<Binary32> {
    header_words(h, n_orbs) + all_orb_words(clusters, seed, cross_drift, n_orbs)
}

fn push_all(v: &mut Vec<Binary32>, words: [Binary32; 16])
    ensures
        final(v)@ == old(v)@ + words@,
{
    let ghost start = v@;
    let mut i: usize = 0;
    while i < 16
        invariant
            i <= 16,
            words@.len() == 16,
            v@ == start + words@.take(i as int),
        decreases 16 - i,
    {
        v.push(words[i]);
        i = i + 1;
        proof {
            assert(v@ =~= start + words@.take(i as int));
        }
    }
    proof {
        assert(words@.take(16) =~= words@);
    }
}

/// Packs a frame: the words that the shaders read, a header and then each orb.
///
/// `cross_drift` gives for each cluster how far its orbs wander across their way.
pub fn pack_render_data(
    clusters: &[Cluster],
    bg: [u8; 4],
    base_radius_unit: Binary32,
    base_blur: Binary32,
    direction_id: Binary32,
    cycle: Binary32,
    seed: u64,
    n_orbs: usize,
    alpha_mul: Binary32,
    shape_id: Binary32,
    glyph_rotate: bool,
    edge_softness: Binary32,
    shadow_strength: Binary32,
    cross_drift: Option<&[Binary32]>,
) -> (r: Vec<Binary32>)
    ensures
        r@ == packed(
            clusters@,
            (PackHeader {
                bg,
                base_radius_unit,
                base_blur,
                direction_id,
                cycle,
                alpha_mul,
                shape_id,
                glyph_rotate,
                edge_softness,
                shadow_strength,
            }),
            seed,
            n_orbs as nat,
            match cross_drift {
                Some(d) => Some(d@),
                None => None,
            },
        ),
        r@.len() == 16 + 16 * n_orbs,
{
    let h = PackHeader {
        bg,
        base_radius_unit,
        base_blur,
        direction_id,
        cycle,
        alpha_mul,
        shape_id,
        glyph_rotate,
        edge_softness,
        shadow_strength,
    };
    pack_words(clusters, &h, seed, n_orbs, cross_drift)
}

/// The words of one orb.
fn orb_row(c: &Cluster, p: &OrbParams, drift: Binary32) -> (r: [Binary32; 16])
    ensures
        r@ == orb_words(*c, *p, drift),
{
    let zero = Binary32 { bits: 0 };
    let one = Binary32 { bits: ONE };
    let r: [Binary32; 16] = [
        channel_to_number(c.color[0]),
        channel_to_number(c.color[1]),
        channel_to_number(c.color[2]),
        c.weight.max(zero),
        p.phase,
        p.phi_radius,
        p.phi_blur,
        p.phi_opacity,
        p.cross_axis,
        if p.style == OrbStyle::Rim {
            zero
        } else {
            one
        },
        Binary32::from_u64(p.speed_mult as u64),
        p.base_angle,
        p.rot_speed_signed,
        drift,
        zero,
        zero,
    ];
    assert(r@ =~= orb_words(*c, *p, drift));
    r
}

/// The words of an orb without a cluster.
fn empty_row() -> (r: [Binary32; 16])
    ensures
        r@ == Seq::new(16, |k: int| Binary32 { bits: 0 }),
{
    let r: [Binary32; 16] = [Binary32 { bits: 0 }; 16];
    assert(r@ =~= Seq::new(16, |k: int| Binary32 { bits: 0 }));
    r
}

/// The words of the header.
fn header_row(h: &PackHeader, n_orbs: usize) -> (r: [Binary32; 16])
    ensures
        r@ == header_words(*h, n_orbs as nat),
{
    let zero = Binary32 { bits: 0 };
    let one = Binary32 { bits: ONE };
    let r: [Binary32; 16] = [
        channel_to_number(h.bg[0]),
        channel_to_number(h.bg[1]),
        channel_to_number(h.bg[2]),
        channel_to_number(h.bg[3]),
        h.base_radius_unit,
        h.base_blur,
        h.direction_id,
        h.cycle,
        Binary32::from_u64(n_orbs as u64),
        h.alpha_mul,
        h.shape_id,
        if h.glyph_rotate {
            one
        } else {
            zero
        },
        h.edge_softness,
        h.shadow_strength.clamp(zero, one),
        zero,
        zero,
    ];
    assert(r@ =~= header_words(*h, n_orbs as nat));
    r
}

fn pack_words(
    clusters: &[Cluster],
    h: &PackHeader,
    seed: u64,
    n_orbs: usize,
    cross_drift: Option<&[Binary32]>,
) -> (r: Vec<Binary32>)
    ensures
        r@ == packed(
            clusters@,
            *h,
            seed,
            n_orbs as nat,
            match cross_drift {
                Some(d) => Some(d@),
                None => None,
            },
        ),
        r@.len() == 16 + 16 * n_orbs,
{
    let zero = Binary32 { bits: 0 };
    let ghost drifts = match cross_drift {
        Some(d) => Some(d@),
        None => None,
    };
    let mut buf: Vec<Binary32> = Vec::new();
    let head: [Binary32; 16] = header_row(h, n_orbs);
    push_all(&mut buf, head);
    proof {
        assert(buf@ =~= header_words(*h, n_orbs as nat));
    }
    let mut weights: Vec<Binary32> = Vec::new();
    let mut j: usize = 0;
    while j < clusters.len()
        invariant
            j <= clusters@.len(),
            weights@ == Seq::new(j as nat, |i: int| weight_part(clusters@[i].weight)),
        decreases clusters.len() - j,
    {
        weights.push(clusters[j].weight.max(Binary32 { bits: 0 }));
        j = j + 1;
        proof {
            assert(weights@ =~= Seq::new(j as nat, |i: int| weight_part(clusters@[i].weight)));
        }
    }
    proof {
        assert(weights@ =~= cluster_weights(clusters@));
    }
    let params: Vec<OrbParams> = if clusters.len() == 0 {
        Vec::new()
    } else {
        generate_orb_params(seed, n_orbs, &weights)
    };
    let mut i: usize = 0;
    while i < n_orbs
        invariant
            i <= n_orbs,
            zero.bits == 0,
            weights@ == cluster_weights(clusters@),
            drifts == match cross_drift {
                Some(d) => Some(d@),
                None => None,
            },
            clusters@.len() > 0 ==> params@ == Seq::new(
                n_orbs as nat,
                |k: int| orb_params(seed, weights@, k as nat),
            ),
            clusters@.len() > 0 ==> forall|k: int|
                0 <= k < n_orbs ==> (#[trigger] params@[k]).cluster_idx < clusters@.len(),
            buf@ == header_words(*h, n_orbs as nat) + all_orb_words(
                clusters@,
                seed,
                drifts,
                i as nat,
            ),
            buf@.len() == 16 + 16 * i,
        decreases n_orbs - i,
    {
        let ghost start = buf@;
        let ghost before = all_orb_words(clusters@, seed, drifts, i as nat);
        if clusters.len() == 0 {
            let words: [Binary32; 16] = empty_row();
            push_all(&mut buf, words);
        } else {
            let p = params[i];
            let c = clusters[p.cluster_idx];
            let drift = match cross_drift {
                Some(d) => if p.cluster_idx < d.len() {
                    d[p.cluster_idx]
                } else {
                    zero
                },
                None => zero,
            };
            let words: [Binary32; 16] = orb_row(&c, &p, drift);
            push_all(&mut buf, words);
        }
        proof {
            let row = buf@.skip(start.len() as int);
            assert(buf@ =~= start + row);
            assert(all_orb_words(clusters@, seed, drifts, (i + 1) as nat) =~= before + row);
            assert(buf@ =~= header_words(*h, n_orbs as nat) + all_orb_words(
                clusters@,
                seed,
                drifts,
                (i + 1) as nat,
            ));
        }
        i = i + 1;
    }
    buf
}

/// The colour of a cluster at `t`: that of its keyframes, or else of its colour track, or
/// else its own. Empty tracks do not count.
pub open spec fn color_of_cluster(
    color: [u8; 3],
    keyframes: Option<Seq<KeyframeClusterPoint>>,
    colors: Option<Seq<[u8; 3]>>,
    t: Binary32,
) -> Seq<u8> {
    match keyframes {
        Some(track) if track.len() > 0 => keyframe_at(track, t).0,
        _ => match colors {
            Some(track) if track.len() > 0 => color_at(track, t),
            _ => color@,
        },
    }
}

/// The track with index `i` of those that are given.
pub open spec fn track_of<T>(tracks: Option<Vec<Vec<T>>>, i: int) -> Option<Seq<T>> {
    match tracks {
        Some(ts) => if i < ts@.len() {
            Some(ts@[i]@)
        } else {
            None
        },
        None => None,
    }
}

/// Gives every cluster its colour at `t`. Places and weights stay.
pub fn apply_color_tracks_at_t(clusters: &[Cluster], opts: &AnimateOptions, t: Binary32) -> (r: Vec<
    Cluster,
>)
    ensures
        r@.len() == clusters@.len(),
        forall|i: int|
            0 <= i < r@.len() ==> {
                &&& (#[trigger] r@[i]).color@ == color_of_cluster(
                    clusters@[i].color,
                    track_of(opts.keyframe_tracks, i),
                    track_of(opts.color_tracks, i),
                    t,
                )
                &&& r@[i].centroid == clusters@[i].centroid
                &&& r@[i].weight == clusters@[i].weight
            },
{
    let mut r: Vec<Cluster> = Vec::new();
    let mut i: usize = 0;
    while i < clusters.len()
        invariant
            i <= clusters@.len(),
            r@.len() == i,
            forall|j: int|
                0 <= j < r@.len() ==> {
                    &&& (#[trigger] r@[j]).color@ == color_of_cluster(
                        clusters@[j].color,
                        track_of(opts.keyframe_tracks, j),
                        track_of(opts.color_tracks, j),
                        t,
                    )
                    &&& r@[j].centroid == clusters@[j].centroid
                    &&& r@[j].weight == clusters@[j].weight
                },
        decreases clusters.len() - i,
    {
        let c: Cluster = clusters[i];
        let mut color: [u8; 3] = c.color;
        let mut done: bool = false;
        if let Some(ts) = &opts.keyframe_tracks {
            if i < ts.len() && ts[i].len() > 0 {
                let (k, _centroid, _weight) = interpolate_keyframe_track(ts[i].as_slice(), t);
                color = k;
                done = true;
            }
        }
        if !done {
            if let Some(ts) = &opts.color_tracks {
                if i < ts.len() && ts[i].len() > 0 {
                    color = interpolate_color_track(ts[i].as_slice(), t);
                }
            }
        }
        r.push(Cluster { color, centroid: c.centroid, weight: c.weight });
        i = i + 1;
    }
    r
}

/// The coordinate across the way: `y` for the horizontal directions.
pub open spec fn across(c: Centroid, horizontal: bool) -> Binary32 {
    if horizontal {
        c.y
    } else {
        c.x
    }
}

/// How far a track's place at `t` lies off the straight line between its ends, times the
/// gain.
pub open spec fn drift_at(track: Seq<KeyframeClusterPoint>, t: Binary32, horizontal: bool) -> Binary32 {
    let one = Binary32 { bits: ONE };
    let zero = Binary32 { bits: 0 };
    let here = across(keyframe_at(track, t).1, horizontal);
    let first = across(keyframe_at(track, zero).1, horizontal);
    let last = across(keyframe_at(track, one).1, horizontal);
    (Binary32 { bits: KEYFRAME_DRIFT_GAIN }).times(
        here.minus(first.times(one.minus(t)).plus(last.times(t))),
    )
}

/// A time, or 0 where it is not a number.
pub open spec fn sound_time(t: Binary32) -> Binary32 {
    if t.nan_pattern() {
        Binary32 { bits: 0 }
    } else {
        t
    }
}

/// How far the orbs of each cluster wander across their way at `t`: nothing without
/// keyframes, and 0 for a cluster without a track.
pub fn keyframe_cross_drift(
    opts: &AnimateOptions,
    t: Binary32,
    direction_id: Binary32,
    n_clusters: usize,
) -> (r: Option<Vec<Binary32>>)
    ensures
        r is None <==> (opts.keyframe_tracks is None || opts.keyframe_tracks->0@.len() == 0),
        r matches Some(drift) ==> {
            &&& drift@.len() == n_clusters
            &&& forall|i: int|
                0 <= i < n_clusters ==> #[trigger] drift@[i] == match track_of(
                    opts.keyframe_tracks,
                    i,
                ) {
                    Some(track) if track.len() > 0 => drift_at(
                        track,
                        sound_time(t),
                        direction_id.less(Binary32 { bits: 0x3fc0_0000 }),
                    ),
                    _ => Binary32 { bits: 0 },
                }
        },
{
    let tracks = match &opts.keyframe_tracks {
        Some(ts) => ts,
        None => {
            return None;
        },
    };
    if tracks.len() == 0 {
        return None;
    }
    let horizontal: bool = direction_id.lt(Binary32 { bits: 0x3fc0_0000 });
    let one = Binary32 { bits: ONE };
    let zero = Binary32 { bits: 0 };
    let time = if t.is_nan() {
        zero
    } else {
        t
    };
    let mut drift: Vec<Binary32> = Vec::new();
    let mut i: usize = 0;
    while i < n_clusters
        invariant
            i <= n_clusters,
            opts.keyframe_tracks == Some(*tracks),
            one.bits == ONE,
            zero.bits == 0,
            time == sound_time(t),
            horizontal == direction_id.less(Binary32 { bits: 0x3fc0_0000 }),
            drift@.len() == i,
            forall|j: int|
                0 <= j < i ==> #[trigger] drift@[j] == match track_of(opts.keyframe_tracks, j) {
                    Some(track) if track.len() > 0 => drift_at(track, sound_time(t), horizontal),
                    _ => Binary32 { bits: 0 },
                },
        decreases n_clusters - i,
    {
        if i < tracks.len() && tracks[i].len() > 0 {
            let track = tracks[i].as_slice();
            let (_color, here, _weight) = interpolate_keyframe_track(track, time);
            let (_color0, first, _weight0) = interpolate_keyframe_track(track, zero);
            let (_color1, last, _weight1) = interpolate_keyframe_track(track, one);
            let (h, f, l) = if horizontal {
                (here.y, first.y, last.y)
            } else {
                (here.x, first.x, last.x)
            };
            let line = f.mul(one.sub(time)).add(l.mul(time));
            drift.push((Binary32 { bits: KEYFRAME_DRIFT_GAIN }).mul(h.sub(line)));
        } else {
            drift.push(zero);
        }
        i = i + 1;
    }
    Some(drift)
}

/// Whether two tracks have the same times and the same places across the way.
pub open spec fn alike_across(
    track: Seq<KeyframeClusterPoint>,
    other: Seq<KeyframeClusterPoint>,
    horizontal: bool,
) -> bool {
    &&& track.len() == other.len()
    &&& forall|i: int|
        0 <= i < track.len() ==> {
            &&& (#[trigger] track[i]).time == (#[trigger] other[i]).time
            &&& across(track[i].centroid, horizontal) == across(other[i].centroid, horizontal)
        }
}

proof fn lemma_span_by_times(
    track: Seq<KeyframeClusterPoint>,
    other: Seq<KeyframeClusterPoint>,
    horizontal: bool,
    j: nat,
    t: Binary32,
)
    requires
        alike_across(track, other, horizontal),
    ensures
        span_from(track, j, t) == span_from(other, j, t),
        track.len() >= 2 ==> span_from(track, j, t) + 1 < track.len(),
        key_from(track, j, t) == key_from(other, j, t),
        key_from(track, j, t) matches Some(k) ==> k < track.len(),
    decreases track.len() - j,
{
    if j < track.len() {
        assert(track[j as int].time == other[j as int].time);
        if j + 1 < track.len() {
            assert(track[j as int + 1].time == other[j as int + 1].time);
        }
        lemma_span_by_times(track, other, horizontal, j + 1, t);
    }
}

/// How an orb wanders across its way depends on the places across it alone: what the
/// keyframes say of the places along the way, the colours and the weights changes nothing.
pub proof fn lemma_drift_ignores_the_way(
    track: Seq<KeyframeClusterPoint>,
    other: Seq<KeyframeClusterPoint>,
    horizontal: bool,
    t: Binary32,
)
    requires
        alike_across(track, other, horizontal),
    ensures
        drift_at(track, t, horizontal) == drift_at(other, t, horizontal),
{
    lemma_place_ignores_the_way(track, other, horizontal, t);
    lemma_place_ignores_the_way(track, other, horizontal, Binary32 { bits: 0 });
    lemma_place_ignores_the_way(track, other, horizontal, Binary32 { bits: ONE });
}

proof fn lemma_place_ignores_the_way(
    track: Seq<KeyframeClusterPoint>,
    other: Seq<KeyframeClusterPoint>,
    horizontal: bool,
    t: Binary32,
)
    requires
        alike_across(track, other, horizontal),
    ensures
        across(keyframe_at(track, t).1, horizontal) == across(
            keyframe_at(other, t).1,
            horizontal,
        ),
{
    let n = track.len();
    if n > 0 {
        assert(track[0].time == other[0].time);
        assert(track[n - 1].time == other[n - 1].time);
        lemma_span_by_times(track, other, horizontal, 0, t);
        let i = span_from(track, 0, t) as int;
        if n >= 2 {
            assert(track[i].time == other[i].time);
            assert(track[i + 1].time == other[i + 1].time);
        }
        if let Some(k) = key_from(track, 0, t) {
            assert(track[k as int].time == other[k as int].time);
        }
    }
}

/// The wandering begins and ends at rest, so that the motion loops: at both ends of the
/// time it is zero, for every track whose places are finite.
pub proof fn lemma_drift_loops(track: Seq<KeyframeClusterPoint>, horizontal: bool)
    requires
        across(keyframe_at(track, Binary32 { bits: 0 }).1, horizontal).finite(),
        across(keyframe_at(track, Binary32 { bits: ONE }).1, horizontal).finite(),
    ensures
        drift_at(track, Binary32 { bits: 0 }, horizontal).mag() == 0,
        drift_at(track, Binary32 { bits: ONE }, horizontal).mag() == 0,
{
    let first = across(keyframe_at(track, Binary32 { bits: 0 }).1, horizontal);
    let last = across(keyframe_at(track, Binary32 { bits: ONE }).1, horizontal);
    lemma_line_ends(first, last);
}

/// A straight line is at its ends where it begins and ends.
proof fn lemma_line_ends(first: Binary32, last: Binary32)
    requires
        first.finite(),
        last.finite(),
    ensures
        ({
            let one = Binary32 { bits: ONE };
            let zero = Binary32 { bits: 0 };
            let gain = Binary32 { bits: KEYFRAME_DRIFT_GAIN };
            &&& gain.times(
                first.minus(first.times(one.minus(zero)).plus(last.times(zero))),
            ).mag() == 0
            &&& gain.times(
                last.minus(first.times(one.minus(one)).plus(last.times(one))),
            ).mag() == 0
        }),
{
    let one = Binary32 { bits: ONE };
    let zero = Binary32 { bits: 0 };
    let gain = Binary32 { bits: KEYFRAME_DRIFT_GAIN };
    lemma_plus_zero(one, zero.opposite());
    assert(one.minus(zero) == one);
    lemma_minus_self(one);
    assert(one.minus(one) == zero);
    lemma_times_one(first);
    lemma_times_one(last);
    lemma_times_zero(first, zero);
    lemma_times_zero(last, zero);
    lemma_rest_of_line(first, last.times(zero));
    lemma_rest_of_line_after(last, first.times(zero));
    lemma_times_zero(gain, first.minus(first.plus(last.times(zero))));
    lemma_times_zero(gain, last.minus(first.times(zero).plus(last)));
}

proof fn lemma_rest_of_line(x: Binary32, zero: Binary32)
    requires
        x.finite(),
        zero.mag() == 0,
    ensures
        x.minus(x.plus(zero)).mag() == 0,
{
    lemma_plus_zero(x, zero);
    lemma_minus_self(x);
    if x.mag() == 0 {
        lemma_plus_zero(x, x.plus(zero).opposite());
    }
}

proof fn lemma_rest_of_line_after(x: Binary32, zero: Binary32)
    requires
        x.finite(),
        zero.mag() == 0,
    ensures
        x.minus(zero.plus(x)).mag() == 0,
{
    lemma_plus_zero(x, zero);
    lemma_minus_self(x);
    if x.mag() == 0 {
        lemma_plus_zero(x, zero.plus(x).opposite());
    }
}

} // verus!
