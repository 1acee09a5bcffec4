//! What the graphics processor is given and gives back: the words of a frame, the texture
//! rows of its orbs, the distance field that it reads, and the pixels of the result.

use crate::animate::{
    apply_color_tracks_at_t, color_of_cluster, drift_at, keyframe_cross_drift, pack_render_data, packed,
    sound_time, track_of, AnimateOptions, AquaBleedConfig, MotionDirection, PackHeader,
    MAX_ORB_COUNT,
};
use crate::binary32::{Binary32, ONE};
use crate::cluster::Cluster;
use crate::glyph::{
    char_box, field_size_for, fillable, glyph_mask, glyph_frame, glyph_sdf_size_for_radius, can_fill,
    outline_to_sdf, sdf_of, wanted_size, GlyphBox, OutlineStep,
};
use crate::integers::of_int;
use crate::orb::{adjust_saturation_pub, channel_number, channel_to_number, saturated, OrbShape};
use vstd::prelude::*;

verus! {

/// The bytes of a pixel.
pub const BYTES_PER_PIXEL: u32 = 4;

/// The rows of what is read back start at multiples of this.
pub const ROW_ALIGNMENT: u32 = 256;

/// The texels of an orb.
pub const ORB_TEX_WIDTH: u32 = 4;

/// The pattern of 1.1, the most that breathing widens an orb.
pub const BREATH_RADIUS_MAX_FACTOR: u32 = 0x3f8c_cccd;

/// Rounds up to a multiple.
pub fn align_up(value: u32, align: u32) -> (r: u32)
    requires
        align > 0,
        value as int % align as int != 0 ==> value - value as int % align as int + align
            <= u32::MAX,
    ensures
        r as int % align as int == 0,
        value <= r < value + align,
{
    let q: u32 = value / align;
    let rest: u32 = value % align;
    proof {
        vstd::arithmetic::div_mod::lemma_fundamental_div_mod(value as int, align as int);
        assert(q * align == align * q) by (nonlinear_arith);
        vstd::arithmetic::div_mod::lemma_mod_multiples_basic(q as int, align as int);
        vstd::arithmetic::div_mod::lemma_mod_multiples_basic(q + 1, align as int);
        assert((q + 1) * align == q * align + align) by (nonlinear_arith);
    }
    if rest == 0 {
        value
    } else {
        value - rest + align
    }
}

/// The bytes of a row that is read back.
pub fn padded_row(width: u32) -> (r: u32)
    requires
        width <= 0x3fff_ffc0,
    ensures
        r as int % 256 == 0,
        width * 4 <= r < width * 4 + 256,
{
    align_up(width * BYTES_PER_PIXEL, ROW_ALIGNMENT)
}

/// The pixels of what was read back: its rows, without what fills them up.
pub open spec fn unpadded(mapped: Seq<u8>, row: nat, padded: nat, height: nat) -> Seq<u8>
    decreases height,
{
    if height == 0 {
        Seq::empty()
    } else {
        let start = (height - 1) * padded;
        unpadded(mapped, row, padded, (height - 1) as nat) + mapped.subrange(start, start + row)
    }
}

/// Takes the pixels out of what was read back.
pub fn strip_padding(mapped: &[u8], width: u32, height: u32, padded: u32) -> (r: Vec<u8>)
    requires
        width * 4 <= padded,
        padded * height <= mapped@.len(),
        width <= 0x3fff_ffc0,
    ensures
        r@ == unpadded(mapped@, (width * 4) as nat, padded as nat, height as nat),
        r@.len() == width * 4 * height,
{
    let row: u32 = width * BYTES_PER_PIXEL;
    let total: usize = mapped.len();
    let mut r: Vec<u8> = Vec::new();
    let mut y: u32 = 0;
    let mut start: usize = 0;
    proof {
        assert(0 * padded == 0);
        assert(width * 4 * 0 == 0);
    }
    while y < height
        invariant
            y <= height,
            total == mapped@.len(),
            row == width * 4,
            row <= padded,
            padded * height <= total,
            start == padded * y,
            r@ == unpadded(mapped@, row as nat, padded as nat, y as nat),
            r@.len() == row * y,
        decreases height - y,
    {
        proof {
            assert(padded * (y + 1) == padded * y + padded && padded * (y + 1) <= padded * height)
                by (nonlinear_arith)
                requires
                    y + 1 <= height,
                    padded >= 0,
            ;
            assert(row * (y + 1) == row * y + row) by (nonlinear_arith);
        }
        let ghost before = r@;
        let mut x: usize = 0;
        while x < row as usize
            invariant
                x <= row,
                row <= padded,
                start + padded <= total,
                total == mapped@.len(),
                r@ == before + mapped@.subrange(start as int, start + x),
            decreases row - x,
        {
            r.push(mapped[start + x]);
            x = x + 1;
            proof {
                assert(r@ =~= before + mapped@.subrange(start as int, start + x));
            }
        }
        proof {
            assert(y * padded == padded * y) by (nonlinear_arith);
        }
        y = y + 1;
        if y < height {
            proof {
                assert(padded * (y + 1) == padded * y + padded && padded * (y + 1) <= padded
                    * height) by (nonlinear_arith)
                    requires
                        y + 1 <= height,
                        padded >= 0,
                ;
            }
        }
        start = start + padded as usize;
    }
    r
}

/// A pixel that was read back stands where it stood in its row.
pub proof fn lemma_unpadded(mapped: Seq<u8>, row: nat, padded: nat, height: nat, x: nat, y: nat)
    requires
        x < row <= padded,
        y < height,
        padded * height <= mapped.len(),
    ensures
        unpadded(mapped, row, padded, height).len() == row * height,
        0 <= row * y + x < row * height,
        unpadded(mapped, row, padded, height)[(row * y + x) as int] == mapped[(padded * y
            + x) as int],
    decreases height,
{
    let h = (height - 1) as nat;
    assert(padded * h + padded == padded * height && row * h + row == row * height && row * y + x
        < row * height) by (nonlinear_arith)
        requires
            h == height - 1,
            y + 1 <= height,
            x < row,
    ;
    assert(h * padded == padded * h) by (nonlinear_arith);
    let before = unpadded(mapped, row, padded, h);
    if h > 0 {
        let x0 = 0nat;
        lemma_unpadded(mapped, row, padded, h, x0, 0);
    } else {
        assert(row * 0 == 0);
    }
    assert(before.len() == row * h);
    if y < h {
        lemma_unpadded(mapped, row, padded, h, x, y);
    } else {
        assert(y == h);
    }
}

/// How many orbs a frame has: as many as are wanted, or as there are clusters; at most
/// [`MAX_ORB_COUNT`], and one at least where there is a cluster.
pub open spec fn orb_count(clusters: nat, count: Option<usize>) -> nat {
    let wanted = match count {
        Some(n) => n as nat,
        None => clusters,
    };
    if wanted > MAX_ORB_COUNT {
        MAX_ORB_COUNT as nat
    } else if wanted == 0 && clusters > 0 {
        1
    } else {
        wanted
    }
}

/// How many orbs a frame has.
pub fn resolved_orb_count(clusters: &[Cluster], opts: &AnimateOptions) -> (r: usize)
    ensures
        r == orb_count(clusters@.len(), opts.count),
        r <= MAX_ORB_COUNT,
{
    let wanted: usize = match opts.count {
        Some(n) => n,
        None => clusters.len(),
    };
    if wanted > MAX_ORB_COUNT {
        MAX_ORB_COUNT
    } else if wanted == 0 && clusters.len() > 0 {
        1
    } else {
        wanted
    }
}

/// The number of a direction.
pub open spec fn direction_number(d: MotionDirection) -> Binary32 {
    match d {
        MotionDirection::LeftToRight => Binary32 { bits: 0 },
        MotionDirection::RightToLeft => Binary32 { bits: ONE },
        MotionDirection::TopToBottom => Binary32 { bits: 0x4000_0000 },
        MotionDirection::BottomToTop => Binary32 { bits: 0x4040_0000 },
    }
}

fn direction_id(d: MotionDirection) -> (r: Binary32)
    ensures
        r == direction_number(d),
{
    match d {
        MotionDirection::LeftToRight => Binary32 { bits: 0 },
        MotionDirection::RightToLeft => Binary32 { bits: ONE },
        MotionDirection::TopToBottom => Binary32 { bits: 0x4000_0000 },
        MotionDirection::BottomToTop => Binary32 { bits: 0x4040_0000 },
    }
}

/// The radius of an orb of weight 1: a quarter of the shorter side, times the size.
pub open spec fn radius_unit(width: u32, height: u32, orb_size: Binary32) -> Binary32 {
    let shorter = if width < height {
        width
    } else {
        height
    };
    of_int(false, shorter as nat).times(Binary32 { bits: 0x3e80_0000 }).times(
        orb_size.larger(Binary32 { bits: 0 }),
    )
}

fn base_radius_unit(width: u32, height: u32, orb_size: Binary32) -> (r: Binary32)
    ensures
        r == radius_unit(width, height, orb_size),
{
    let shorter: u32 = if width < height {
        width
    } else {
        height
    };
    Binary32::from_u64(shorter as u64).mul(Binary32 { bits: 0x3e80_0000 }).mul(
        orb_size.max(Binary32 { bits: 0 }),
    )
}

/// The header of a frame, of discs or of a distance field.
pub open spec fn frame_header(opts: AnimateOptions, width: u32, height: u32, field: bool) -> PackHeader {
    let zero = Binary32 { bits: 0 };
    let one = Binary32 { bits: ONE };
    PackHeader {
        bg: opts.background,
        base_radius_unit: radius_unit(width, height, opts.orb_size),
        base_blur: opts.blur.plus(opts.softness.offset()).clamped(zero, one),
        direction_id: direction_number(opts.direction),
        cycle: of_int(false, opts.speed.cycles() as nat),
        alpha_mul: opts.softness.alpha().clamped(zero, one),
        shape_id: if field {
            one
        } else {
            zero
        },
        glyph_rotate: !field || opts.glyph_rotate,
        edge_softness: opts.softness.edge(),
        shadow_strength: opts.shadow_strength,
    }
}

/// Whether `at` are the clusters with their colours at `t`.
pub open spec fn colored_at(
    clusters: Seq<Cluster>,
    opts: AnimateOptions,
    t: Binary32,
    at: Seq<Cluster>,
) -> bool {
    &&& at.len() == clusters.len()
    &&& forall|i: int|
        0 <= i < at.len() ==> {
            &&& (#[trigger] at[i]).color@ == color_of_cluster(
                clusters[i].color,
                track_of(opts.keyframe_tracks, i),
                track_of(opts.color_tracks, i),
                t,
            )
            &&& at[i].centroid == clusters[i].centroid
            &&& at[i].weight == clusters[i].weight
        }
}

/// How far the orbs of each cluster wander: nothing without keyframes.
pub open spec fn drifts_at(opts: AnimateOptions, t: Binary32, n: nat) -> Option<Seq<Binary32>> {
    if opts.keyframe_tracks is None || opts.keyframe_tracks->0@.len() == 0 {
        None
    } else {
        Some(
            Seq::new(
                n,
                |i: int|
                    match track_of(opts.keyframe_tracks, i) {
                        Some(track) if track.len() > 0 => drift_at(
                            track,
                            sound_time(t),
                            direction_number(opts.direction).less(Binary32 { bits: 0x3fc0_0000 }),
                        ),
                        _ => Binary32 { bits: 0 },
                    },
            ),
        )
    }
}

/// The byte of a channel.
pub open spec fn word_byte(x: Binary32) -> u8 {
    x.times(Binary32 { bits: 0x437f_0000 }).rounded().as_unsigned(0xff) as u8
}

fn to_byte(x: Binary32) -> (r: u8)
    ensures
        r == word_byte(x),
{
    x.mul(Binary32 { bits: 0x437f_0000 }).round().to_u8()
}

/// The colour of the `i`-th orb of a pack.
pub open spec fn orb_color(pack: Seq<Binary32>, i: int) -> [u8; 3] {
    let off = 16 + 16 * i;
    [word_byte(pack[off]), word_byte(pack[off + 1]), word_byte(pack[off + 2])]
}

/// A pack with the saturation of the first `n` orbs multiplied.
pub open spec fn saturated_pack(pack: Seq<Binary32>, factor: Binary32, n: nat) -> Seq<Binary32> {
    Seq::new(
        pack.len(),
        |j: int|
            {
                let i = (j - 16) / 16;
                let k = (j - 16) % 16;
                if 16 <= j && i < n && k < 3 && 16 + 16 * i + 3 <= pack.len() {
                    channel_number(saturated(orb_color(pack, i), factor)[k])
                } else {
                    pack[j]
                }
            },
    )
}

/// Multiplies the saturation of the first orbs of a pack, as far as the pack goes.
pub fn apply_saturation_to_pack(pack: &mut Vec<Binary32>, saturation: Binary32, n_orbs: usize)
    ensures
        final(pack)@ == saturated_pack(old(pack)@, saturation, n_orbs as nat),
{
    let ghost start = pack@;
    let len: usize = pack.len();
    let held: usize = if len < 19 {
        0
    } else {
        (len - 19) / 16 + 1
    };
    let end: usize = if n_orbs < held {
        n_orbs
    } else {
        held
    };
    let mut i: usize = 0;
    proof {
        assert(pack@ =~= saturated_pack(start, saturation, 0));
        assert forall|j: int| 0 <= j < len implies saturated_pack(start, saturation, end as nat)[j]
            == saturated_pack(start, saturation, n_orbs as nat)[j] by {
            let o = (j - 16) / 16;
            if 16 <= j && o >= end && o < n_orbs {
                assert(16 + 16 * o + 3 > len);
            }
        }
        assert(saturated_pack(start, saturation, end as nat) =~= saturated_pack(
            start,
            saturation,
            n_orbs as nat,
        ));
    }
    while i < end
        invariant
            i <= end <= held,
            held == 0 || 16 + 16 * (held - 1) + 3 <= len,
            len == start.len(),
            start == old(pack)@,
            pack@ == saturated_pack(start, saturation, i as nat),
        decreases end - i,
    {
        let off: usize = 16 + 16 * i;
        let rgb: [u8; 3] = [to_byte(pack[off]), to_byte(pack[off + 1]), to_byte(pack[off + 2])];
        proof {
            assert(pack@[off as int] == start[off as int]);
            assert(pack@[off + 1] == start[off + 1]);
            assert(pack@[off + 2] == start[off + 2]);
            assert(rgb@ =~= orb_color(start, i as int)@);
            assert(rgb == orb_color(start, i as int));
        }
        let out = adjust_saturation_pub(rgb, saturation);
        let ghost before = pack@;
        pack.set(off, channel_to_number(out[0]));
        pack.set(off + 1, channel_to_number(out[1]));
        pack.set(off + 2, channel_to_number(out[2]));
        proof {
            assert forall|j: int| 0 <= j < start.len() implies pack@[j] == saturated_pack(
                start,
                saturation,
                (i + 1) as nat,
            )[j] by {
                let o = (j - 16) / 16;
                let k = (j - 16) % 16;
                if 16 <= j && o == i && k < 3 {
                    assert(j == off + k);
                    assert(pack@[j] == channel_number(out@[k]));
                } else {
                    assert(pack@[j] == before[j]);
                }
            }
            assert(pack@ =~= saturated_pack(start, saturation, (i + 1) as nat));
        }
        i = i + 1;
    }
}

/// The words of a frame, given the clusters with their colours.
pub open spec fn frame_words(
    at: Seq<Cluster>,
    opts: AnimateOptions,
    width: u32,
    height: u32,
    n_orbs: nat,
    t: Binary32,
    field: bool,
) -> Seq<Binary32> {
    saturated_pack(
        packed(
            at,
            frame_header(opts, width, height, field),
            opts.seed,
            n_orbs,
            drifts_at(opts, t, at.len()),
        ),
        opts.saturation.larger(Binary32 { bits: 0 }),
        n_orbs,
    )
}

/// Whether these are the words of a frame.
pub open spec fn is_frame(
    clusters: Seq<Cluster>,
    opts: AnimateOptions,
    width: u32,
    height: u32,
    n_orbs: nat,
    t: Binary32,
    field: bool,
    pack: Seq<Binary32>,
) -> bool {
    exists|at: Seq<Cluster>|
        #[trigger] colored_at(clusters, opts, t, at) && pack == frame_words(
            at,
            opts,
            width,
            height,
            n_orbs,
            t,
            field,
        )
}

fn pack_frame(
    clusters: &[Cluster],
    opts: &AnimateOptions,
    width: u32,
    height: u32,
    n_orbs: usize,
    t: Binary32,
    field: bool,
) -> (r: Vec<Binary32>)
    ensures
        is_frame(clusters@, *opts, width, height, n_orbs as nat, t, field, r@),
        r@.len() == 16 + 16 * n_orbs,
{
    let zero = Binary32 { bits: 0 };
    let one = Binary32 { bits: ONE };
    let at = apply_color_tracks_at_t(clusters, opts, t);
    let direction = direction_id(opts.direction);
    let drift = keyframe_cross_drift(opts, t, direction, at.len());
    let drift_slice: Option<&[Binary32]> = match &drift {
        Some(d) => Some(d.as_slice()),
        None => None,
    };
    proof {
        if drift is Some {
            assert(drifts_at(*opts, t, at@.len()) is Some);
            assert(drift->0@ =~= drifts_at(*opts, t, at@.len())->0);
        }
        assert(match drift_slice {
            Some(d) => Some(d@),
            None => None,
        } == drifts_at(*opts, t, at@.len()));
    }
    let mut pack = pack_render_data(
        at.as_slice(),
        opts.background,
        base_radius_unit(width, height, opts.orb_size),
        opts.blur.add(opts.softness.blur_offset()).clamp(zero, one),
        direction,
        Binary32::from_u64(opts.speed.cycle_count() as u64),
        opts.seed,
        n_orbs,
        opts.softness.alpha_mul().clamp(zero, one),
        if field {
            one
        } else {
            zero
        },
        !field || opts.glyph_rotate,
        opts.softness.edge_softness(),
        opts.shadow_strength,
        drift_slice,
    );
    apply_saturation_to_pack(&mut pack, opts.saturation.max(zero), n_orbs);
    proof {
        assert(colored_at(clusters@, *opts, t, at@));
        assert(pack@ == frame_words(at@, *opts, width, height, n_orbs as nat, t, field));
    }
    pack
}

/// Packs a frame of discs.
pub fn pack_orb_frame(clusters: &[Cluster], opts: &AnimateOptions, width: u32, height: u32, t: Binary32) -> (r:
    Vec<Binary32>)
    ensures
        is_frame(
            clusters@,
            *opts,
            width,
            height,
            orb_count(clusters@.len(), opts.count),
            t,
            false,
            r@,
        ),
        r@.len() == 16 + 16 * orb_count(clusters@.len(), opts.count),
{
    let n = resolved_orb_count(clusters, opts);
    pack_frame(clusters, opts, width, height, n, t, false)
}

/// Packs a frame of distance fields; one of no orbs shows the background alone.
pub fn pack_sdf_frame(
    clusters: &[Cluster],
    opts: &AnimateOptions,
    width: u32,
    height: u32,
    n_orbs: usize,
    t: Binary32,
) -> (r: Vec<Binary32>)
    ensures
        is_frame(clusters@, *opts, width, height, n_orbs as nat, t, true, r@),
        r@.len() == 16 + 16 * n_orbs,
{
    pack_frame(clusters, opts, width, height, n_orbs, t, true)
}

/// What the shader knows of the whole frame.
#[derive(Clone, Copy, Debug, PartialEq, Eq)]
pub struct Params {
    pub resolution: [Binary32; 2],
    pub t: Binary32,
    pub base_radius: Binary32,
    pub bg: [Binary32; 4],
    pub base_blur: Binary32,
    pub direction: Binary32,
    pub cycle: Binary32,
    pub n_orbs: Binary32,
    pub alpha_mul: Binary32,
    pub glyph_rotate: Binary32,
    pub edge_softness: Binary32,
    pub sdf_size: Binary32,
    pub shadow_strength: Binary32,
    pub aqua_bleed: Binary32,
    pub aqua_bloom: Binary32,
    pub aqua_offset: Binary32,
    pub aqua_halo: Binary32,
}

/// What the shader knows of one orb.
#[derive(Clone, Copy, Debug, PartialEq, Eq)]
pub struct GpuOrb {
    /// Red, green, blue and weight.
    pub color: [Binary32; 4],
    /// The phases of the way, the radius, the blur and the opacity.
    pub phase: [Binary32; 4],
    /// The place across the way, the style, the speed and the drift.
    pub misc: [Binary32; 4],
    /// The angle and the speed of turning.
    pub rot: [Binary32; 4],
}

/// How many orbs the header of a pack claims, at most [`MAX_ORB_COUNT`].
pub open spec fn claimed_orbs(pack: Seq<Binary32>) -> nat {
    let n = pack[8].larger(Binary32 { bits: 0 }).as_unsigned(0xffff_ffff);
    if n > MAX_ORB_COUNT {
        MAX_ORB_COUNT as nat
    } else {
        n
    }
}

fn count_orbs(pack: &Vec<Binary32>) -> (r: usize)
    requires
        pack@.len() >= 16,
    ensures
        r == claimed_orbs(pack@),
        r <= MAX_ORB_COUNT,
{
    let n: u32 = pack[8].max(Binary32 { bits: 0 }).to_u32();
    if n as u64 > MAX_ORB_COUNT as u64 {
        MAX_ORB_COUNT
    } else {
        n as usize
    }
}

/// A strength of the watercolour layer: 0 where there is no layer.
pub open spec fn aqua_part(x: Binary32) -> Binary32 {
    x.clamped(Binary32 { bits: 0 }, Binary32 { bits: ONE })
}

/// Whether these are the words of the whole frame.
pub open spec fn params_of(
    pack: Seq<Binary32>,
    width: u32,
    height: u32,
    t: Binary32,
    sdf_size: Option<u32>,
    aqua: Option<AquaBleedConfig>,
    p: Params,
) -> bool {
    let zero = Binary32 { bits: 0 };
    let layer = match aqua {
        Some(a) => a,
        None => AquaBleedConfig { bleed: zero, bloom: zero, offset: zero, halo: zero },
    };
    &&& p.resolution@ == seq![of_int(false, width as nat), of_int(false, height as nat)]
    &&& p.t == t
    &&& p.base_radius == pack[4]
    &&& p.bg@ == pack.take(4)
    &&& p.base_blur == pack[5]
    &&& p.direction == pack[6]
    &&& p.cycle == pack[7]
    &&& p.n_orbs == of_int(false, claimed_orbs(pack))
    &&& p.alpha_mul == pack[9]
    &&& p.glyph_rotate == pack[11]
    &&& p.edge_softness == pack[12]
    &&& p.sdf_size == match sdf_size {
        Some(s) => of_int(false, s as nat),
        None => zero,
    }
    &&& p.shadow_strength == pack[13]
    &&& p.aqua_bleed == aqua_part(layer.bleed)
    &&& p.aqua_bloom == aqua_part(layer.bloom)
    &&& p.aqua_offset == aqua_part(layer.offset)
    &&& p.aqua_halo == aqua_part(layer.halo)
}

/// What the shader knows of the whole frame, out of a pack.
pub fn frame_params(
    pack: &Vec<Binary32>,
    width: u32,
    height: u32,
    t: Binary32,
    sdf_size: Option<u32>,
    aqua: Option<AquaBleedConfig>,
) -> (r: Params)
    requires
        pack@.len() >= 16,
    ensures
        params_of(pack@, width, height, t, sdf_size, aqua, r),
{
    let zero = Binary32 { bits: 0 };
    let one = Binary32 { bits: ONE };
    let layer = match aqua {
        Some(a) => a,
        None => AquaBleedConfig { bleed: zero, bloom: zero, offset: zero, halo: zero },
    };
    let n: usize = count_orbs(pack);
    let r = Params {
        resolution: [Binary32::from_u64(width as u64), Binary32::from_u64(height as u64)],
        t,
        base_radius: pack[4],
        bg: [pack[0], pack[1], pack[2], pack[3]],
        base_blur: pack[5],
        direction: pack[6],
        cycle: pack[7],
        n_orbs: Binary32::from_u64(n as u64),
        alpha_mul: pack[9],
        glyph_rotate: pack[11],
        edge_softness: pack[12],
        sdf_size: match sdf_size {
            Some(s) => Binary32::from_u64(s as u64),
            None => zero,
        },
        shadow_strength: pack[13],
        aqua_bleed: layer.bleed.clamp(zero, one),
        aqua_bloom: layer.bloom.clamp(zero, one),
        aqua_offset: layer.offset.clamp(zero, one),
        aqua_halo: layer.halo.clamp(zero, one),
    };
    proof {
        assert(r.bg@ =~= pack@.take(4));
        assert(r.resolution@ =~= seq![of_int(false, width as nat), of_int(false, height as nat)]);
    }
    r
}

impl Params {
    pub open spec fn word_seq(self) -> Seq<u32> {
        seq![
            self.resolution[0].bits,
            self.resolution[1].bits,
            self.t.bits,
            self.base_radius.bits,
            self.bg[0].bits,
            self.bg[1].bits,
            self.bg[2].bits,
            self.bg[3].bits,
            self.base_blur.bits,
            self.direction.bits,
            self.cycle.bits,
            self.n_orbs.bits,
            self.alpha_mul.bits,
            self.glyph_rotate.bits,
            self.edge_softness.bits,
            self.sdf_size.bits,
            self.shadow_strength.bits,
            self.aqua_bleed.bits,
            self.aqua_bloom.bits,
            self.aqua_offset.bits,
            self.aqua_halo.bits,
            0,
            0,
            0,
        ]
    }

    /// The words of the uniform buffer, filled up to whole rows of four.
    pub fn words(&self) -> (r: [u32; 24])
        ensures
            r@ == self.word_seq(),
    {
        let r = [
            self.resolution[0].bits,
            self.resolution[1].bits,
            self.t.bits,
            self.base_radius.bits,
            self.bg[0].bits,
            self.bg[1].bits,
            self.bg[2].bits,
            self.bg[3].bits,
            self.base_blur.bits,
            self.direction.bits,
            self.cycle.bits,
            self.n_orbs.bits,
            self.alpha_mul.bits,
            self.glyph_rotate.bits,
            self.edge_softness.bits,
            self.sdf_size.bits,
            self.shadow_strength.bits,
            self.aqua_bleed.bits,
            self.aqua_bloom.bits,
            self.aqua_offset.bits,
            self.aqua_halo.bits,
            0,
            0,
            0,
        ];
        assert(r@ =~= self.word_seq());
        r
    }
}

/// Whether a number of words is the `i`-th orb of a pack. A row that the pack does not hold
/// is zero.
pub open spec fn orb_of(pack: Seq<Binary32>, i: int, o: GpuOrb) -> bool {
    let zero = Binary32 { bits: 0 };
    let zeros = seq![zero, zero, zero, zero];
    let off = 16 + 16 * i;
    if off + 13 > pack.len() {
        o.color@ == zeros && o.phase@ == zeros && o.misc@ == zeros && o.rot@ == zeros
    } else {
        &&& o.color@ == pack.subrange(off, off + 4)
        &&& o.phase@ == pack.subrange(off + 4, off + 8)
        &&& o.misc@ == pack.subrange(off + 8, off + 11).push(
            if off + 13 < pack.len() {
                pack[off + 13]
            } else {
                zero
            },
        )
        &&& o.rot@ == seq![pack[off + 11], pack[off + 12], zero, zero]
    }
}

/// The rows of the orb texture: as many as the header claims, one at least.
pub fn frame_orbs(pack: &Vec<Binary32>) -> (r: Vec<GpuOrb>)
    requires
        pack@.len() >= 16,
    ensures
        r@.len() == if claimed_orbs(pack@) == 0 {
            1
        } else {
            claimed_orbs(pack@)
        },
        claimed_orbs(pack@) > 0 ==> forall|i: int|
            0 <= i < r@.len() ==> orb_of(pack@, i, #[trigger] r@[i]),
        claimed_orbs(pack@) == 0 ==> orb_of(Seq::empty(), 0, r@[0]),
{
    let n: usize = count_orbs(pack);
    let len: usize = pack.len();
    let zero = Binary32 { bits: 0 };
    let mut r: Vec<GpuOrb> = Vec::new();
    let mut i: usize = 0;
    while i < n
        invariant
            i <= n <= MAX_ORB_COUNT,
            len == pack@.len(),
            zero.bits == 0,
            r@.len() == i,
            forall|j: int| 0 <= j < i ==> orb_of(pack@, j, #[trigger] r@[j]),
        decreases n - i,
    {
        let off: usize = 16 + 16 * i;
        let o = if off + 13 > len {
            blank_orb()
        } else {
            GpuOrb {
                color: [pack[off], pack[off + 1], pack[off + 2], pack[off + 3]],
                phase: [pack[off + 4], pack[off + 5], pack[off + 6], pack[off + 7]],
                misc: [
                    pack[off + 8],
                    pack[off + 9],
                    pack[off + 10],
                    if off + 13 < len {
                        pack[off + 13]
                    } else {
                        zero
                    },
                ],
                rot: [pack[off + 11], pack[off + 12], zero, zero],
            }
        };
        proof {
            if off + 13 <= len {
                assert(o.color@ =~= pack@.subrange(off as int, off + 4));
                assert(o.phase@ =~= pack@.subrange(off + 4, off + 8));
                assert(o.misc@ =~= pack@.subrange(off + 8, off + 11).push(o.misc@[3]));
                assert(o.rot@ =~= seq![pack@[off + 11], pack@[off + 12], zero, zero]);
            }
            assert(orb_of(pack@, i as int, o));
        }
        r.push(o);
        i = i + 1;
    }
    if n == 0 {
        r.push(blank_orb());
    }
    r
}

fn blank_orb() -> (r: GpuOrb)
    ensures
        orb_of(Seq::empty(), 0, r),
{
    let zero = Binary32 { bits: 0 };
    let r = GpuOrb { color: [zero; 4], phase: [zero; 4], misc: [zero; 4], rot: [zero; 4] };
    proof {
        let zeros = seq![zero, zero, zero, zero];
        assert(r.color@ =~= zeros && r.phase@ =~= zeros && r.misc@ =~= zeros && r.rot@ =~= zeros);
    }
    r
}

/// The words of one row of the orb texture.
pub open spec fn orb_row(o: GpuOrb) -> Seq<u32> {
    seq![
        o.color[0].bits,
        o.color[1].bits,
        o.color[2].bits,
        o.color[3].bits,
        o.phase[0].bits,
        o.phase[1].bits,
        o.phase[2].bits,
        o.phase[3].bits,
        o.misc[0].bits,
        o.misc[1].bits,
        o.misc[2].bits,
        o.misc[3].bits,
        o.rot[0].bits,
        o.rot[1].bits,
        o.rot[2].bits,
        o.rot[3].bits,
    ]
}

/// The words of the orb texture.
pub open spec fn orb_rows(orbs: Seq<GpuOrb>) -> Seq<u32>
    decreases orbs.len(),
{
    if orbs.len() == 0 {
        Seq::empty()
    } else {
        orb_rows(orbs.drop_last()) + orb_row(orbs.last())
    }
}

/// The words of the orb texture.
pub fn orb_texture_words(orbs: &Vec<GpuOrb>) -> (r: Vec<u32>)
    ensures
        r@ == orb_rows(orbs@),
{
    let mut r: Vec<u32> = Vec::new();
    let mut i: usize = 0;
    proof {
        assert(orbs@.take(0) =~= Seq::empty());
    }
    while i < orbs.len()
        invariant
            i <= orbs@.len(),
            r@ == orb_rows(orbs@.take(i as int)),
        decreases orbs@.len() - i,
    {
        let o: GpuOrb = orbs[i];
        let ghost before = r@;
        r.push(o.color[0].bits);
        r.push(o.color[1].bits);
        r.push(o.color[2].bits);
        r.push(o.color[3].bits);
        r.push(o.phase[0].bits);
        r.push(o.phase[1].bits);
        r.push(o.phase[2].bits);
        r.push(o.phase[3].bits);
        r.push(o.misc[0].bits);
        r.push(o.misc[1].bits);
        r.push(o.misc[2].bits);
        r.push(o.misc[3].bits);
        r.push(o.rot[0].bits);
        r.push(o.rot[1].bits);
        r.push(o.rot[2].bits);
        r.push(o.rot[3].bits);
        proof {
            assert(r@ =~= before + orb_row(o));
            assert(orbs@.take(i + 1).drop_last() =~= orbs@.take(i as int));
            assert(orbs@.take(i + 1).last() == o);
        }
        i = i + 1;
    }
    proof {
        assert(orbs@.take(orbs@.len() as int) =~= orbs@);
    }
    r
}

/// How many rows the orb texture must have: it grows where a frame needs more, and never
/// shrinks.
pub fn grown_capacity(capacity: u32, rows: u32) -> (r: u32)
    ensures
        r >= capacity,
        r >= rows,
        r == capacity || r == rows,
{
    if capacity < rows {
        rows
    } else {
        capacity
    }
}

/// The FNV-1a hash of bytes.
pub open spec fn fnv(bytes: Seq<u8>) -> u32
    decreases bytes.len(),
{
    if bytes.len() == 0 {
        0x811c_9dc5
    } else {
        (fnv(bytes.drop_last()) ^ bytes.last() as u32).wrapping_mul(0x0100_0193)
    }
}

/// The key of the distance field of a picture.
pub open spec fn image_key(sdf: Seq<u8>) -> u32 {
    (fnv(sdf) & 0x7fff_ffff) | 0x8000_0000
}

/// The key under which the distance field of a picture is kept: by its contents, and
/// beyond every character.
pub fn image_sdf_key(sdf: &[u8]) -> (r: u32)
    ensures
        r == image_key(sdf@),
{
    let mut hash: u32 = 0x811c_9dc5;
    let mut i: usize = 0;
    proof {
        assert(sdf@.take(0) =~= Seq::empty());
    }
    while i < sdf.len()
        invariant
            i <= sdf@.len(),
            hash == fnv(sdf@.take(i as int)),
        decreases sdf.len() - i,
    {
        proof {
            assert(sdf@.take(i + 1).drop_last() =~= sdf@.take(i as int));
            assert(sdf@.take(i + 1).last() == sdf@[i as int]);
        }
        hash = (hash ^ sdf[i] as u32).wrapping_mul(0x0100_0193);
        i = i + 1;
    }
    proof {
        assert(sdf@.take(sdf@.len() as int) =~= sdf@);
    }
    (hash & 0x7fff_ffff) | 0x8000_0000
}

/// The key under which the distance field of a character is kept.
pub fn glyph_sdf_key(ch: char) -> (r: u32)
    ensures
        r == ch as u32,
{
    ch as u32
}

/// No picture is ever kept under the key of a character.
pub proof fn lemma_keys_differ(sdf: Seq<u8>, ch: char)
    ensures
        image_key(sdf) != ch as u32,
{
    let h = fnv(sdf);
    assert((h & 0x7fff_ffff) | 0x8000_0000 >= 0x8000_0000u32) by (bit_vector);
}

/// What is known of one glyph: where it stands in the font, its outline, and the distance
/// fields made of it so far.
#[derive(Clone, Debug)]
pub struct GlyphFields {
    pub frame: Option<GlyphBox>,
    pub steps: Vec<OutlineStep>,
    pub sizes: Vec<u32>,
    pub fields: Vec<Vec<u8>>,
}

/// What a search for a distance field gives.
#[derive(Debug)]
pub enum GlyphLookup {
    /// There is nothing to draw.
    Nothing,
    /// The field and its side.
    Field { sdf: Vec<u8>, size: u32 },
    /// The outline lies beyond what can be filled.
    Beyond,
}

/// Whether a field draws nothing.
pub open spec fn blank(sdf: Seq<u8>) -> bool {
    forall|i: int| 0 <= i < sdf.len() ==> #[trigger] sdf[i] == 0
}

fn is_blank(sdf: &Vec<u8>) -> (r: bool)
    ensures
        r == blank(sdf@),
{
    let mut i: usize = 0;
    while i < sdf.len()
        invariant
            i <= sdf@.len(),
            forall|j: int| 0 <= j < i ==> #[trigger] sdf@[j] == 0,
        decreases sdf@.len() - i,
    {
        if sdf[i] != 0 {
            return false;
        }
        i = i + 1;
    }
    true
}

/// What is found for a radius.
pub open spec fn looked_up(
    frame: Option<GlyphBox>,
    steps: Seq<OutlineStep>,
    radius: Binary32,
    r: GlyphLookup,
) -> bool {
    let side = field_size_for(radius);
    if radius.at_most(Binary32 { bits: 0 }) {
        r is Nothing
    } else if !fillable(frame, steps, side) {
        r is Beyond
    } else {
        let field = sdf_of(glyph_mask(frame, steps, side), side);
        if blank(field) {
            r is Nothing
        } else {
            r matches GlyphLookup::Field { sdf, size } && sdf@ == field && size == side
        }
    }
}

fn copy_bytes(v: &Vec<u8>) -> (r: Vec<u8>)
    ensures
        r@ == v@,
{
    let mut r: Vec<u8> = Vec::new();
    let mut i: usize = 0;
    while i < v.len()
        invariant
            i <= v@.len(),
            r@ == v@.take(i as int),
        decreases v@.len() - i,
    {
        r.push(v[i]);
        i = i + 1;
        proof {
            assert(r@ =~= v@.take(i as int));
        }
    }
    proof {
        assert(v@.take(v@.len() as int) =~= v@);
    }
    r
}

impl GlyphFields {
    pub open spec fn wf(&self) -> bool {
        &&& self.sizes@.len() == self.fields@.len()
        &&& forall|i: int|
            0 <= i < self.sizes@.len() ==> {
                &&& fillable(self.frame, self.steps@, #[trigger] self.sizes@[i])
                &&& self.fields@[i]@ == sdf_of(
                    glyph_mask(self.frame, self.steps@, self.sizes@[i]),
                    self.sizes@[i],
                )
            }
    }

    /// Whether the field for a radius is made and kept.
    pub open spec fn keeps(&self, radius: Binary32) -> bool {
        !radius.at_most(Binary32 { bits: 0 }) && fillable(
            self.frame,
            self.steps@,
            field_size_for(radius),
        )
    }

    /// A character of a font, given the outline of its glyph in font units.
    pub fn new(font: &[u8], ch: char, steps: Vec<OutlineStep>) -> (r: GlyphFields)
        ensures
            r.wf(),
            r.frame == char_box(font@, ch),
            r.steps == steps,
            r.sizes@.len() == 0,
    {
        GlyphFields { frame: glyph_frame(font, ch), steps, sizes: Vec::new(), fields: Vec::new() }
    }

    /// The distance field for an orb of a radius. One that can be made is kept, and one that
    /// was made before is not made again.
    pub fn cached_glyph_sdf_for_radius(&mut self, radius: Binary32) -> (r: GlyphLookup)
        requires
            old(self).wf(),
            radius.at_most(Binary32 { bits: 0 }) || wanted_size(radius) <= 0x8000_0000,
        ensures
            final(self).wf(),
            final(self).frame == old(self).frame,
            final(self).steps == old(self).steps,
            looked_up(old(self).frame, old(self).steps@, radius, r),
            old(self).sizes@.is_prefix_of(final(self).sizes@),
            old(self).sizes@.contains(field_size_for(radius)) ==> final(self).sizes@
                == old(self).sizes@,
            old(self).keeps(radius) ==> final(self).sizes@.contains(field_size_for(radius)),
            !old(self).keeps(radius) ==> *final(self) == *old(self),
    {
        if radius.le(Binary32 { bits: 0 }) {
            return GlyphLookup::Nothing;
        }
        let size: u32 = glyph_sdf_size_for_radius(radius);
        let mut i: usize = 0;
        while i < self.sizes.len()
            invariant
                i <= self.sizes@.len(),
                self.wf(),
                *self == *old(self),
                size == field_size_for(radius),
                !radius.at_most(Binary32 { bits: 0 }),
                forall|j: int| 0 <= j < i ==> #[trigger] self.sizes@[j] != size,
            decreases self.sizes@.len() - i,
        {
            if self.sizes[i] == size {
                assert(fillable(self.frame, self.steps@, self.sizes@[i as int]));
                if is_blank(&self.fields[i]) {
                    return GlyphLookup::Nothing;
                }
                return GlyphLookup::Field { sdf: copy_bytes(&self.fields[i]), size };
            }
            i = i + 1;
        }
        if !can_fill(self.frame, &self.steps, size) {
            return GlyphLookup::Beyond;
        }
        assert(crate::glyph::field_side(size) * crate::glyph::field_side(size) <= 0x10_0000)
            by (nonlinear_arith)
            requires
                0 < crate::glyph::field_side(size) <= 1024,
        ;
        let field = outline_to_sdf(self.frame, &self.steps, size);
        let empty: bool = is_blank(&field);
        let copy = copy_bytes(&field);
        let ghost before = *self;
        self.sizes.push(size);
        self.fields.push(field);
        proof {
            assert(self.sizes@.last() == size);
            assert(self.sizes@.take(before.sizes@.len() as int) =~= before.sizes@);
            assert forall|j: int| 0 <= j < self.sizes@.len() implies fillable(
                self.frame,
                self.steps@,
                #[trigger] self.sizes@[j],
            ) && self.fields@[j]@ == sdf_of(
                glyph_mask(self.frame, self.steps@, self.sizes@[j]),
                self.sizes@[j],
            ) by {
                if j < before.sizes@.len() {
                    assert(fillable(before.frame, before.steps@, before.sizes@[j]));
                }
            }
        }
        if empty {
            GlyphLookup::Nothing
        } else {
            GlyphLookup::Field { sdf: copy, size }
        }
    }
}

/// A frame of distance fields that is ready to be drawn.
#[derive(Debug)]
pub enum SdfFramePack {
    /// The shape is no distance field: draw discs.
    NotSdfShape,
    /// Draw the background alone.
    BackgroundOnly(Vec<Binary32>),
    /// Draw the field, kept under the key.
    Sdf { pack: Vec<Binary32>, key: u32, sdf: Vec<u8>, size: u32 },
}

/// The largest weight of the first `n` clusters, none below 0.
pub open spec fn largest_weight(clusters: Seq<Cluster>, n: nat) -> Binary32
    decreases n,
{
    if n == 0 {
        Binary32 { bits: 0 }
    } else {
        largest_weight(clusters, (n - 1) as nat).larger(
            clusters[n - 1].weight.larger(Binary32 { bits: 0 }),
        )
    }
}

/// The largest radius that an orb of a frame can have.
pub open spec fn largest_radius(
    clusters: Seq<Cluster>,
    width: u32,
    height: u32,
    orb_size: Binary32,
) -> Binary32 {
    radius_unit(width, height, orb_size).times(
        largest_weight(clusters, clusters.len()).root(),
    ).times(Binary32 { bits: BREATH_RADIUS_MAX_FACTOR })
}

/// The largest radius that an orb of a frame can have.
pub fn frame_radius(clusters: &[Cluster], width: u32, height: u32, orb_size: Binary32) -> (r: Binary32)
    ensures
        r == largest_radius(clusters@, width, height, orb_size),
{
    let mut weight = Binary32 { bits: 0 };
    let mut i: usize = 0;
    while i < clusters.len()
        invariant
            i <= clusters@.len(),
            weight == largest_weight(clusters@, i as nat),
        decreases clusters.len() - i,
    {
        weight = weight.max(clusters[i].weight.max(Binary32 { bits: 0 }));
        i = i + 1;
    }
    base_radius_unit(width, height, orb_size).mul(weight.sqrt()).mul(
        Binary32 { bits: BREATH_RADIUS_MAX_FACTOR },
    )
}

/// Whether a frame shows the background alone.
pub open spec fn background_frame(
    clusters: Seq<Cluster>,
    opts: AnimateOptions,
    width: u32,
    height: u32,
    t: Binary32,
    r: SdfFramePack,
) -> bool {
    r matches SdfFramePack::BackgroundOnly(pack) && is_frame(
        clusters,
        opts,
        width,
        height,
        0,
        t,
        true,
        pack@,
    )
}

/// Prepares a frame of a glyph. The field is large enough for the largest orb. Where there
/// is nothing to draw, or the outline lies beyond what can be filled, the background is
/// left alone.
pub fn prepare_glyph_frame(
    fields: &mut GlyphFields,
    clusters: &[Cluster],
    opts: &AnimateOptions,
    width: u32,
    height: u32,
    t: Binary32,
) -> (r: SdfFramePack)
    requires
        old(fields).wf(),
        largest_radius(clusters@, width, height, opts.orb_size).at_most(Binary32 { bits: 0 })
            || wanted_size(largest_radius(clusters@, width, height, opts.orb_size)) <= 0x8000_0000,
    ensures
        final(fields).wf(),
        final(fields).frame == old(fields).frame,
        final(fields).steps == old(fields).steps,
        !(opts.shape is Glyph) ==> r is NotSdfShape && *final(fields) == *old(fields),
        ({
            let radius = largest_radius(clusters@, width, height, opts.orb_size);
            &&& old(fields).sizes@.is_prefix_of(final(fields).sizes@)
            &&& old(fields).sizes@.contains(field_size_for(radius)) ==> final(fields).sizes@
                == old(fields).sizes@
            &&& opts.shape is Glyph && old(fields).keeps(radius) ==>
                final(fields).sizes@.contains(field_size_for(radius))
        }),
        opts.shape matches OrbShape::Glyph { ch, font } ==> exists|found: GlyphLookup|
            {
                &&& #[trigger] looked_up(
                    old(fields).frame,
                    old(fields).steps@,
                    largest_radius(clusters@, width, height, opts.orb_size),
                    found,
                )
                &&& match found {
                    GlyphLookup::Field { sdf: field, size: side } => {
                        &&& r matches SdfFramePack::Sdf { pack, key, sdf, size }
                        &&& is_frame(
                            clusters@,
                            *opts,
                            width,
                            height,
                            orb_count(clusters@.len(), opts.count),
                            t,
                            true,
                            pack@,
                        )
                        &&& key == ch as u32
                        &&& sdf == field
                        &&& size == side
                    },
                    _ => background_frame(clusters@, *opts, width, height, t, r),
                }
            },
{
    let ch: char = match &opts.shape {
        OrbShape::Glyph { ch, .. } => *ch,
        _ => {
            return SdfFramePack::NotSdfShape;
        },
    };
    let radius = frame_radius(clusters, width, height, opts.orb_size);
    let found = fields.cached_glyph_sdf_for_radius(radius);
    let ghost kept = found;
    match found {
        GlyphLookup::Field { sdf, size } => {
            let n = resolved_orb_count(clusters, opts);
            let pack = pack_sdf_frame(clusters, opts, width, height, n, t);
            let r = SdfFramePack::Sdf { pack, key: glyph_sdf_key(ch), sdf, size };
            assert(looked_up(old(fields).frame, old(fields).steps@, radius, kept));
            r
        },
        _ => {
            let pack = pack_sdf_frame(clusters, opts, width, height, 0, t);
            assert(looked_up(old(fields).frame, old(fields).steps@, radius, kept));
            SdfFramePack::BackgroundOnly(pack)
        },
    }
}

/// Whether a picture's distance field can be drawn.
pub open spec fn drawable(sdf: Seq<u8>, size: u32) -> bool {
    size > 0 && sdf.len() >= size * size && !blank(sdf)
}

/// Prepares a frame of a picture's silhouette. A field that is blank or too short leaves
/// the background alone.
pub fn prepare_image_frame(
    clusters: &[Cluster],
    opts: &AnimateOptions,
    width: u32,
    height: u32,
    t: Binary32,
) -> (r: SdfFramePack)
    ensures
        match opts.shape {
            OrbShape::Image { sdf: field, size: side } => if drawable(field@, side) {
                &&& r matches SdfFramePack::Sdf { pack, key, sdf, size }
                &&& is_frame(
                    clusters@,
                    *opts,
                    width,
                    height,
                    orb_count(clusters@.len(), opts.count),
                    t,
                    true,
                    pack@,
                )
                &&& key == image_key(field@)
                &&& sdf@ == field@
                &&& size == side
            } else {
                background_frame(clusters@, *opts, width, height, t, r)
            },
            _ => r is NotSdfShape,
        },
{
    match &opts.shape {
        OrbShape::Image { sdf, size } => {
            let side: u64 = *size as u64;
            proof {
                assert(side * side <= u64::MAX) by (nonlinear_arith)
                    requires
                        side <= 0xffff_ffff,
                ;
            }
            if *size == 0 || (sdf.len() as u64) < side * side || is_blank(sdf) {
                return SdfFramePack::BackgroundOnly(
                    pack_sdf_frame(clusters, opts, width, height, 0, t),
                );
            }
            let n = resolved_orb_count(clusters, opts);
            let pack = pack_sdf_frame(clusters, opts, width, height, n, t);
            SdfFramePack::Sdf {
                pack,
                key: image_sdf_key(sdf.as_slice()),
                sdf: copy_bytes(sdf),
                size: *size,
            }
        },
        _ => SdfFramePack::NotSdfShape,
    }
}

/// The way in which a shape is drawn.
#[derive(Clone, Copy, Debug, PartialEq, Eq, Structural)]
pub enum FramePath {
    /// As discs.
    Orb,
    /// As a glyph.
    Glyph,
    /// As a silhouette.
    Image,
    /// As watercolour.
    Aquarelle,
}

/// The way in which a shape is drawn.
pub fn frame_path(shape: &OrbShape) -> (r: FramePath)
    ensures
        r == match shape {
            OrbShape::Orb => FramePath::Orb,
            OrbShape::Glyph { .. } => FramePath::Glyph,
            OrbShape::Image { .. } => FramePath::Image,
            OrbShape::Aquarelle(_) => FramePath::Aquarelle,
        },
{
    match shape {
        OrbShape::Orb => FramePath::Orb,
        OrbShape::Glyph { .. } => FramePath::Glyph,
        OrbShape::Image { .. } => FramePath::Image,
        OrbShape::Aquarelle(_) => FramePath::Aquarelle,
    }
}

/// The options with which a watercolour shape is drawn: discs under a layer of its
/// strengths, one for each cluster.
pub open spec fn watercolor(opts: AnimateOptions) -> AnimateOptions {
    match opts.shape {
        OrbShape::Aquarelle(p) => AnimateOptions {
            aqua: Some(
                AquaBleedConfig {
                    bleed: p.bleed,
                    bloom: p.bloom,
                    offset: p.offset,
                    halo: p.halo,
                },
            ),
            count: None,
            ..opts
        },
        _ => opts,
    }
}

/// The options with which a watercolour shape is drawn. Those of another shape stay.
pub fn watercolor_options(opts: AnimateOptions) -> (r: AnimateOptions)
    ensures
        r == watercolor(opts),
{
    let mut r = opts;
    if let OrbShape::Aquarelle(p) = &r.shape {
        let layer = AquaBleedConfig { bleed: p.bleed, bloom: p.bloom, offset: p.offset, halo: p.halo };
        r.aqua = Some(layer);
        r.count = None;
    }
    r
}

/// Without tracks the words of a frame do not depend on the time: all frames of a clip
/// hold the same orbs, and only the shader moves them.
pub proof fn lemma_frames_without_tracks(
    clusters: Seq<Cluster>,
    opts: AnimateOptions,
    width: u32,
    height: u32,
    n_orbs: nat,
    field: bool,
    t1: Binary32,
    t2: Binary32,
    pack1: Seq<Binary32>,
    pack2: Seq<Binary32>,
)
    requires
        opts.color_tracks is None,
        opts.keyframe_tracks is None,
        is_frame(clusters, opts, width, height, n_orbs, t1, field, pack1),
        is_frame(clusters, opts, width, height, n_orbs, t2, field, pack2),
    ensures
        pack1 == pack2,
{
    let at1 = choose|at: Seq<Cluster>|
        #[trigger] colored_at(clusters, opts, t1, at) && pack1 == frame_words(
            at,
            opts,
            width,
            height,
            n_orbs,
            t1,
            field,
        );
    let at2 = choose|at: Seq<Cluster>|
        #[trigger] colored_at(clusters, opts, t2, at) && pack2 == frame_words(
            at,
            opts,
            width,
            height,
            n_orbs,
            t2,
            field,
        );
    assert forall|i: int| 0 <= i < at1.len() implies at1[i] == at2[i] by {
        assert(at1[i].color@ == clusters[i].color@);
        assert(at2[i].color@ == clusters[i].color@);
        assert(at1[i].color =~= at2[i].color);
    }
    assert(at1 =~= at2);
}

/// A watercolour layer of strength 0 is the same to the shader as none.
pub proof fn lemma_no_aqua(
    pack: Seq<Binary32>,
    width: u32,
    height: u32,
    t: Binary32,
    sdf_size: Option<u32>,
    layer: AquaBleedConfig,
    p: Params,
)
    requires
        layer.bleed.bits == 0,
        layer.bloom.bits == 0,
        layer.offset.bits == 0,
        layer.halo.bits == 0,
    ensures
        params_of(pack, width, height, t, sdf_size, Some(layer), p) == params_of(
            pack,
            width,
            height,
            t,
            sdf_size,
            None,
            p,
        ),
{
}

/// The byte of a channel comes back from its word.
pub proof fn lemma_channel_comes_back(c: u8)
    ensures
        word_byte(channel_number(c)) == c,
{
    let big = Binary32 { bits: 0x437f_0000 };
    let whole = of_int(false, 255);
    crate::integers::lemma_of_int_exact(false, 255);
    vstd::arithmetic::power2::lemma2_to64();
    vstd::arithmetic::power2::lemma_pow2_adds(16, 133);
    assert(big.units() == 0xff_0000 * vstd::arithmetic::power2::pow2(133));
    assert(big.units() == whole.units());
    if big.mag() < whole.mag() {
        crate::binary32_laws::lemma_mag_units_increases(big.mag(), whole.mag());
    }
    if whole.mag() < big.mag() {
        crate::binary32_laws::lemma_mag_units_increases(whole.mag(), big.mag());
    }
    assert(big == whole);
    crate::scaling::lemma_fraction_round_trip(c as u32, 255);
    crate::integers::lemma_of_int_exact(false, c as nat);
}

/// A saturation factor of 1 leaves every pack as it was packed.
pub proof fn lemma_saturation_one(
    clusters: Seq<Cluster>,
    h: PackHeader,
    seed: u64,
    n: nat,
    drift: Option<Seq<Binary32>>,
)
    ensures
        saturated_pack(packed(clusters, h, seed, n, drift), Binary32 { bits: ONE }, n) == packed(
            clusters,
            h,
            seed,
            n,
            drift,
        ),
{
    let pack = packed(clusters, h, seed, n, drift);
    let words = crate::animate::all_orb_words(clusters, seed, drift, n);
    let header = crate::animate::header_words(h, n);
    let one = Binary32 { bits: ONE };
    assert(header.len() == 16);
    assert(pack =~= header + words);
    assert forall|j: int| 0 <= j < pack.len() implies saturated_pack(pack, one, n)[j] == pack[j] by {
        let i = (j - 16) / 16;
        if 16 <= j && i < n {
            lemma_orb_color(clusters, seed, drift, n, i);
            lemma_unsaturated_orb(header, words, n, i, (j - 16) % 16);
        }
    }
    assert(saturated_pack(pack, one, n) =~= pack);
}

/// Whether the colour of the `i`-th orb is that of bytes.
spec fn color_of_bytes(words: Seq<Binary32>, i: int) -> bool {
    exists|b0: u8, b1: u8, b2: u8|
        {
            &&& words[16 * i] == #[trigger] channel_number(b0)
            &&& words[16 * i + 1] == #[trigger] channel_number(b1)
            &&& words[16 * i + 2] == #[trigger] channel_number(b2)
        }
}

/// A saturation factor of 1 leaves the words of an orb.
proof fn lemma_unsaturated_orb(
    header: Seq<Binary32>,
    words: Seq<Binary32>,
    n: nat,
    i: int,
    k: int,
)
    requires
        header.len() == 16,
        words.len() == 16 * n,
        0 <= i < n,
        0 <= k < 16,
        color_of_bytes(words, i),
    ensures
        saturated_pack(header + words, Binary32 { bits: ONE }, n)[16 + 16 * i + k] == (header
            + words)[16 + 16 * i + k],
{
    let pack = header + words;
    let j = 16 + 16 * i + k;
    assert((j - 16) / 16 == i && (j - 16) % 16 == k);
    if k < 3 {
        let (b0, b1, b2) = choose|b0: u8, b1: u8, b2: u8|
            {
                &&& words[16 * i] == #[trigger] channel_number(b0)
                &&& words[16 * i + 1] == #[trigger] channel_number(b1)
                &&& words[16 * i + 2] == #[trigger] channel_number(b2)
            };
        lemma_unsaturated_word(pack, n, i, k, b0, b1, b2);
    }
}

/// A saturation factor of 1 leaves the word of a byte.
proof fn lemma_unsaturated_word(
    pack: Seq<Binary32>,
    n: nat,
    i: int,
    k: int,
    b0: u8,
    b1: u8,
    b2: u8,
)
    requires
        0 <= i < n,
        0 <= k < 3,
        16 + 16 * i + 3 <= pack.len(),
        pack[16 + 16 * i] == channel_number(b0),
        pack[16 + 16 * i + 1] == channel_number(b1),
        pack[16 + 16 * i + 2] == channel_number(b2),
    ensures
        saturated_pack(pack, Binary32 { bits: ONE }, n)[16 + 16 * i + k] == pack[16 + 16 * i + k],
{
    let one = Binary32 { bits: ONE };
    let j = 16 + 16 * i + k;
    let color = orb_color(pack, i);
    assert((j - 16) / 16 == i && (j - 16) % 16 == k);
    assert(color@[0] == b0) by {
        lemma_channel_comes_back(b0);
    }
    assert(color@[1] == b1) by {
        lemma_channel_comes_back(b1);
    }
    assert(color@[2] == b2) by {
        lemma_channel_comes_back(b2);
    }
    lemma_saturated_by_one(color);
    assert(saturated_pack(pack, one, n)[j] == channel_number(saturated(color, one)[k]));
}

/// A saturation factor of 1 leaves a colour.
pub(crate) proof fn lemma_saturated_by_one(rgb: [u8; 3])
    ensures
        saturated(rgb, Binary32 { bits: ONE }) == rgb@,
{
    crate::binary32_laws::lemma_minus_self(Binary32 { bits: ONE });
    assert(crate::orb::leaves_saturation(Binary32 { bits: ONE }));
}

proof fn lemma_orb_color(
    clusters: Seq<Cluster>,
    seed: u64,
    drift: Option<Seq<Binary32>>,
    n: nat,
    i: int,
)
    requires
        0 <= i < n,
    ensures
        crate::animate::all_orb_words(clusters, seed, drift, n).len() == 16 * n,
        color_of_bytes(crate::animate::all_orb_words(clusters, seed, drift, n), i),
{
    lemma_orb_channel(clusters, seed, drift, n, i as nat, 0);
    lemma_orb_channel(clusters, seed, drift, n, i as nat, 1);
    lemma_orb_channel(clusters, seed, drift, n, i as nat, 2);
}

/// The words of an orb's colour are those of bytes.
proof fn lemma_orb_channel(
    clusters: Seq<Cluster>,
    seed: u64,
    drift: Option<Seq<Binary32>>,
    n: nat,
    i: nat,
    k: int,
)
    requires
        i < n,
        0 <= k < 3,
    ensures
        crate::animate::all_orb_words(clusters, seed, drift, n).len() == 16 * n,
        exists|b: u8|
            crate::animate::all_orb_words(clusters, seed, drift, n)[16 * i + k]
                == #[trigger] channel_number(b),
    decreases n,
{
    let before = crate::animate::all_orb_words(clusters, seed, drift, (n - 1) as nat);
    if n > 1 {
        lemma_orb_channel(
            clusters,
            seed,
            drift,
            (n - 1) as nat,
            if i < n - 1 {
                i
            } else {
                0
            },
            k,
        );
    }
    let words = crate::animate::all_orb_words(clusters, seed, drift, n);
    assert(before.len() == 16 * (n - 1));
    if clusters.len() == 0 {
        let tail = Seq::new(16, |i: int| Binary32 { bits: 0 });
        assert(words == before + tail);
        if i == n - 1 {
            lemma_zero_channel();
            assert(words[16 * i + k] == tail[k]);
            assert(words[16 * i + k] == channel_number(0));
        }
    } else {
        let p = crate::animate::orb_params(
            seed,
            crate::animate::cluster_weights(clusters),
            (n - 1) as nat,
        );
        let c = clusters[p.cluster_idx as int];
        let tail = crate::animate::orb_words(
            c,
            p,
            crate::animate::drift_of(drift, p.cluster_idx as nat),
        );
        assert(words == before + tail);
        assert(tail.len() == 16);
        if i == n - 1 {
            assert(words[16 * i + k] == tail[k]);
            if k == 0 {
                assert(tail[0] == channel_number(c.color[0]));
            } else if k == 1 {
                assert(tail[1] == channel_number(c.color[1]));
            } else {
                assert(tail[2] == channel_number(c.color[2]));
            }
        }
    }
    if i < n - 1 {
        assert(words[16 * i + k] == before[16 * i + k]);
    }
}

proof fn lemma_zero_channel()
    ensures
        channel_number(0) == (Binary32 { bits: 0 }),
{
    reveal(Binary32::over);
    crate::integers::lemma_of_int_exact(false, 0);
    let big = Binary32 { bits: 0x437f_0000 };
    let zero = of_int(false, 0);
    vstd::arithmetic::power2::lemma_pow2_pos(149);
    assert(0 * vstd::arithmetic::power2::pow2(149) == 0);
    vstd::arithmetic::power2::lemma_pow2_pos(133);
    vstd::arithmetic::power2::lemma2_to64();
    assert(big.units() == 0xff_0000 * vstd::arithmetic::power2::pow2(133));
    crate::binary32::lemma_round32_zero(big.units());
    crate::binary32::lemma_round32_zero(1);
}

} // verus!
