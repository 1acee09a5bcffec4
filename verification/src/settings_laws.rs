//! The settings of a command line reach everything that is rendered.

use crate::animate::{AnimateOptions, MotionDirection, MotionSpeed};
use crate::batch::{batch_frame, BatchInput};
use crate::binary32::{Binary32, ONE};
use crate::cli::{Cli, CliCountPreset};
use crate::gpu::{params_of, watercolor, Params};
use crate::orb::{same_shape, AquarelleParams, OrbShape};
use crate::scene::{variation_rendered, Scene, VariationTask};
use crate::style::SoftnessPreset;
use crate::variations::VariationSpec;
use crate::video::{frame_of, VideoOptions};
use vstd::prelude::*;

verus! {

/// Whether orbs move as a command line asks: to the side and as fast as it names.
pub open spec fn moves_as_asked(cli: Cli, direction: MotionDirection, speed: MotionSpeed) -> bool {
    &&& cli.direction is Lr <==> direction is LeftToRight
    &&& cli.direction is Rl <==> direction is RightToLeft
    &&& cli.direction is Tb <==> direction is TopToBottom
    &&& cli.direction is Bt <==> direction is BottomToTop
    &&& cli.speed is VerySlow <==> speed is VerySlow
    &&& cli.speed is Slow <==> speed is Slow
    &&& cli.speed is Mid <==> speed is Mid
    &&& cli.speed is Fast <==> speed is Fast
}

/// Whether the edges of the orbs are as soft as a command line asks.
pub open spec fn soft_as_asked(cli: Cli, softness: SoftnessPreset) -> bool {
    &&& cli.softness is Low <==> softness is Low
    &&& cli.softness is Mid <==> softness is Mid
    &&& cli.softness is High <==> softness is High
}

/// A still and each frame of a video of the same scene show the same orbs, and those that the
/// command line asks for: of its size, blur, saturation and softness, from its seed, moving its
/// way, in the colours of the scene.
pub proof fn lemma_stills_and_videos_are_alike(
    cli: Cli,
    scene: Scene,
    shape: OrbShape,
    still: AnimateOptions,
    video: VideoOptions,
    frame: AnimateOptions,
)
    requires
        cli.still_of(scene, shape, still),
        cli.video_of(scene, shape, video),
        frame_of(video, frame),
    ensures
        still.orb_size == cli.orb_size && frame.orb_size == cli.orb_size,
        still.blur == cli.blur && frame.blur == cli.blur,
        still.saturation == cli.saturation && frame.saturation == cli.saturation,
        still.seed == cli.seed && frame.seed == cli.seed,
        still.count == frame.count,
        cli.count_preset is None ==> still.count == Some(cli.count),
        cli.count_preset is Some ==> still.count is Some,
        still.background == scene.background && frame.background == scene.background,
        still.shape == shape && frame.shape == shape,
        still.color_tracks == scene.color_tracks && frame.color_tracks == scene.color_tracks,
        still.keyframe_tracks == scene.keyframe_tracks && frame.keyframe_tracks
            == scene.keyframe_tracks,
        moves_as_asked(cli, still.direction, still.speed),
        moves_as_asked(cli, frame.direction, frame.speed),
        soft_as_asked(cli, still.softness),
        soft_as_asked(cli, frame.softness),
        still.aqua is None && frame.aqua is None,
        still.glyph_rotate && frame.glyph_rotate,
        still.shadow_strength == frame.shadow_strength,
        (still.width, still.height) == (1080u32, 1920u32),
{
}

/// A style document shows the orbs of a still.
pub proof fn lemma_styles_and_stills_are_alike(
    cli: Cli,
    scene: Scene,
    shape: OrbShape,
    still: AnimateOptions,
)
    requires
        cli.still_of(scene, shape, still),
    ensures
        ({
            let style = cli.style_of(scene.background);
            &&& style.orb_size == still.orb_size
            &&& style.blur == still.blur
            &&& style.saturation == still.saturation
            &&& style.background == still.background
            &&& style.softness == still.softness
        }),
{
}

/// More orbs are asked for by a higher preset, each time as many more, and the preset wins
/// over the number.
pub proof fn lemma_presets_rise(low: Cli, mid: Cli, high: Cli)
    requires
        low.count_preset == Some(CliCountPreset::Low),
        mid.count_preset == Some(CliCountPreset::Mid),
        high.count_preset == Some(CliCountPreset::High),
    ensures
        0 < low.orbs() < mid.orbs() < high.orbs(),
        low.orbs() + high.orbs() == 2 * mid.orbs(),
        high.orbs() == 3 * low.orbs(),
{
}

/// A variation is rendered with its own settings in the colours of its picture: a still where
/// it is one, and else a video of its length.
pub proof fn lemma_variation_keeps_its_settings(
    spec: VariationSpec,
    background: [u8; 4],
    shape: OrbShape,
    softness: SoftnessPreset,
    task: VariationTask,
)
    requires
        variation_rendered(spec, background, shape, softness, task),
    ensures
        task is Still <==> spec.kind is Png,
        task matches VariationTask::Still { options: o } ==> {
            &&& o.orb_size == spec.orb_size
            &&& o.blur == spec.blur
            &&& o.saturation == (Binary32 { bits: ONE })
            &&& o.direction == spec.direction
            &&& o.speed == spec.speed
            &&& o.seed == spec.seed
            &&& o.count == Some(spec.count)
            &&& o.background == background
            &&& same_shape(o.shape, shape)
            &&& o.softness == softness
            &&& o.color_tracks is None && o.keyframe_tracks is None && o.aqua is None
            &&& (o.width, o.height) == (1080u32, 1920u32)
        },
        task matches VariationTask::Video { options: o, duration_ms: d, codec: c } ==> {
            &&& o.orb_size == spec.orb_size
            &&& o.blur == spec.blur
            &&& o.saturation == (Binary32 { bits: ONE })
            &&& o.direction == spec.direction
            &&& o.speed == spec.speed
            &&& o.seed == spec.seed
            &&& o.count == Some(spec.count)
            &&& o.background == background
            &&& same_shape(o.shape, shape)
            &&& o.softness == softness
            &&& o.color_tracks is None && o.keyframe_tracks is None
            &&& d == spec.duration_ms
            &&& c is H264
        },
{
}

/// A still of a batch has the settings of its variation, the size and shape of the batch, and
/// the colours of the picture.
pub proof fn lemma_batch_still_keeps_its_settings(
    input: BatchInput,
    background: [u8; 4],
    spec: VariationSpec,
    o: AnimateOptions,
)
    requires
        batch_frame(input, background, spec, o),
    ensures
        (o.width, o.height) == (input.width, input.height),
        o.orb_size == spec.orb_size,
        o.blur == spec.blur,
        o.saturation == (Binary32 { bits: ONE }),
        o.direction == spec.direction,
        o.speed == spec.speed,
        o.seed == spec.seed,
        o.count == Some(spec.count),
        o.background == background,
        same_shape(o.shape, input.shape),
        o.softness == SoftnessPreset::Mid,
        o.color_tracks is None && o.keyframe_tracks is None && o.aqua is None,
{
}

/// The strengths of a watercolour reach the shader, each in its own word, no further than 0 to
/// 1, whatever pack and size they come with. The rest of the options stays, but for the number
/// of orbs, which are then one for each cluster.
pub proof fn lemma_watercolour_reaches_the_shader(
    opts: AnimateOptions,
    strengths: AquarelleParams,
    pack: Seq<Binary32>,
    width: u32,
    height: u32,
    t: Binary32,
    p: Params,
)
    requires
        opts.shape == OrbShape::Aquarelle(strengths),
        params_of(pack, width, height, t, None, watercolor(opts).aqua, p),
    ensures
        p.word_seq()[17] == strengths.bleed.clamped(
            Binary32 { bits: 0 },
            Binary32 { bits: ONE },
        ).bits,
        p.word_seq()[18] == strengths.bloom.clamped(
            Binary32 { bits: 0 },
            Binary32 { bits: ONE },
        ).bits,
        p.word_seq()[19] == strengths.offset.clamped(
            Binary32 { bits: 0 },
            Binary32 { bits: ONE },
        ).bits,
        p.word_seq()[20] == strengths.halo.clamped(
            Binary32 { bits: 0 },
            Binary32 { bits: ONE },
        ).bits,
        watercolor(opts).count is None,
        ({
            let o = watercolor(opts);
            &&& (o.width, o.height) == (opts.width, opts.height)
            &&& o.orb_size == opts.orb_size && o.blur == opts.blur
            &&& o.saturation == opts.saturation && o.softness == opts.softness
            &&& o.direction == opts.direction && o.speed == opts.speed
            &&& o.seed == opts.seed && o.background == opts.background
            &&& o.glyph_rotate == opts.glyph_rotate
            &&& o.shadow_strength == opts.shadow_strength
            &&& o.color_tracks == opts.color_tracks
            &&& o.keyframe_tracks == opts.keyframe_tracks
        }),
{
}

/// A command line gives a watercolour the strengths that it names.
pub proof fn lemma_strengths_are_those_named(cli: Cli)
    ensures
        cli.params().bleed == cli.aquarelle_bleed,
        cli.params().bloom == cli.aquarelle_bloom,
        cli.params().offset == cli.aquarelle_offset,
        cli.params().halo == cli.aquarelle_halo,
{
}

} // verus!
