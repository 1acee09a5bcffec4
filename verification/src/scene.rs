//! From the input to what is rendered: the background, the orbs' clusters with their
//! tracks, and the options of every output.

use crate::animate::{AnimateOptions, MotionDirection, MotionSpeed, SHADOW_STRENGTH_DEFAULT};
use crate::binary32::{mag_units, Binary32, ONE};
use crate::cli::{Cli, CliVariationMode};
use crate::cluster::{
    cluster_within, clusters_within, derive_background_rgba, dominant, dominant_index, drop_dominant,
    extract_clusters, extracted, lemma_dominant, Cluster, ClusterError,
};
use crate::glyph::{image_rgba_to_sdf, image_sdf, DEFAULT_GLYPH_SDF_SIZE};
use crate::keyframe_track::KeyframeClusterPoint;
use crate::orb::{same_shape, OrbShape, RenderOptions};
use crate::output_mode::OutputMode;
use crate::picture::{RgbPicture, RgbaPicture};
use crate::shares::whole_shared;
use crate::style::{css_text, render_css, render_svg, svg_text, SoftnessPreset, StyleOptions};
use crate::text::{decimal, padded, push_decimal, push_padded};
use crate::variations::{select_specs, selected, views, VariationKind, VariationMode, VariationSpec};
use crate::video::{VideoCodec, VideoOptions};
use crate::video_input::{
    build_color_tracks, build_keyframe_tracks, keyframes_of_samples, tracks_of_samples, ColorTracks,
    KeyframeTracks, VideoInputError, VideoSample,
};
use vstd::prelude::*;
use vstd::string::*;

verus! {

/// How many clusters a picture or video is reduced to.
pub const KMEANS_K: usize = 6;

/// How many clusters a picture is reduced to for its variations.
pub const VARIATIONS_KMEANS_K: usize = 5;

/// How many samples of a video give its colours.
pub const VIDEO_INPUT_N_SAMPLES: usize = 20;

/// What is rendered.
#[derive(Clone, Debug)]
pub struct Scene {
    pub background: [u8; 4],
    /// The clusters that the orbs take their colours from.
    pub clusters: Vec<Cluster>,
    /// The colours of each of them over time.
    pub color_tracks: Option<Vec<Vec<[u8; 3]>>>,
    /// The keyframes of each of them.
    pub keyframe_tracks: Option<Vec<Vec<KeyframeClusterPoint>>>,
}

/// The background of clusters: the colour of the heaviest, opaque; black without any.
pub open spec fn background_of(clusters: Seq<Cluster>) -> Seq<u8> {
    if clusters.len() == 0 {
        seq![0u8, 0, 0, 255]
    } else {
        clusters[dominant(clusters, clusters.len()) as int].color@.push(255)
    }
}

/// A list without what stands at the place of the heaviest cluster.
pub open spec fn without_dominant<T>(clusters: Seq<Cluster>, list: Seq<T>) -> Seq<T> {
    if clusters.len() == 0 {
        list
    } else {
        list.remove(dominant(clusters, clusters.len()) as int)
    }
}

/// Whether a scene shows clusters: the heaviest is the background, the others the orbs.
pub open spec fn shows(scene: Scene, clusters: Seq<Cluster>) -> bool {
    &&& scene.background@ == background_of(clusters)
    &&& scene.clusters@ == without_dominant(clusters, clusters)
}

/// Takes out of a list of tracks the one of the heaviest cluster.
fn drop_track<T>(clusters: &Vec<Cluster>, tracks: &mut Vec<Vec<T>>)
    requires
        old(tracks)@.len() == clusters@.len(),
    ensures
        final(tracks)@ == without_dominant(clusters@, old(tracks)@),
{
    if let Some(i) = dominant_index(clusters.as_slice()) {
        tracks.remove(i);
    }
}

proof fn lemma_without_dominant_within(clusters: Seq<Cluster>)
    requires
        clusters_within(clusters),
    ensures
        clusters_within(without_dominant(clusters, clusters)),
{
    if clusters.len() > 0 {
        lemma_dominant(clusters, clusters.len(), 0);
        let d = dominant(clusters, clusters.len()) as int;
        let rest = clusters.remove(d);
        assert forall|i: int| 0 <= i < rest.len() implies cluster_within(#[trigger] rest[i]) by {
            if i < d {
                assert(rest[i] == clusters[i]);
            } else {
                assert(rest[i] == clusters[i + 1]);
            }
        }
    }
}

/// A cluster and its track keep standing at the same place when the heaviest cluster is
/// left out.
pub proof fn lemma_tracks_stay_with_their_clusters<T>(
    clusters: Seq<Cluster>,
    tracks: Seq<T>,
    i: int,
)
    requires
        tracks.len() == clusters.len(),
        0 <= i < without_dominant(clusters, clusters).len(),
    ensures
        without_dominant(clusters, tracks).len() == without_dominant(clusters, clusters).len(),
        exists|j: int|
            {
                &&& 0 <= j < clusters.len()
                &&& j != dominant(clusters, clusters.len())
                &&& without_dominant(clusters, clusters)[i] == #[trigger] clusters[j]
                &&& without_dominant(clusters, tracks)[i] == tracks[j]
            },
{
    lemma_dominant(clusters, clusters.len(), 0);
    let d = dominant(clusters, clusters.len()) as int;
    let j = if i < d {
        i
    } else {
        i + 1
    };
    assert(clusters.remove(d)[i] == clusters[j]);
    assert(tracks.remove(d)[i] == tracks[j]);
}

/// The scene of clusters, which do not change over time.
pub fn still_scene(clusters: &Vec<Cluster>) -> (r: Scene)
    ensures
        shows(r, clusters@),
        r.color_tracks is None,
        r.keyframe_tracks is None,
{
    let orbs = drop_dominant(clusters.as_slice());
    proof {
        assert(orbs@ =~= without_dominant(clusters@, clusters@));
    }
    Scene {
        background: derive_background_rgba(clusters.as_slice()),
        clusters: orbs,
        color_tracks: None,
        keyframe_tracks: None,
    }
}

/// The time of the frame that a still shows: the start of the loop.
pub fn still_time() -> (r: Binary32)
    ensures
        r.bits == 0,
        r.value() == 0,
{
    assert(mag_units(0) == 0);
    Binary32 { bits: 0 }
}

/// The scene of a picture, of `k` clusters.
pub fn picture_scene(img: &RgbPicture, k: usize) -> (r: Result<Scene, ClusterError>)
    requires
        img.wf(),
    ensures
        match r {
            Err(ClusterError::KZero) => k == 0,
            Err(ClusterError::EmptyImage) => k > 0 && (img.width == 0 || img.height == 0),
            Ok(scene) => {
                &&& k > 0 && img.width > 0 && img.height > 0
                &&& exists|clusters: Seq<Cluster>|
                    {
                        &&& #[trigger] extracted(img.data@, img.width, img.height, k as nat, clusters)
                        &&& shows(scene, clusters)
                        &&& 1 <= clusters.len() <= k
                        &&& whole_shared(clusters)
                    }
                &&& clusters_within(scene.clusters@)
                &&& scene.color_tracks is None
                &&& scene.keyframe_tracks is None
            },
        },
{
    match extract_clusters(img, k) {
        Err(e) => Err(e),
        Ok(clusters) => {
            let scene = still_scene(&clusters);
            proof {
                lemma_without_dominant_within(clusters@);
                assert(extracted(img.data@, img.width, img.height, k as nat, clusters@));
            }
            Ok(scene)
        },
    }
}

/// Whether a scene is that of colour tracks: clusters and tracks lose the heaviest
/// cluster together.
pub open spec fn colors_shown(scene: Scene, tracks: ColorTracks) -> bool {
    &&& shows(scene, tracks.template_clusters@)
    &&& scene.keyframe_tracks is None
    &&& scene.color_tracks matches Some(t) && t@ == without_dominant(
        tracks.template_clusters@,
        tracks.tracks@,
    )
}

/// The scene of colour tracks.
pub fn color_track_scene(tracks: ColorTracks) -> (r: Scene)
    requires
        tracks.tracks@.len() == tracks.template_clusters@.len(),
    ensures
        colors_shown(r, tracks),
{
    let mut scene = still_scene(&tracks.template_clusters);
    let mut list = tracks.tracks;
    drop_track(&tracks.template_clusters, &mut list);
    scene.color_tracks = Some(list);
    scene
}

/// Whether a scene is that of keyframe tracks: clusters and tracks lose the heaviest
/// cluster together.
pub open spec fn keyframes_shown(scene: Scene, tracks: KeyframeTracks) -> bool {
    &&& shows(scene, tracks.template_clusters@)
    &&& scene.color_tracks is None
    &&& scene.keyframe_tracks matches Some(t) && t@ == without_dominant(
        tracks.template_clusters@,
        tracks.tracks@,
    )
}

/// The scene of keyframe tracks.
pub fn keyframe_scene(tracks: KeyframeTracks) -> (r: Scene)
    requires
        tracks.tracks@.len() == tracks.template_clusters@.len(),
    ensures
        keyframes_shown(r, tracks),
{
    let mut scene = still_scene(&tracks.template_clusters);
    let mut list = tracks.tracks;
    drop_track(&tracks.template_clusters, &mut list);
    scene.keyframe_tracks = Some(list);
    scene
}

/// The scene of the samples of a video whose colours are followed.
pub fn sampled_color_scene(samples: &Vec<VideoSample>) -> (r: Result<Scene, VideoInputError>)
    requires
        forall|s: int| 0 <= s < samples@.len() ==> (#[trigger] samples@[s]).frame.wf(),
    ensures
        if samples@.len() == 0 {
            r == Err::<Scene, VideoInputError>(VideoInputError::NoFramesExtracted)
        } else if samples@[0].frame.width == 0 || samples@[0].frame.height == 0 {
            r matches Err(VideoInputError::DurationProbeFailed { stderr }) && stderr@
                == ClusterError::EmptyImage.text()
        } else {
            r matches Ok(scene) && exists|tracks: ColorTracks|
                #[trigger] tracks_of_samples(samples@, KMEANS_K as nat, tracks) && colors_shown(
                    scene,
                    tracks,
                )
        },
{
    match build_color_tracks(samples, KMEANS_K) {
        Err(e) => Err(e),
        Ok(tracks) => {
            let ghost t = tracks;
            let scene = color_track_scene(tracks);
            assert(tracks_of_samples(samples@, KMEANS_K as nat, t));
            Ok(scene)
        },
    }
}

/// The scene of the samples of a video whose colours, places and weights are followed.
pub fn sampled_keyframe_scene(samples: &Vec<VideoSample>) -> (r: Result<Scene, VideoInputError>)
    requires
        forall|s: int| 0 <= s < samples@.len() ==> (#[trigger] samples@[s]).frame.wf(),
    ensures
        if samples@.len() == 0 {
            r == Err::<Scene, VideoInputError>(VideoInputError::NoFramesExtracted)
        } else if samples@[0].frame.width == 0 || samples@[0].frame.height == 0 {
            r matches Err(VideoInputError::DurationProbeFailed { stderr }) && stderr@
                == ClusterError::EmptyImage.text()
        } else {
            r matches Ok(scene) && exists|tracks: KeyframeTracks|
                #[trigger] keyframes_of_samples(samples@, KMEANS_K as nat, tracks)
                    && keyframes_shown(scene, tracks)
        },
{
    match build_keyframe_tracks(samples, KMEANS_K) {
        Err(e) => Err(e),
        Ok(tracks) => {
            let ghost t = tracks;
            let scene = keyframe_scene(tracks);
            assert(keyframes_of_samples(samples@, KMEANS_K as nat, t));
            Ok(scene)
        },
    }
}

/// What to tell the user where there is nothing to take orbs from.
pub fn warn_if_orb_pool_empty(orbs: &Vec<Cluster>) -> (r: Option<String>)
    ensures
        match r {
            Some(s) => orbs@.len() == 0 && s@
                == "orber: warning: input image yielded only 1 cluster; orb pool is empty (output will be background only)"@,
            None => orbs@.len() > 0,
        },
{
    if orbs.len() == 0 {
        Some(
            String::from_str(
                "orber: warning: input image yielded only 1 cluster; orb pool is empty (output will be background only)",
            ),
        )
    } else {
        None
    }
}

/// What to tell the user of a picture without a silhouette.
pub open spec fn flat_mask_text(path: Seq<char>) -> Seq<char> {
    "--image-mask "@ + path
        + " has no usable silhouette contrast (it is blank or a single flat color); provide an image with a distinct subject vs. background"@
}

/// The shape of the orbs that a picture's silhouette gives.
pub fn image_shape(mask: &RgbaPicture, path: &str) -> (r: Result<OrbShape, String>)
    requires
        mask.wf(),
    ensures
        match image_sdf(mask.data@, mask.width, mask.height, DEFAULT_GLYPH_SDF_SIZE) {
            Some(field) => r matches Ok(OrbShape::Image { sdf, size }) && sdf@ == field && size
                == DEFAULT_GLYPH_SDF_SIZE,
            None => r matches Err(e) && e@ == flat_mask_text(path@),
        },
{
    match image_rgba_to_sdf(mask, DEFAULT_GLYPH_SDF_SIZE) {
        Some(sdf) => Ok(OrbShape::Image { sdf, size: DEFAULT_GLYPH_SDF_SIZE }),
        None => {
            let mut e = String::from_str("--image-mask ");
            e.append(path);
            e.append(
                " has no usable silhouette contrast (it is blank or a single flat color); provide an image with a distinct subject vs. background",
            );
            Err(e)
        },
    }
}

impl Cli {
    /// Whether these are the options of a still of a scene.
    pub open spec fn still_of(self, scene: Scene, shape: OrbShape, o: AnimateOptions) -> bool {
        &&& o.width == 1080
        &&& o.height == 1920
        &&& o.aqua is None
        &&& o.orb_size == self.orb_size
        &&& o.blur == self.blur
        &&& o.saturation == self.saturation
        &&& o.direction == <MotionDirection as vstd::std_specs::convert::FromSpec<
            crate::cli::CliDirection,
        >>::from_spec(self.direction)
        &&& o.speed == <MotionSpeed as vstd::std_specs::convert::FromSpec<
            crate::cli::CliSpeed,
        >>::from_spec(self.speed)
        &&& o.seed == self.seed
        &&& o.count matches Some(n) && n == self.orbs()
        &&& o.background == scene.background
        &&& o.shape == shape
        &&& o.softness == <SoftnessPreset as vstd::std_specs::convert::FromSpec<
            crate::cli::CliSoftness,
        >>::from_spec(self.softness)
        &&& o.glyph_rotate
        &&& o.shadow_strength.bits == SHADOW_STRENGTH_DEFAULT
        &&& o.color_tracks == scene.color_tracks
        &&& o.keyframe_tracks == scene.keyframe_tracks
    }

    /// The options of a still of a scene, and the clusters of its orbs.
    pub fn still_options(&self, scene: Scene, shape: OrbShape) -> (r: (AnimateOptions, Vec<Cluster>))
        ensures
            self.still_of(scene, shape, r.0),
            r.1 == scene.clusters,
    {
        let size = RenderOptions::default();
        let (direction, speed) = self.resolve_motion();
        let o = AnimateOptions {
            width: size.width,
            height: size.height,
            aqua: None,
            orb_size: self.orb_size,
            blur: self.blur,
            saturation: self.saturation,
            direction,
            speed,
            seed: self.seed,
            count: Some(self.resolved_count()),
            background: scene.background,
            shape,
            softness: self.resolved_softness(),
            glyph_rotate: true,
            shadow_strength: Binary32 { bits: SHADOW_STRENGTH_DEFAULT },
            color_tracks: scene.color_tracks,
            keyframe_tracks: scene.keyframe_tracks,
        };
        (o, scene.clusters)
    }

    /// Whether these are the options of a video of a scene.
    pub open spec fn video_of(self, scene: Scene, shape: OrbShape, o: VideoOptions) -> bool {
        &&& o.orb_size == self.orb_size
        &&& o.blur == self.blur
        &&& o.saturation == self.saturation
        &&& o.direction == <MotionDirection as vstd::std_specs::convert::FromSpec<
            crate::cli::CliDirection,
        >>::from_spec(self.direction)
        &&& o.speed == <MotionSpeed as vstd::std_specs::convert::FromSpec<
            crate::cli::CliSpeed,
        >>::from_spec(self.speed)
        &&& o.seed == self.seed
        &&& o.count matches Some(n) && n == self.orbs()
        &&& o.background == scene.background
        &&& o.shape == shape
        &&& o.softness == <SoftnessPreset as vstd::std_specs::convert::FromSpec<
            crate::cli::CliSoftness,
        >>::from_spec(self.softness)
        &&& o.color_tracks == scene.color_tracks
        &&& o.keyframe_tracks == scene.keyframe_tracks
    }

    /// The options of a video of a scene, and the clusters of its orbs.
    pub fn video_options(&self, scene: Scene, shape: OrbShape) -> (r: (VideoOptions, Vec<Cluster>))
        ensures
            self.video_of(scene, shape, r.0),
            r.1 == scene.clusters,
    {
        let (direction, speed) = self.resolve_motion();
        let o = VideoOptions {
            orb_size: self.orb_size,
            blur: self.blur,
            saturation: self.saturation,
            direction,
            speed,
            seed: self.seed,
            count: Some(self.resolved_count()),
            background: scene.background,
            shape,
            softness: self.resolved_softness(),
            color_tracks: scene.color_tracks,
            keyframe_tracks: scene.keyframe_tracks,
        };
        (o, scene.clusters)
    }

    pub open spec fn style_of(self, background: [u8; 4]) -> StyleOptions {
        StyleOptions {
            orb_size: self.orb_size,
            blur: self.blur,
            saturation: self.saturation,
            background,
            softness: <SoftnessPreset as vstd::std_specs::convert::FromSpec<
                crate::cli::CliSoftness,
            >>::from_spec(self.softness),
        }
    }

    /// The style document of a scene whose clusters have finite weights, as one of a
    /// picture has; none where the format is no style.
    pub fn style_document(&self, scene: &Scene, mode: OutputMode) -> (r: Option<String>)
        requires
            clusters_within(scene.clusters@),
        ensures
            match mode {
                OutputMode::Svg => r matches Some(s) && s@ == svg_text(
                    scene.clusters@,
                    self.style_of(scene.background),
                ),
                OutputMode::Css => r matches Some(s) && s@ == css_text(
                    scene.clusters@,
                    self.style_of(scene.background),
                ),
                _ => r is None,
            },
    {
        let opts = StyleOptions {
            orb_size: self.orb_size,
            blur: self.blur,
            saturation: self.saturation,
            background: scene.background,
            softness: self.resolved_softness(),
        };
        match mode {
            OutputMode::Svg => Some(render_svg(scene.clusters.as_slice(), &opts)),
            OutputMode::Css => {
                proof {
                    assert forall|i: int|
                        0 <= i < scene.clusters@.len()
                            && #[trigger] scene.clusters@[i].weight.infinite() implies opts.size_factor().mag()
                        > 0 by {
                        assert(cluster_within(scene.clusters@[i]));
                    }
                }
                Some(render_css(scene.clusters.as_slice(), &opts))
            },
            _ => None,
        }
    }

    /// What is rendered of a video that was read.
    pub fn video_input_output(&self, scene: Scene, shape: OrbShape, mode: OutputMode) -> (r:
        VideoInputOutput)
        ensures
            match mode {
                OutputMode::Mp4 | OutputMode::Webm => {
                    &&& r matches VideoInputOutput::Video { options, clusters, codec }
                    &&& self.video_of(scene, shape, options)
                    &&& clusters == scene.clusters
                    &&& Some(codec) == VideoCodec::of_mode(mode)
                },
                OutputMode::Png => {
                    &&& r matches VideoInputOutput::Still { options, clusters }
                    &&& self.still_of(scene, shape, options)
                    &&& clusters == scene.clusters
                },
                _ => {
                    &&& r matches VideoInputOutput::Refuse { message, code }
                    &&& message@ == "orber: video input + output mode "@ + mode.name_text()
                        + " is not supported (use mp4 / webm / png)"@
                    &&& code == 1
                },
            },
    {
        if let Some(codec) = VideoCodec::from_output_mode(mode) {
            let (options, clusters) = self.video_options(scene, shape);
            return VideoInputOutput::Video { options, clusters, codec };
        }
        match mode {
            OutputMode::Png => {
                let (options, clusters) = self.still_options(scene, shape);
                VideoInputOutput::Still { options, clusters }
            },
            _ => {
                let mut message = String::from_str("orber: video input + output mode ");
                message.append(mode.name());
                message.append(" is not supported (use mp4 / webm / png)");
                VideoInputOutput::Refuse { message, code: 1 }
            },
        }
    }

    /// The folder of the variations.
    pub fn variations_dir(&self) -> (r: Result<String, String>)
        ensures
            match self.output_dir {
                Some(dir) => r matches Ok(d) && d@ == dir@,
                None => r matches Err(e) && e@ == "orber: --variations requires --output-dir DIR"@,
            },
    {
        match &self.output_dir {
            Some(dir) => Ok(String::from_str(dir.as_str())),
            None => Err(String::from_str("orber: --variations requires --output-dir DIR")),
        }
    }
}

/// What is rendered of a video that was read.
#[derive(Debug)]
pub enum VideoInputOutput {
    Video { options: VideoOptions, clusters: Vec<Cluster>, codec: VideoCodec },
    Still { options: AnimateOptions, clusters: Vec<Cluster> },
    /// Nothing: tell the user, and end with the code.
    Refuse { message: String, code: u8 },
}

/// What to tell the user where no variation fits.
pub open spec fn no_variations_text(n: nat, mode: CliVariationMode) -> Seq<char> {
    "orber: no variations matched (requested n="@ + decimal(n) + ", mode="@ + mode.name_text()
        + ")"@
}

/// What to tell the user where fewer variations fit than were wanted.
pub open spec fn few_variations_text(total: nat, n: nat, mode: CliVariationMode) -> Seq<char> {
    "orber: only "@ + decimal(total) + " variation(s) available for mode "@ + mode.name_text()
        + " (requested "@ + decimal(n) + ")"@
}

/// The variations that are wanted, and what to tell the user where they are fewer.
pub fn wanted_variations(n: usize, mode: CliVariationMode) -> (r: Result<
    (Vec<VariationSpec>, Option<String>),
    String,
>)
    ensures
        ({
            let wanted = selected(
                n as nat,
                <VariationMode as vstd::std_specs::convert::FromSpec<CliVariationMode>>::from_spec(
                    mode,
                ),
                10,
            );
            match r {
                Err(e) => wanted.len() == 0 && e@ == no_variations_text(n as nat, mode),
                Ok((specs, notice)) => {
                    &&& wanted.len() > 0
                    &&& views(specs@) == wanted
                    &&& match notice {
                        Some(s) => wanted.len() < n && s@ == few_variations_text(
                            wanted.len(),
                            n as nat,
                            mode,
                        ),
                        None => wanted.len() >= n,
                    }
                },
            }
        }),
{
    let specs = select_specs(n, VariationMode::from(mode));
    proof {
        assert(views(specs@).len() == specs@.len());
    }
    if specs.len() == 0 {
        let mut e = String::from_str("orber: no variations matched (requested n=");
        push_decimal(&mut e, n as u64);
        e.append(", mode=");
        e.append(mode.name());
        e.append(")");
        return Err(e);
    }
    let total: usize = specs.len();
    if total < n {
        let mut s = String::from_str("orber: only ");
        push_decimal(&mut s, total as u64);
        s.append(" variation(s) available for mode ");
        s.append(mode.name());
        s.append(" (requested ");
        push_decimal(&mut s, n as u64);
        s.append(")");
        return Ok((specs, Some(s)));
    }
    Ok((specs, None))
}

/// The file name of the `i`-th variation, counted from 1.
pub open spec fn variation_file_text(i: nat, label: Seq<char>, kind: VariationKind) -> Seq<char> {
    padded(decimal(i), 2) + "_"@ + label + "."@ + kind.extension()
}

/// The file name of the `i`-th variation, counted from 1.
pub fn variation_file(i: usize, spec: &VariationSpec) -> (s: String)
    ensures
        s@ == variation_file_text(i as nat, spec.label@, spec.kind),
{
    let mut s = String::from_str("");
    proof {
        reveal_strlit("");
    }
    push_padded(&mut s, i as u64, 10, 2);
    s.append("_");
    s.append(spec.label.as_str());
    s.append(".");
    s.append(spec.kind.ext());
    proof {
        assert(s@ =~= variation_file_text(i as nat, spec.label@, spec.kind));
    }
    s
}

/// What is rendered of a variation.
#[derive(Debug)]
pub enum VariationTask {
    Still { options: AnimateOptions },
    Video { options: VideoOptions, duration_ms: u64, codec: VideoCodec },
}

/// Whether these are the options of a still of a variation. The saturation stays: all
/// variations of one picture show its colours.
pub open spec fn variation_still(
    spec: VariationSpec,
    background: [u8; 4],
    shape: OrbShape,
    softness: SoftnessPreset,
    o: AnimateOptions,
) -> bool {
    &&& o.width == 1080
    &&& o.height == 1920
    &&& o.aqua is None
    &&& o.orb_size == spec.orb_size
    &&& o.blur == spec.blur
    &&& o.saturation.bits == ONE
    &&& o.direction == spec.direction
    &&& o.speed == spec.speed
    &&& o.seed == spec.seed
    &&& o.count == Some(spec.count)
    &&& o.background == background
    &&& same_shape(o.shape, shape)
    &&& o.softness == softness
    &&& o.glyph_rotate
    &&& o.shadow_strength.bits == SHADOW_STRENGTH_DEFAULT
    &&& o.color_tracks is None
    &&& o.keyframe_tracks is None
}

/// Whether these are the options of a video of a variation.
pub open spec fn variation_video(
    spec: VariationSpec,
    background: [u8; 4],
    shape: OrbShape,
    softness: SoftnessPreset,
    o: VideoOptions,
) -> bool {
    &&& o.orb_size == spec.orb_size
    &&& o.blur == spec.blur
    &&& o.saturation.bits == ONE
    &&& o.direction == spec.direction
    &&& o.speed == spec.speed
    &&& o.seed == spec.seed
    &&& o.count == Some(spec.count)
    &&& o.background == background
    &&& same_shape(o.shape, shape)
    &&& o.softness == softness
    &&& o.color_tracks is None
    &&& o.keyframe_tracks is None
}

/// Whether this is what is rendered of a variation.
pub open spec fn variation_rendered(
    spec: VariationSpec,
    background: [u8; 4],
    shape: OrbShape,
    softness: SoftnessPreset,
    task: VariationTask,
) -> bool {
    match spec.kind {
        VariationKind::Png => task matches VariationTask::Still { options } && variation_still(
            spec,
            background,
            shape,
            softness,
            options,
        ),
        VariationKind::Mp4 => {
            &&& task matches VariationTask::Video { options, duration_ms, codec }
            &&& variation_video(spec, background, shape, softness, options)
            &&& duration_ms == spec.duration_ms
            &&& codec == VideoCodec::H264
        },
    }
}

/// What is rendered of a variation.
pub fn variation_task(
    spec: &VariationSpec,
    background: [u8; 4],
    shape: OrbShape,
    softness: SoftnessPreset,
) -> (r: VariationTask)
    ensures
        variation_rendered(*spec, background, shape, softness, r),
{
    match spec.kind {
        VariationKind::Png => {
            let size = RenderOptions::default();
            VariationTask::Still {
                options: AnimateOptions {
                    width: size.width,
                    height: size.height,
                    aqua: None,
                    orb_size: spec.orb_size,
                    blur: spec.blur,
                    saturation: Binary32 { bits: ONE },
                    direction: spec.direction,
                    speed: spec.speed,
                    seed: spec.seed,
                    count: Some(spec.count),
                    background,
                    shape,
                    softness,
                    glyph_rotate: true,
                    shadow_strength: Binary32 { bits: SHADOW_STRENGTH_DEFAULT },
                    color_tracks: None,
                    keyframe_tracks: None,
                },
            }
        },
        VariationKind::Mp4 => VariationTask::Video {
            options: VideoOptions {
                orb_size: spec.orb_size,
                blur: spec.blur,
                saturation: Binary32 { bits: ONE },
                direction: spec.direction,
                speed: spec.speed,
                seed: spec.seed,
                count: Some(spec.count),
                background,
                shape,
                softness,
                color_tracks: None,
                keyframe_tracks: None,
            },
            duration_ms: spec.duration_ms,
            codec: VideoCodec::H264,
        },
    }
}

} // verus!
