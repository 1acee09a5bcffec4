//! Batches: one picture, one still of it for each of many variations.

use crate::animate::{AnimateOptions, SHADOW_STRENGTH_DEFAULT};
use crate::binary32::{Binary32, ONE};
use crate::cluster::{extracted, Cluster, ClusterError};
use crate::orb::{copy_shape, same_shape, OrbShape};
use crate::picture::{RgbPicture, RgbaPicture};
use crate::scene::{picture_scene, shows, Scene};
use crate::shares::whole_shared;
use crate::style::SoftnessPreset;
use crate::variations::VariationSpec;
use image::codecs::png::PngEncoder;
use image::{ExtendedColorType, ImageEncoder};
use vstd::prelude::*;
use vstd::string::*;

verus! {

/// Why a batch cannot be made.
#[derive(Debug)]
pub enum BatchError {
    /// No clusters could be extracted.
    Cluster(ClusterError),
    /// A still could not be encoded.
    Encode(String),
}

impl BatchError {
    pub open spec fn text(self) -> Seq<char> {
        match self {
            BatchError::Cluster(e) => "cluster extraction failed: "@ + e.text(),
            BatchError::Encode(e) => "PNG encode failed: "@ + e@,
        }
    }

    /// What to tell the user.
    pub fn message(&self) -> (s: String)
        ensures
            s@ == self.text(),
    {
        match self {
            BatchError::Cluster(e) => {
                let detail = e.message();
                String::from_str("cluster extraction failed: ").concat(detail.as_str())
            },
            BatchError::Encode(e) => String::from_str("PNG encode failed: ").concat(e.as_str()),
        }
    }
}

/// What a batch is made of.
#[derive(Debug)]
pub struct BatchInput {
    pub source: RgbPicture,
    /// How many clusters the picture is reduced to.
    pub k: usize,
    /// The size of the stills.
    pub width: u32,
    pub height: u32,
    /// The shape of the orbs of all stills.
    pub shape: OrbShape,
    pub specs: Vec<VariationSpec>,
}

/// The stills of a batch, yet to be rendered at the time 0.
#[derive(Debug)]
pub struct BatchPlan {
    pub clusters: Vec<Cluster>,
    pub frames: Vec<AnimateOptions>,
}

/// Whether these are the options of a still of a batch.
pub open spec fn batch_frame(
    input: BatchInput,
    background: [u8; 4],
    spec: VariationSpec,
    o: AnimateOptions,
) -> bool {
    &&& o.width == input.width
    &&& o.height == input.height
    &&& o.aqua is None
    &&& o.orb_size == spec.orb_size
    &&& o.blur == spec.blur
    &&& o.saturation.bits == ONE
    &&& o.direction == spec.direction
    &&& o.speed == spec.speed
    &&& o.seed == spec.seed
    &&& o.count == Some(spec.count)
    &&& o.background == background
    &&& same_shape(o.shape, input.shape)
    &&& o.softness == SoftnessPreset::Mid
    &&& o.glyph_rotate
    &&& o.shadow_strength.bits == SHADOW_STRENGTH_DEFAULT
    &&& o.color_tracks is None
    &&& o.keyframe_tracks is None
}

/// Plans a batch: one still for each variation, all of the same clusters.
pub fn plan_batch(input: &BatchInput) -> (r: Result<BatchPlan, BatchError>)
    requires
        input.source.wf(),
    ensures
        if input.k == 0 {
            r == Err::<BatchPlan, BatchError>(BatchError::Cluster(ClusterError::KZero))
        } else if input.source.width == 0 || input.source.height == 0 {
            r == Err::<BatchPlan, BatchError>(BatchError::Cluster(ClusterError::EmptyImage))
        } else {
            &&& r matches Ok(plan)
            &&& plan.frames@.len() == input.specs@.len()
            &&& exists|clusters: Seq<Cluster>, scene: Scene|
                {
                    &&& #[trigger] extracted(
                        input.source.data@,
                        input.source.width,
                        input.source.height,
                        input.k as nat,
                        clusters,
                    )
                    &&& #[trigger] shows(scene, clusters)
                    &&& 1 <= clusters.len() <= input.k
                    &&& whole_shared(clusters)
                    &&& plan.clusters@ == scene.clusters@
                    &&& forall|i: int|
                        0 <= i < plan.frames@.len() ==> batch_frame(
                            *input,
                            scene.background,
                            input.specs@[i],
                            #[trigger] plan.frames@[i],
                        )
                }
        },
{
    if input.k == 0 {
        return Err(BatchError::Cluster(ClusterError::KZero));
    }
    let scene = match picture_scene(&input.source, input.k) {
        Err(e) => {
            return Err(BatchError::Cluster(e));
        },
        Ok(s) => s,
    };
    let mut frames: Vec<AnimateOptions> = Vec::new();
    let mut i: usize = 0;
    while i < input.specs.len()
        invariant
            i <= input.specs@.len(),
            frames@.len() == i,
            forall|j: int|
                0 <= j < i ==> batch_frame(
                    *input,
                    scene.background,
                    input.specs@[j],
                    #[trigger] frames@[j],
                ),
        decreases input.specs@.len() - i,
    {
        let spec = &input.specs[i];
        let o = AnimateOptions {
            width: input.width,
            height: input.height,
            aqua: None,
            orb_size: spec.orb_size,
            blur: spec.blur,
            saturation: Binary32 { bits: ONE },
            direction: spec.direction,
            speed: spec.speed,
            seed: spec.seed,
            count: Some(spec.count),
            background: scene.background,
            shape: copy_shape(&input.shape),
            softness: SoftnessPreset::Mid,
            glyph_rotate: true,
            shadow_strength: Binary32 { bits: SHADOW_STRENGTH_DEFAULT },
            color_tracks: None,
            keyframe_tracks: None,
        };
        frames.push(o);
        i = i + 1;
    }
    let ghost shown = scene;
    let plan = BatchPlan { clusters: scene.clusters, frames };
    proof {
        let clusters = choose|clusters: Seq<Cluster>|
            {
                &&& #[trigger] extracted(
                    input.source.data@,
                    input.source.width,
                    input.source.height,
                    input.k as nat,
                    clusters,
                )
                &&& shows(shown, clusters)
            };
        assert(shows(shown, clusters));
    }
    Ok(plan)
}

/// What [`encode_png`] gives for pixels of a size: the bytes of the file, or the text of the
/// error.
pub uninterp spec fn png_outcome(data: Seq<u8>, width: u32, height: u32) -> Result<
    Seq<u8>,
    Seq<char>,
>;

/// What a still comes to as a file.
pub open spec fn still_outcome(still: RgbaPicture) -> Result<Seq<u8>, Seq<char>> {
    png_outcome(still.data@, still.width, still.height)
}

/// The first bytes of every PNG file.
pub open spec fn png_signature() -> Seq<u8> {
    seq![137u8, 80, 78, 71, 13, 10, 26, 10]
}

/// `PngEncoder::write_image` of `image`, with its usual settings, into memory; or the text
/// of its error. The contract claims that the picture alone determines both, that a file
/// begins with the signature of the format, and that a picture without pixels is refused.
#[verifier::external_body]
fn encode_png(img: &RgbaPicture) -> (r: Result<Vec<u8>, String>)
    requires
        img.wf(),
    ensures
        match r {
            Ok(bytes) => {
                &&& png_outcome(img.data@, img.width, img.height) == Ok::<Seq<u8>, Seq<char>>(
                    bytes@,
                )
                &&& img.width > 0 && img.height > 0
                &&& bytes@.len() >= 8
                &&& bytes@.take(8) == png_signature()
            },
            Err(e) => png_outcome(img.data@, img.width, img.height) == Err::<Seq<u8>, Seq<char>>(
                e@,
            ),
        },
{
    let mut buf = Vec::new();
    let encoder = PngEncoder::new(&mut buf);
    match encoder.write_image(&img.data, img.width, img.height, ExtendedColorType::Rgba8) {
        Ok(()) => Ok(buf),
        Err(e) => Err(e.to_string()),
    }
}

/// The files of rendered stills, each a PNG file; or why the first that could not be
/// encoded was not.
pub fn encode_batch(stills: &Vec<RgbaPicture>) -> (r: Result<Vec<Vec<u8>>, BatchError>)
    requires
        forall|i: int| 0 <= i < stills@.len() ==> (#[trigger] stills@[i]).wf(),
    ensures
        match r {
            Ok(files) => {
                &&& files@.len() == stills@.len()
                &&& forall|i: int|
                    0 <= i < files@.len() ==> {
                        &&& still_outcome(stills@[i]) == Ok::<Seq<u8>, Seq<char>>(
                            (#[trigger] files@[i])@,
                        )
                        &&& stills@[i].width > 0 && stills@[i].height > 0
                        &&& files@[i]@.len() >= 8
                        &&& files@[i]@.take(8) == png_signature()
                    }
            },
            Err(BatchError::Encode(e)) => exists|i: int|
                {
                    &&& 0 <= i < stills@.len()
                    &&& still_outcome(#[trigger] stills@[i]) == Err::<Seq<u8>, Seq<char>>(e@)
                    &&& forall|j: int| 0 <= j < i ==> still_outcome(#[trigger] stills@[j]) is Ok
                },
            Err(_) => false,
        },
{
    let mut files: Vec<Vec<u8>> = Vec::new();
    let mut i: usize = 0;
    while i < stills.len()
        invariant
            i <= stills@.len(),
            files@.len() == i,
            forall|j: int| 0 <= j < stills@.len() ==> (#[trigger] stills@[j]).wf(),
            forall|j: int|
                0 <= j < i ==> {
                    &&& still_outcome(stills@[j]) == Ok::<Seq<u8>, Seq<char>>(
                        (#[trigger] files@[j])@,
                    )
                    &&& stills@[j].width > 0 && stills@[j].height > 0
                    &&& files@[j]@.len() >= 8
                    &&& files@[j]@.take(8) == png_signature()
                },
        decreases stills@.len() - i,
    {
        match encode_png(&stills[i]) {
            Ok(bytes) => {
                files.push(bytes);
            },
            Err(e) => {
                proof {
                    assert(still_outcome(stills@[i as int]) == Err::<Seq<u8>, Seq<char>>(e@));
                    assert forall|j: int| 0 <= j < i implies still_outcome(
                        #[trigger] stills@[j],
                    ) is Ok by {
                        assert(files@[j]@.len() >= 8);
                    }
                }
                return Err(BatchError::Encode(e));
            },
        }
        i = i + 1;
    }
    Ok(files)
}

} // verus!
