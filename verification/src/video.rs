//! Videos as output: the frames of a video, their files, and the encoder call.
//!
//! A video is a series of still frames that an encoder joins. What is rendered, under
//! which names, and what an outcome means is decided here; rendering, writing and
//! running the encoder is the caller's part.

use crate::animate::{AnimateOptions, MotionDirection, MotionSpeed, SHADOW_STRENGTH_DEFAULT};
use crate::binary32::{Binary32, ONE};
use crate::integers::of_int;
use crate::keyframe_track::KeyframeClusterPoint;
use crate::orb::OrbShape;
use crate::output_mode::OutputMode;
use crate::style::SoftnessPreset;
use crate::text::{decimal, padded, push_decimal, push_padded};
use vstd::prelude::*;
use vstd::string::*;

verus! {

/// The width of every video. Even, as the chroma planes have half the size.
pub const VIDEO_WIDTH: u32 = 1080;

/// The height of every video. Even, as the chroma planes have half the size.
pub const VIDEO_HEIGHT: u32 = 1920;

/// Frames per second.
pub const VIDEO_FPS: u32 = 30;

/// The longest video: ten minutes.
pub const MAX_DURATION_MS: u64 = 600_000;

/// The shortest video.
pub const MIN_DURATION_MS: u64 = 1000;

/// The codecs.
#[derive(Clone, Copy, Debug, PartialEq, Eq, Structural)]
pub enum VideoCodec {
    /// H.264, for mp4.
    H264,
    /// VP9, for webm.
    Vp9,
}

impl VideoCodec {
    pub open spec fn of_mode(mode: OutputMode) -> Option<VideoCodec> {
        match mode {
            OutputMode::Mp4 => Some(VideoCodec::H264),
            OutputMode::Webm => Some(VideoCodec::Vp9),
            _ => None,
        }
    }

    /// The codec of an output format, none for formats that are no video.
    pub fn from_output_mode(mode: OutputMode) -> (r: Option<VideoCodec>)
        ensures
            r == VideoCodec::of_mode(mode),
    {
        match mode {
            OutputMode::Mp4 => Some(VideoCodec::H264),
            OutputMode::Webm => Some(VideoCodec::Vp9),
            _ => None,
        }
    }

    pub open spec fn name_text(self) -> Seq<char> {
        match self {
            VideoCodec::H264 => "H264"@,
            VideoCodec::Vp9 => "Vp9"@,
        }
    }

    /// The name of the codec in messages.
    pub fn name(self) -> (r: &'static str)
        ensures
            r@ == self.name_text(),
    {
        match self {
            VideoCodec::H264 => "H264",
            VideoCodec::Vp9 => "Vp9",
        }
    }
}

/// The options of a video. Its size is fixed.
#[derive(Clone, Debug)]
pub struct VideoOptions {
    pub orb_size: Binary32,
    pub blur: Binary32,
    pub saturation: Binary32,
    pub direction: MotionDirection,
    pub speed: MotionSpeed,
    pub seed: u64,
    /// How many orbs there are; as many as clusters where it is not given.
    pub count: Option<usize>,
    /// The background. Videos have no alpha.
    pub background: [u8; 4],
    pub shape: OrbShape,
    pub softness: SoftnessPreset,
    pub color_tracks: Option<Vec<Vec<[u8; 3]>>>,
    pub keyframe_tracks: Option<Vec<Vec<KeyframeClusterPoint>>>,
}

impl Default for VideoOptions {
    fn default() -> (r: VideoOptions)
        ensures
            r.orb_size.bits == ONE,
            r.blur.bits == 0x3f00_0000,
            r.saturation.bits == ONE,
            r.direction == MotionDirection::LeftToRight,
            r.speed == MotionSpeed::Slow,
            r.seed == 0,
            r.count is None,
            r.background@ == seq![0u8, 0, 0, 255],
            r.shape is Orb,
            r.softness == SoftnessPreset::Mid,
            r.color_tracks is None,
            r.keyframe_tracks is None,
    {
        let a = AnimateOptions::default();
        VideoOptions {
            orb_size: a.orb_size,
            blur: a.blur,
            saturation: a.saturation,
            direction: a.direction,
            speed: a.speed,
            seed: a.seed,
            count: a.count,
            background: a.background,
            shape: a.shape,
            softness: a.softness,
            color_tracks: a.color_tracks,
            keyframe_tracks: a.keyframe_tracks,
        }
    }
}

/// Whether frame options are those of a video: its options at the size of videos,
/// without a watercolour layer, glyphs turning, and the shadow as it is everywhere.
pub open spec fn frame_of(opts: VideoOptions, frame: AnimateOptions) -> bool {
    &&& frame.width == VIDEO_WIDTH
    &&& frame.height == VIDEO_HEIGHT
    &&& frame.aqua is None
    &&& frame.orb_size == opts.orb_size
    &&& frame.blur == opts.blur
    &&& frame.saturation == opts.saturation
    &&& frame.direction == opts.direction
    &&& frame.speed == opts.speed
    &&& frame.seed == opts.seed
    &&& frame.count == opts.count
    &&& frame.background == opts.background
    &&& frame.shape == opts.shape
    &&& frame.softness == opts.softness
    &&& frame.glyph_rotate
    &&& frame.shadow_strength.bits == SHADOW_STRENGTH_DEFAULT
    &&& frame.color_tracks == opts.color_tracks
    &&& frame.keyframe_tracks == opts.keyframe_tracks
}

/// The options of the frames of a video.
pub fn frame_options(opts: VideoOptions) -> (r: AnimateOptions)
    ensures
        frame_of(opts, r),
{
    AnimateOptions {
        width: VIDEO_WIDTH,
        height: VIDEO_HEIGHT,
        aqua: None,
        orb_size: opts.orb_size,
        blur: opts.blur,
        saturation: opts.saturation,
        direction: opts.direction,
        speed: opts.speed,
        seed: opts.seed,
        count: opts.count,
        background: opts.background,
        shape: opts.shape,
        softness: opts.softness,
        glyph_rotate: true,
        shadow_strength: Binary32 { bits: SHADOW_STRENGTH_DEFAULT },
        color_tracks: opts.color_tracks,
        keyframe_tracks: opts.keyframe_tracks,
    }
}

/// Why a video could not be written.
#[derive(Debug)]
pub enum VideoError {
    /// The encoder is not installed.
    FfmpegNotFound,
    /// The encoder failed.
    FfmpegFailed { status: String, stderr: String },
    /// A file or process could not be handled.
    Io(String),
    /// A frame could not be encoded.
    FrameSave(String),
    /// The length is out of range.
    InvalidDuration,
}

impl VideoError {
    pub open spec fn text(self) -> Seq<char> {
        match self {
            VideoError::FfmpegNotFound =>
                "ffmpeg not found in PATH; install ffmpeg (e.g. apt install ffmpeg / brew install ffmpeg) and retry"@,
            VideoError::FfmpegFailed { status, stderr } => "ffmpeg failed with "@ + status@ + ": "@
                + stderr@,
            VideoError::Io(e) => "I/O error: "@ + e@,
            VideoError::FrameSave(e) => "failed to encode frame: "@ + e@,
            VideoError::InvalidDuration => "duration_ms must be in 1000..=600000 (1s..=10min)"@,
        }
    }

    /// What to tell the user.
    pub fn message(&self) -> (s: String)
        ensures
            s@ == self.text(),
    {
        match self {
            VideoError::FfmpegNotFound => String::from_str(
                "ffmpeg not found in PATH; install ffmpeg (e.g. apt install ffmpeg / brew install ffmpeg) and retry",
            ),
            VideoError::FfmpegFailed { status, stderr } => {
                let mut s = String::from_str("ffmpeg failed with ");
                s.append(status.as_str());
                s.append(": ");
                s.append(stderr.as_str());
                s
            },
            VideoError::Io(e) => {
                let mut s = String::from_str("I/O error: ");
                s.append(e.as_str());
                s
            },
            VideoError::FrameSave(e) => {
                let mut s = String::from_str("failed to encode frame: ");
                s.append(e.as_str());
                s
            },
            VideoError::InvalidDuration => String::from_str(
                "duration_ms must be in 1000..=600000 (1s..=10min)",
            ),
        }
    }
}

/// How many frames a video has.
pub fn calc_frame_count(duration_ms: u64) -> (r: Result<usize, VideoError>)
    ensures
        match r {
            Ok(n) => MIN_DURATION_MS <= duration_ms <= MAX_DURATION_MS && n == duration_ms * VIDEO_FPS
                / 1000,
            Err(e) => (duration_ms < MIN_DURATION_MS || duration_ms > MAX_DURATION_MS) && e
                == VideoError::InvalidDuration,
        },
{
    if duration_ms < MIN_DURATION_MS || duration_ms > MAX_DURATION_MS {
        return Err(VideoError::InvalidDuration);
    }
    Ok((duration_ms * VIDEO_FPS as u64 / 1000) as usize)
}

/// The time of frame `i`: the last one lies before 1, which is 0 again.
pub open spec fn frame_time(i: nat, total: nat) -> Binary32 {
    of_int(false, i).over(of_int(false, total))
}

/// The name of the file of frame `i`.
pub open spec fn frame_file(i: nat) -> Seq<char> {
    "frame_"@ + padded(decimal(i), 5) + ".png"@
}

/// How many frames lie between two reports of progress.
pub open spec fn report_step(total: nat) -> nat {
    if total / 10 == 0 {
        1
    } else {
        total / 10
    }
}

/// The report behind frame `i`, none but at every tenth of the way.
pub open spec fn report_text(i: nat, total: nat) -> Option<Seq<char>> {
    if i > 0 && i % report_step(total) == 0 {
        Some(
            "orber: "@ + decimal(i * 100 / total) + "% ("@ + decimal(i) + "/"@ + decimal(total)
                + " frames)"@,
        )
    } else {
        None
    }
}

/// What stands before the pattern of the frame files.
pub open spec fn encoder_head() -> Seq<Seq<char>> {
    seq!["-y"@, "-loglevel"@, "error"@, "-framerate"@, "30"@, "-i"@]
}

/// What tells the encoder the codec.
pub open spec fn codec_args(codec: VideoCodec) -> Seq<Seq<char>> {
    match codec {
        VideoCodec::H264 => seq![
            "-c:v"@,
            "libx264"@,
            "-pix_fmt"@,
            "yuv420p"@,
            "-movflags"@,
            "+faststart"@,
        ],
        VideoCodec::Vp9 => seq![
            "-c:v"@,
            "libvpx-vp9"@,
            "-pix_fmt"@,
            "yuv420p"@,
            "-b:v"@,
            "0"@,
            "-crf"@,
            "32"@,
        ],
    }
}

/// The texts of a list.
pub open spec fn texts(v: Seq<String>) -> Seq<Seq<char>> {
    Seq::new(v.len(), |i: int| v[i]@)
}

/// Appends a text to a list.
pub fn push_text(v: &mut Vec<String>, s: &str)
    ensures
        texts(final(v)@) == texts(old(v)@).push(s@),
{
    let ghost before = v@;
    v.push(String::from_str(s));
    proof {
        assert(texts(v@) =~= texts(before).push(s@));
    }
}

/// The arguments of the encoder: the frames of a pattern, the codec, the output.
pub fn encoder_args(codec: VideoCodec, pattern: &str, output: &str) -> (r: Vec<String>)
    ensures
        texts(r@) == encoder_head().push(pattern@) + codec_args(codec).push(output@),
{
    let mut v: Vec<String> = Vec::new();
    proof {
        assert(texts(v@) =~= Seq::empty());
    }
    push_text(&mut v, "-y");
    push_text(&mut v, "-loglevel");
    push_text(&mut v, "error");
    push_text(&mut v, "-framerate");
    push_text(&mut v, "30");
    push_text(&mut v, "-i");
    push_text(&mut v, pattern);
    let ghost head = texts(v@);
    proof {
        assert(head =~= encoder_head().push(pattern@));
    }
    push_text(&mut v, "-c:v");
    match codec {
        VideoCodec::H264 => {
            push_text(&mut v, "libx264");
            push_text(&mut v, "-pix_fmt");
            push_text(&mut v, "yuv420p");
            push_text(&mut v, "-movflags");
            push_text(&mut v, "+faststart");
        },
        VideoCodec::Vp9 => {
            push_text(&mut v, "libvpx-vp9");
            push_text(&mut v, "-pix_fmt");
            push_text(&mut v, "yuv420p");
            push_text(&mut v, "-b:v");
            push_text(&mut v, "0");
            push_text(&mut v, "-crf");
            push_text(&mut v, "32");
        },
    }
    push_text(&mut v, output);
    proof {
        assert(texts(v@) =~= head + codec_args(codec).push(output@));
    }
    v
}

/// How a process ended.
#[derive(Debug)]
pub enum ProcessOutcome {
    /// The program is not installed.
    Missing,
    /// It could not be started or waited for.
    Failed(String),
    /// It ended by itself.
    Exited { success: bool, status: String, stderr: String },
}

/// What is to be done next.
#[derive(Debug)]
pub enum VideoStep {
    /// Render the frame at `t` and write it to the file.
    Frame { index: usize, t: Binary32, file: String },
    /// Run the encoder on the files, with the arguments.
    Encode { args: Vec<String> },
    /// Nothing.
    Done,
}

/// The writing of one video.
#[derive(Debug)]
pub struct VideoRun {
    pub total: usize,
    pub codec: VideoCodec,
    /// How many frames are written.
    pub written: usize,
    /// Whether the encoder has run.
    pub encoded: bool,
}

impl VideoRun {
    pub open spec fn wf(&self) -> bool {
        &&& 0 < self.total <= 18000
        &&& self.written <= self.total
        &&& self.encoded ==> self.written == self.total
    }

    /// Begins a video.
    pub fn start(duration_ms: u64, codec: VideoCodec) -> (r: Result<VideoRun, VideoError>)
        ensures
            match r {
                Ok(run) => {
                    &&& MIN_DURATION_MS <= duration_ms <= MAX_DURATION_MS
                    &&& run.wf()
                    &&& run.total == duration_ms * VIDEO_FPS / 1000
                    &&& run.codec == codec
                    &&& run.written == 0
                    &&& !run.encoded
                },
                Err(e) => (duration_ms < MIN_DURATION_MS || duration_ms > MAX_DURATION_MS) && e
                    == VideoError::InvalidDuration,
            },
    {
        match calc_frame_count(duration_ms) {
            Ok(total) => Ok(VideoRun { total, codec, written: 0, encoded: false }),
            Err(e) => Err(e),
        }
    }

    pub open spec fn opening_text(&self) -> Seq<char> {
        "orber: rendering "@ + decimal(self.total as nat) + " frames at 30fps..."@
    }

    /// What to tell the user first.
    pub fn opening(&self) -> (s: String)
        ensures
            s@ == self.opening_text(),
    {
        let mut s = String::from_str("orber: rendering ");
        push_decimal(&mut s, self.total as u64);
        s.append(" frames at 30fps...");
        s
    }

    /// What is to be done next: the frames one after the other, then the encoder.
    pub fn next_step(&self, pattern: &str, output: &str) -> (r: VideoStep)
        requires
            self.wf(),
        ensures
            match r {
                VideoStep::Frame { index, t, file } => {
                    &&& self.written < self.total
                    &&& index == self.written
                    &&& t == frame_time(index as nat, self.total as nat)
                    &&& file@ == frame_file(index as nat)
                },
                VideoStep::Encode { args } => {
                    &&& self.written == self.total && !self.encoded
                    &&& texts(args@) == encoder_head().push(pattern@) + codec_args(self.codec).push(
                        output@,
                    )
                },
                VideoStep::Done => self.encoded,
            },
    {
        if self.written < self.total {
            let mut file = String::from_str("frame_");
            push_padded(&mut file, self.written as u64, 10, 5);
            file.append(".png");
            VideoStep::Frame {
                index: self.written,
                t: Binary32::from_u64(self.written as u64).div(
                    Binary32::from_u64(self.total as u64),
                ),
                file,
            }
        } else if !self.encoded {
            VideoStep::Encode { args: encoder_args(self.codec, pattern, output) }
        } else {
            VideoStep::Done
        }
    }

    /// Takes note of a frame that was written, or of the reason why it was not, and says
    /// what to report.
    pub fn frame_done(&mut self, outcome: Result<(), String>) -> (r: Result<Option<String>, VideoError>)
        requires
            old(self).wf(),
            old(self).written < old(self).total,
        ensures
            final(self).wf(),
            final(self).total == old(self).total,
            final(self).codec == old(self).codec,
            final(self).encoded == old(self).encoded,
            match outcome {
                Ok(_) => {
                    &&& final(self).written == old(self).written + 1
                    &&& r is Ok
                    &&& match r->Ok_0 {
                        Some(s) => report_text(old(self).written as nat, old(self).total as nat)
                            == Some(s@),
                        None => report_text(old(self).written as nat, old(self).total as nat) is None,
                    }
                },
                Err(e) => final(self).written == old(self).written && r
                    == Err::<Option<String>, VideoError>(VideoError::FrameSave(e)),
            },
    {
        match outcome {
            Err(e) => Err(VideoError::FrameSave(e)),
            Ok(_) => {
                let i: usize = self.written;
                let total: usize = self.total;
                self.written = i + 1;
                let step: usize = if total / 10 == 0 {
                    1
                } else {
                    total / 10
                };
                if i > 0 && i % step == 0 {
                    let mut s = String::from_str("orber: ");
                    push_decimal(&mut s, (i * 100 / total) as u64);
                    s.append("% (");
                    push_decimal(&mut s, i as u64);
                    s.append("/");
                    push_decimal(&mut s, total as u64);
                    s.append(" frames)");
                    Ok(Some(s))
                } else {
                    Ok(None)
                }
            },
        }
    }

    /// Takes note of how the encoder ended.
    pub fn encode_done(&mut self, outcome: ProcessOutcome) -> (r: Result<(), VideoError>)
        requires
            old(self).wf(),
            old(self).written == old(self).total,
        ensures
            final(self).wf(),
            final(self).total == old(self).total,
            final(self).written == old(self).written,
            final(self).codec == old(self).codec,
            match outcome {
                ProcessOutcome::Missing => r == Err::<(), VideoError>(VideoError::FfmpegNotFound)
                    && final(self).encoded == old(self).encoded,
                ProcessOutcome::Failed(e) => r == Err::<(), VideoError>(VideoError::Io(e))
                    && final(self).encoded == old(self).encoded,
                ProcessOutcome::Exited { success, status, stderr } => if success {
                    r is Ok && final(self).encoded
                } else {
                    r == Err::<(), VideoError>(VideoError::FfmpegFailed { status, stderr })
                        && final(self).encoded == old(self).encoded
                },
            },
    {
        match outcome {
            ProcessOutcome::Missing => Err(VideoError::FfmpegNotFound),
            ProcessOutcome::Failed(e) => Err(VideoError::Io(e)),
            ProcessOutcome::Exited { success, status, stderr } => {
                if success {
                    self.encoded = true;
                    Ok(())
                } else {
                    Err(VideoError::FfmpegFailed { status, stderr })
                }
            },
        }
    }

    pub open spec fn encoding_text(&self) -> Seq<char> {
        "orber: invoking ffmpeg ("@ + self.codec.name_text() + ")..."@
    }

    /// What to tell the user before the encoder runs.
    pub fn encoding(&self) -> (s: String)
        ensures
            s@ == self.encoding_text(),
    {
        let mut s = String::from_str("orber: invoking ffmpeg (");
        s.append(self.codec.name());
        s.append(")...");
        s
    }
}

/// Every frame of a video lies before the time at which the motion has come round.
pub proof fn lemma_frames_end_before_the_loop(i: nat, total: nat)
    requires
        i < total <= 18000,
    ensures
        frame_time(i, total).less(Binary32 { bits: ONE }),
        !frame_time(i, total).negative(),
{
    let (a, b) = (of_int(false, i), of_int(false, total));
    crate::integers::lemma_of_int_exact(false, i);
    crate::integers::lemma_of_int_exact(false, total);
    crate::binary32_laws::lemma_small_ratio(i, total);
}

} // verus!
