//! Videos as input: which files are videos, the sampling of their frames, and the
//! tracks of their colours.

use crate::binary32::{lemma_round32_zero, mag_units, round32, Binary32, ONE};
use crate::binary32_laws::{lemma_rank_orders_values, lemma_ratio_within, lemma_round32_monotone};
use crate::binary64::{Binary64, INF64};
use crate::cluster::{
    cluster_within, clusters_within, extract_clusters, extracted, Cluster, ClusterError,
};
use crate::fixed::{fixed_six, six_decimals_or_inf};
use crate::integers::{lemma_of_int_exact, of_int};
use crate::keyframe_track::{
    keyframe_at, lemma_track_meets_its_keyframes, point_within, points_within, times_rise,
    KeyframeClusterPoint,
};
use crate::lab::{distance_outcome, lab_distance_rgb};
use crate::matching::{greedy, match_nearest, picks_of, rows_of};
use crate::picture::RgbPicture;
use crate::rounding::lemma_pow2_values;
use crate::scaling::lemma_round32_close;
use crate::shares::whole_shared;
use crate::text::{decimal, padded, push_padded, quote, quoted};
use crate::video::{push_text, texts};
use vstd::arithmetic::power2::{lemma2_to64_rest, lemma_pow2_adds, lemma_pow2_pos, pow2};
use vstd::prelude::*;
use vstd::string::*;

verus! {

/// A letter in lower case; other characters stay.
pub open spec fn lower(c: char) -> char {
    if 'A' <= c <= 'Z' {
        (c as u32 + 32) as char
    } else {
        c
    }
}

/// Whether two texts agree but for the case of their ASCII letters.
pub open spec fn same_letters(a: Seq<char>, b: Seq<char>) -> bool {
    &&& a.len() == b.len()
    &&& forall|i: int| 0 <= i < a.len() ==> lower(#[trigger] a[i]) == lower(b[i])
}

fn to_lower(c: char) -> (r: char)
    ensures
        r == lower(c),
{
    if 'A' <= c && c <= 'Z' {
        (c as u8 + 32) as char
    } else {
        c
    }
}

/// Whether two texts agree but for the case of their ASCII letters.
pub fn equal_ignoring_case(a: &str, b: &str) -> (r: bool)
    ensures
        r == same_letters(a@, b@),
{
    let n: usize = a.unicode_len();
    if n != b.unicode_len() {
        return false;
    }
    let mut i: usize = 0;
    while i < n
        invariant
            i <= n,
            n == a@.len(),
            n == b@.len(),
            forall|j: int| 0 <= j < i ==> lower(#[trigger] a@[j]) == lower(b@[j]),
        decreases n - i,
    {
        if to_lower(a.get_char(i)) != to_lower(b.get_char(i)) {
            assert(lower(a@[i as int]) != lower(b@[i as int]));
            return false;
        }
        i = i + 1;
    }
    true
}

/// Where the trailing separators and `.` components of a path begin.
pub open spec fn trimmed_len(path: Seq<char>, n: nat) -> nat
    decreases n,
{
    if n == 0 {
        0
    } else if path[n - 1] == '/' {
        trimmed_len(path, (n - 1) as nat)
    } else if n >= 2 && path[n - 1] == '.' && path[n - 2] == '/' {
        trimmed_len(path, (n - 1) as nat)
    } else {
        n
    }
}

/// Where the last component of the first `n` characters begins.
pub open spec fn component_start(path: Seq<char>, n: nat) -> nat
    decreases n,
{
    if n == 0 || path[n - 1] == '/' {
        n
    } else {
        component_start(path, (n - 1) as nat)
    }
}

/// The name of the file that a path leads to: its last component, unless that is `.` or
/// `..`.
pub open spec fn file_name(path: Seq<char>) -> Option<Seq<char>> {
    let end = trimmed_len(path, path.len());
    let name = path.subrange(component_start(path, end) as int, end as int);
    if name.len() == 0 || name == seq!['.'] || name == seq!['.', '.'] {
        None
    } else {
        Some(name)
    }
}

/// The place of the last dot among the first `n` characters.
pub open spec fn last_dot(name: Seq<char>, n: nat) -> Option<nat>
    decreases n,
{
    if n == 0 {
        None
    } else if name[n - 1] == '.' {
        Some((n - 1) as nat)
    } else {
        last_dot(name, (n - 1) as nat)
    }
}

/// The extension of a path: what stands behind the last dot of the file name, none where
/// there is no dot but a leading one.
pub open spec fn path_extension(path: Seq<char>) -> Option<Seq<char>> {
    match file_name(path) {
        None => None,
        Some(name) => match last_dot(name, name.len()) {
            None => None,
            Some(d) => if d == 0 {
                None
            } else {
                Some(name.subrange(d as int + 1, name.len() as int))
            },
        },
    }
}

proof fn lemma_path_bounds(path: Seq<char>, n: nat)
    requires
        n <= path.len(),
    ensures
        trimmed_len(path, n) <= n,
        component_start(path, n) <= n,
    decreases n,
{
    if n > 0 {
        lemma_path_bounds(path, (n - 1) as nat);
    }
}

/// The extension of a path.
pub fn extension_of(path: &str) -> (r: Option<String>)
    ensures
        match r {
            Some(ext) => path_extension(path@) == Some(ext@),
            None => path_extension(path@) is None,
        },
{
    let len: usize = path.unicode_len();
    let mut end: usize = len;
    while end > 0 && (path.get_char(end - 1) == '/' || (end >= 2 && path.get_char(end - 1) == '.'
        && path.get_char(end - 2) == '/'))
        invariant
            end <= len,
            len == path@.len(),
            trimmed_len(path@, end as nat) == trimmed_len(path@, len as nat),
        decreases end,
    {
        end = end - 1;
    }
    let mut start: usize = end;
    while start > 0 && path.get_char(start - 1) != '/'
        invariant
            start <= end <= len,
            len == path@.len(),
            component_start(path@, start as nat) == component_start(path@, end as nat),
        decreases start,
    {
        start = start - 1;
    }
    let name: &str = path.substring_char(start, end);
    let n: usize = end - start;
    proof {
        assert(name@.len() == n);
    }
    if n == 0 {
        return None;
    }
    if n == 1 && name.get_char(0) == '.' {
        assert(name@ =~= seq!['.']);
        return None;
    }
    if n == 2 && name.get_char(0) == '.' && name.get_char(1) == '.' {
        assert(name@ =~= seq!['.', '.']);
        return None;
    }
    proof {
        assert(name@ != seq!['.']) by {
            if name@ == seq!['.'] {
                assert(name@[0] == '.' && name@.len() == 1);
            }
        }
        assert(name@ != seq!['.', '.']) by {
            if name@ == seq!['.', '.'] {
                assert(name@[0] == '.' && name@[1] == '.' && name@.len() == 2);
            }
        }
        assert(file_name(path@) == Some(name@));
    }
    let mut d: usize = n;
    while d > 0 && name.get_char(d - 1) != '.'
        invariant
            d <= n,
            n == name@.len(),
            last_dot(name@, d as nat) == last_dot(name@, n as nat),
        decreases d,
    {
        d = d - 1;
    }
    if d <= 1 {
        return None;
    }
    let ext: &str = name.substring_char(d, n);
    Some(String::from_str(ext))
}

/// Whether an extension is that of a video.
pub open spec fn video_extension(ext: Seq<char>) -> bool {
    ||| same_letters(ext, "mp4"@)
    ||| same_letters(ext, "webm"@)
    ||| same_letters(ext, "mov"@)
    ||| same_letters(ext, "mkv"@)
    ||| same_letters(ext, "m4v"@)
    ||| same_letters(ext, "avi"@)
}

/// Whether a file is a video, by its extension, whatever its case.
pub fn is_video_path(path: &str) -> (r: bool)
    ensures
        r == (path_extension(path@) matches Some(ext) && video_extension(ext)),
{
    match extension_of(path) {
        None => false,
        Some(ext) => {
            let e: &str = ext.as_str();
            equal_ignoring_case(e, "mp4") || equal_ignoring_case(e, "webm") || equal_ignoring_case(
                e,
                "mov",
            ) || equal_ignoring_case(e, "mkv") || equal_ignoring_case(e, "m4v")
                || equal_ignoring_case(e, "avi")
        },
    }
}

/// A frame of a video.
#[derive(Clone, Debug)]
pub struct VideoSample {
    pub frame: RgbPicture,
    /// Its time, from 0 at the begin to 1 at the end.
    pub t: Binary32,
}

/// Why a video cannot be read.
#[derive(Debug)]
pub enum VideoInputError {
    /// `ffmpeg` is not installed.
    FfmpegNotFound,
    /// `ffprobe` is not installed.
    FfprobeNotFound,
    /// The length could not be found out.
    DurationProbeFailed { stderr: String },
    /// The length is no positive number.
    ZeroDuration,
    /// `ffmpeg` failed.
    FfmpegFailed { stderr: String },
    /// No sample was asked for.
    ZeroSamples,
    /// The file does not exist.
    InputNotReadable { path: String },
    /// A frame could not be decoded.
    DecodeError(String),
    /// Not one frame came out.
    NoFramesExtracted,
    /// A file or process could not be handled.
    Io(String),
}

impl VideoInputError {
    pub open spec fn text(self) -> Seq<char> {
        match self {
            VideoInputError::FfmpegNotFound =>
                "ffmpeg not found in PATH; install ffmpeg (e.g. apt install ffmpeg / brew install ffmpeg) and retry"@,
            VideoInputError::FfprobeNotFound =>
                "ffprobe not found in PATH; install ffmpeg (e.g. apt install ffmpeg / brew install ffmpeg) and retry"@,
            VideoInputError::DurationProbeFailed { stderr } => "ffprobe failed to read duration: "@
                + stderr@,
            VideoInputError::ZeroDuration =>
                "input video has zero / invalid duration (corrupted file or audio-only stream)"@,
            VideoInputError::FfmpegFailed { stderr } => "ffmpeg failed: "@ + stderr@,
            VideoInputError::ZeroSamples => "n must be >= 1 (at least one sample is required)"@,
            VideoInputError::InputNotReadable { path } => "input file not readable: "@ + path@,
            VideoInputError::DecodeError(e) => "PNG decode failed: "@ + e@,
            VideoInputError::NoFramesExtracted =>
                "ffmpeg produced no frames (video may be empty or fully corrupted)"@,
            VideoInputError::Io(e) => "I/O error: "@ + e@,
        }
    }

    /// What to tell the user.
    pub fn message(&self) -> (s: String)
        ensures
            s@ == self.text(),
    {
        match self {
            VideoInputError::FfmpegNotFound => String::from_str(
                "ffmpeg not found in PATH; install ffmpeg (e.g. apt install ffmpeg / brew install ffmpeg) and retry",
            ),
            VideoInputError::FfprobeNotFound => String::from_str(
                "ffprobe not found in PATH; install ffmpeg (e.g. apt install ffmpeg / brew install ffmpeg) and retry",
            ),
            VideoInputError::DurationProbeFailed { stderr } => String::from_str(
                "ffprobe failed to read duration: ",
            ).concat(stderr.as_str()),
            VideoInputError::ZeroDuration => String::from_str(
                "input video has zero / invalid duration (corrupted file or audio-only stream)",
            ),
            VideoInputError::FfmpegFailed { stderr } => String::from_str("ffmpeg failed: ").concat(
                stderr.as_str(),
            ),
            VideoInputError::ZeroSamples => String::from_str(
                "n must be >= 1 (at least one sample is required)",
            ),
            VideoInputError::InputNotReadable { path } => String::from_str(
                "input file not readable: ",
            ).concat(path.as_str()),
            VideoInputError::DecodeError(e) => String::from_str("PNG decode failed: ").concat(
                e.as_str(),
            ),
            VideoInputError::NoFramesExtracted => String::from_str(
                "ffmpeg produced no frames (video may be empty or fully corrupted)",
            ),
            VideoInputError::Io(e) => String::from_str("I/O error: ").concat(e.as_str()),
        }
    }
}

/// Whether a character is white space.
pub open spec fn white(c: char) -> bool {
    ||| '\u{9}' <= c <= '\u{d}'
    ||| c == ' '
    ||| c == '\u{85}'
    ||| c == '\u{a0}'
    ||| c == '\u{1680}'
    ||| '\u{2000}' <= c <= '\u{200a}'
    ||| c == '\u{2028}'
    ||| c == '\u{2029}'
    ||| c == '\u{202f}'
    ||| c == '\u{205f}'
    ||| c == '\u{3000}'
}

/// Where the white space that starts at `i` ends.
pub open spec fn white_until(s: Seq<char>, i: nat) -> nat
    decreases s.len() - i,
{
    if i < s.len() && white(s[i as int]) {
        white_until(s, i + 1)
    } else {
        i
    }
}

/// Where the white space that ends at `n` starts.
pub open spec fn white_from(s: Seq<char>, n: nat) -> nat
    decreases n,
{
    if n > 0 && white(s[n - 1]) {
        white_from(s, (n - 1) as nat)
    } else {
        n
    }
}

/// A text without the white space around it.
pub open spec fn trimmed(s: Seq<char>) -> Seq<char> {
    let a = white_until(s, 0);
    let b = white_from(s, s.len());
    if a < b {
        s.subrange(a as int, b as int)
    } else {
        Seq::empty()
    }
}

fn is_white(c: char) -> (r: bool)
    ensures
        r == white(c),
{
    ('\u{9}' <= c && c <= '\u{d}') || c == ' ' || c == '\u{85}' || c == '\u{a0}' || c == '\u{1680}'
        || ('\u{2000}' <= c && c <= '\u{200a}') || c == '\u{2028}' || c == '\u{2029}' || c
        == '\u{202f}' || c == '\u{205f}' || c == '\u{3000}'
}

/// A text without the white space around it.
pub fn trim(s: &str) -> (r: &str)
    ensures
        r@ == trimmed(s@),
{
    let len: usize = s.unicode_len();
    let mut a: usize = 0;
    while a < len && is_white(s.get_char(a))
        invariant
            a <= len,
            len == s@.len(),
            white_until(s@, a as nat) == white_until(s@, 0),
        decreases len - a,
    {
        a = a + 1;
    }
    let mut b: usize = len;
    while b > 0 && is_white(s.get_char(b - 1))
        invariant
            b <= len,
            len == s@.len(),
            white_from(s@, b as nat) == white_from(s@, len as nat),
        decreases b,
    {
        b = b - 1;
    }
    if a < b {
        s.substring_char(a, b)
    } else {
        let none: &str = s.substring_char(0, 0);
        assert(none@ =~= Seq::empty());
        none
    }
}

/// How the search for the length of a video ended.
#[derive(Debug)]
pub enum ProbeOutcome {
    /// The program is not installed.
    Missing,
    /// It could not be started or waited for.
    Failed(String),
    /// It ended by itself.
    Exited { success: bool, stdout: String, stderr: String },
}

/// The arguments of the search for the length of a video.
pub open spec fn probe_call(video: Seq<char>) -> Seq<Seq<char>> {
    seq![
        "-v"@,
        "error"@,
        "-show_entries"@,
        "format=duration"@,
        "-of"@,
        "default=noprint_wrappers=1:nokey=1"@,
        video,
    ]
}

/// The arguments of the search for the length of a video.
pub fn probe_args(video: &str) -> (r: Vec<String>)
    ensures
        texts(r@) == probe_call(video@),
{
    let mut v: Vec<String> = Vec::new();
    proof {
        assert(texts(v@) =~= Seq::empty());
    }
    push_text(&mut v, "-v");
    push_text(&mut v, "error");
    push_text(&mut v, "-show_entries");
    push_text(&mut v, "format=duration");
    push_text(&mut v, "-of");
    push_text(&mut v, "default=noprint_wrappers=1:nokey=1");
    push_text(&mut v, video);
    proof {
        assert(texts(v@) =~= probe_call(video@));
    }
    v
}

/// The pattern of the number that [`parse_double`] reads in a text, none where it reads none.
pub uninterp spec fn double_of(text: Seq<char>) -> Option<u64>;

/// Whether a pattern stands for no double precision number.
pub open spec fn double_nan(bits: u64) -> bool {
    bits % 0x8000_0000_0000_0000 > INF64
}

/// Whether two patterns stand for the same double precision number, or both for none.
pub open spec fn same_double(x: u64, y: u64) -> bool {
    x == y || (double_nan(x) && double_nan(y))
}

/// `str::parse` to a double precision number, given by its bit pattern; none where the
/// text is no number. The contract claims that the text determines it; which pattern
/// stands for a NaN is left open.
#[verifier::external_body]
fn parse_double(text: &str) -> (r: Option<u64>)
    ensures
        match r {
            Some(x) => double_of(text@) matches Some(y) && same_double(x, y),
            None => double_of(text@) is None,
        },
{
    let mut x = std::time::Duration::ZERO.as_secs_f64();
    x = text.parse().ok()?;
    Some(x.to_bits())
}

/// Whether the pattern is that of a positive finite double precision number.
pub open spec fn positive_pattern(bits: u64) -> bool {
    0 < bits < INF64
}

/// The length of a video that the printed text gives, `parsed` being the number in it.
pub fn judge_duration(parsed: Option<u64>, printed: &str) -> (r: Result<Binary64, VideoInputError>)
    ensures
        match parsed {
            None => r matches Err(VideoInputError::DurationProbeFailed { stderr }) && stderr@
                == "could not parse duration: "@ + quoted(printed@),
            Some(bits) => if positive_pattern(bits) {
                r == Ok::<Binary64, VideoInputError>(Binary64 { bits })
            } else {
                r == Err::<Binary64, VideoInputError>(VideoInputError::ZeroDuration)
            },
        },
{
    match parsed {
        None => {
            let shown = quote(printed);
            Err(
                VideoInputError::DurationProbeFailed {
                    stderr: String::from_str("could not parse duration: ").concat(shown.as_str()),
                },
            )
        },
        Some(bits) => {
            if 0 < bits && bits < INF64 {
                Ok(Binary64 { bits })
            } else {
                Err(VideoInputError::ZeroDuration)
            }
        },
    }
}

/// Whether `r` is what the printed text comes to.
pub open spec fn duration_judged(printed: Seq<char>, r: Result<Binary64, VideoInputError>) -> bool {
    match double_of(printed) {
        None => r matches Err(VideoInputError::DurationProbeFailed { stderr }) && stderr@
            == "could not parse duration: "@ + quoted(printed),
        Some(bits) => if positive_pattern(bits) {
            r == Ok::<Binary64, VideoInputError>(Binary64 { bits })
        } else {
            r == Err::<Binary64, VideoInputError>(VideoInputError::ZeroDuration)
        },
    }
}

/// The length of a video, in seconds, by how the search for it ended.
pub fn probed_duration(outcome: ProbeOutcome) -> (r: Result<Binary64, VideoInputError>)
    ensures
        match outcome {
            ProbeOutcome::Missing => r == Err::<Binary64, VideoInputError>(
                VideoInputError::FfprobeNotFound,
            ),
            ProbeOutcome::Failed(e) => r == Err::<Binary64, VideoInputError>(
                VideoInputError::Io(e),
            ),
            ProbeOutcome::Exited { success, stdout, stderr } => if !success {
                r == Err::<Binary64, VideoInputError>(
                    VideoInputError::DurationProbeFailed { stderr },
                )
            } else {
                duration_judged(trimmed(stdout@), r)
            },
        },
        r matches Ok(d) ==> d.finite() && d.bits > 0,
{
    match outcome {
        ProbeOutcome::Missing => Err(VideoInputError::FfprobeNotFound),
        ProbeOutcome::Failed(e) => Err(VideoInputError::Io(e)),
        ProbeOutcome::Exited { success, stdout, stderr } => {
            if !success {
                return Err(VideoInputError::DurationProbeFailed { stderr });
            }
            let printed: &str = trim(stdout.as_str());
            let parsed = parse_double(printed);
            judge_duration(parsed, printed)
        },
    }
}

/// Whether samples can be taken at all: one at least, of a file that exists.
pub fn sampling_allowed(n: usize, readable: bool, path: &str) -> (r: Result<(), VideoInputError>)
    ensures
        match r {
            Ok(_) => n > 0 && readable,
            Err(VideoInputError::ZeroSamples) => n == 0,
            Err(VideoInputError::InputNotReadable { path: p }) => n > 0 && !readable && p@ == path@,
            _ => false,
        },
{
    if n == 0 {
        return Err(VideoInputError::ZeroSamples);
    }
    if !readable {
        return Err(VideoInputError::InputNotReadable { path: String::from_str(path) });
    }
    Ok(())
}

/// The time of sample `i` of `n`.
pub open spec fn sample_time(i: nat, n: nat) -> Binary32 {
    if n == 1 {
        Binary32 { bits: 0 }
    } else {
        of_int(false, i).over(of_int(false, (n - 1) as nat))
    }
}

/// The time of a sample in seconds. At the very end no frame can be had, so it is taken
/// a millisecond before.
pub open spec fn sample_second(t: Binary32, duration: Binary64) -> Binary64 {
    let s = Binary64::wide(t).times(duration);
    if s.bits >= duration.bits {
        duration.minus(Binary64 { bits: 0x3f50_624d_d2f1_a9fc })
    } else {
        s
    }
}

/// The name of the file of sample `i`.
pub open spec fn sample_file(i: nat) -> Seq<char> {
    "sample_"@ + padded(decimal(i), 3) + ".png"@
}

/// The arguments that take one frame out of a video.
pub open spec fn sample_call(second: Seq<char>, video: Seq<char>, output: Seq<char>) -> Seq<
    Seq<char>,
> {
    seq![
        "-y"@,
        "-loglevel"@,
        "error"@,
        "-ss"@,
        second,
        "-i"@,
        video,
        "-frames:v"@,
        "1"@,
        "-vf"@,
        "scale=512:-1"@,
        "-pix_fmt"@,
        "rgb24"@,
        output,
    ]
}

/// How the taking of one frame ended.
#[derive(Debug)]
pub enum SampleOutcome {
    /// The program is not installed.
    Missing,
    /// It could not be started or waited for.
    Failed(String),
    /// It ended with a failure.
    Refused { stderr: String },
    /// It ended well, but there is no file.
    NoFile,
    /// There is a file, but it cannot be decoded.
    Undecodable(String),
    /// The frame.
    Frame(RgbPicture),
}

/// Whether `order` gives the tries, of the first `tried` of `n`, that the samples came from,
/// each after the one before.
pub open spec fn taken_from(
    samples: Seq<VideoSample>,
    order: Seq<nat>,
    tried: nat,
    n: nat,
) -> bool {
    &&& order.len() == samples.len()
    &&& forall|j: int|
        0 <= j < samples.len() ==> {
            &&& (#[trigger] samples[j]).frame.wf()
            &&& order[j] < tried
            &&& samples[j].t == sample_time(order[j], n)
        }
    &&& forall|a: int, b: int| 0 <= a < b < order.len() ==> order[a] < order[b]
}

/// Whether the samples are some of the first `tried` of `n`, in their order.
pub open spec fn taken_in_order(samples: Seq<VideoSample>, tried: nat, n: nat) -> bool {
    exists|order: Seq<nat>| taken_from(samples, order, tried, n)
}

/// The taking of samples of one video.
#[derive(Debug)]
pub struct Sampling {
    /// How many samples are wanted.
    pub n: usize,
    /// The length of the video in seconds.
    pub duration: Binary64,
    /// How many samples were tried.
    pub tried: usize,
    /// The samples so far.
    pub samples: Vec<VideoSample>,
}

impl Sampling {
    pub open spec fn wf(&self) -> bool {
        &&& 0 < self.n
        &&& self.duration.finite()
        &&& self.tried <= self.n
        &&& self.samples@.len() <= self.tried
        &&& taken_in_order(self.samples@, self.tried as nat, self.n as nat)
    }

    /// Begins to take samples.
    pub fn start(n: usize, duration: Binary64) -> (r: Sampling)
        requires
            n > 0,
            duration.finite(),
        ensures
            r.wf(),
            r.n == n,
            r.duration == duration,
            r.tried == 0,
            r.samples@.len() == 0,
    {
        let r = Sampling { n, duration, tried: 0, samples: Vec::new() };
        assert(taken_from(r.samples@, Seq::empty(), 0, n as nat));
        r
    }

    /// The time of the next sample.
    pub fn time(&self) -> (r: Binary32)
        requires
            self.wf(),
            self.tried < self.n,
        ensures
            r == sample_time(self.tried as nat, self.n as nat),
            r.finite(),
            !r.negative(),
    {
        proof {
            if self.n > 1 {
                lemma_sample_time_within(self.tried as nat, self.n as nat);
            }
        }
        if self.n == 1 {
            Binary32 { bits: 0 }
        } else {
            Binary32::from_u64(self.tried as u64).div(Binary32::from_u64((self.n - 1) as u64))
        }
    }

    /// The file of the next sample.
    pub fn file(&self) -> (s: String)
        ensures
            s@ == sample_file(self.tried as nat),
    {
        let mut s = String::from_str("sample_");
        push_padded(&mut s, self.tried as u64, 10, 3);
        s.append(".png");
        s
    }

    /// The arguments that take the next sample out of a video.
    pub fn args(&self, video: &str, output: &str) -> (r: Vec<String>)
        requires
            self.wf(),
            self.tried < self.n,
        ensures
            texts(r@) == sample_call(
                six_decimals_or_inf(
                    sample_second(sample_time(self.tried as nat, self.n as nat), self.duration),
                ),
                video@,
                output@,
            ),
    {
        let t = self.time();
        let mut at = Binary64::from_binary32(t).mul(self.duration);
        if at.bits >= self.duration.bits {
            at = self.duration.sub(Binary64 { bits: 0x3f50_624d_d2f1_a9fc });
        }
        let second = fixed_six(at);
        let mut v: Vec<String> = Vec::new();
        proof {
            assert(texts(v@) =~= Seq::empty());
        }
        push_text(&mut v, "-y");
        push_text(&mut v, "-loglevel");
        push_text(&mut v, "error");
        push_text(&mut v, "-ss");
        push_text(&mut v, second.as_str());
        push_text(&mut v, "-i");
        push_text(&mut v, video);
        push_text(&mut v, "-frames:v");
        push_text(&mut v, "1");
        push_text(&mut v, "-vf");
        push_text(&mut v, "scale=512:-1");
        push_text(&mut v, "-pix_fmt");
        push_text(&mut v, "rgb24");
        push_text(&mut v, output);
        proof {
            assert(texts(v@) =~= sample_call(second@, video@, output@));
        }
        v
    }

    /// Takes note of how the next sample ended. One without a file is passed over.
    pub fn sample_done(&mut self, outcome: SampleOutcome) -> (r: Result<(), VideoInputError>)
        requires
            old(self).wf(),
            old(self).tried < old(self).n,
            outcome matches SampleOutcome::Frame(frame) ==> frame.wf(),
        ensures
            final(self).wf(),
            final(self).n == old(self).n,
            final(self).duration == old(self).duration,
            final(self).tried == old(self).tried + 1,
            match outcome {
                SampleOutcome::Frame(frame) => r is Ok && final(self).samples@
                    == old(self).samples@.push(
                    (VideoSample {
                        frame,
                        t: sample_time(old(self).tried as nat, old(self).n as nat),
                    }),
                ),
                _ => final(self).samples@ == old(self).samples@,
            },
            match outcome {
                SampleOutcome::Missing => r == Err::<(), VideoInputError>(
                    VideoInputError::FfmpegNotFound,
                ),
                SampleOutcome::Failed(e) => r == Err::<(), VideoInputError>(VideoInputError::Io(e)),
                SampleOutcome::Refused { stderr } => r == Err::<(), VideoInputError>(
                    VideoInputError::FfmpegFailed { stderr },
                ),
                SampleOutcome::NoFile => r is Ok,
                SampleOutcome::Undecodable(e) => r == Err::<(), VideoInputError>(
                    VideoInputError::DecodeError(e),
                ),
                SampleOutcome::Frame(_) => r is Ok,
            },
    {
        let t = self.time();
        let ghost before = *self;
        let ghost order = choose|order: Seq<nat>|
            taken_from(before.samples@, order, before.tried as nat, before.n as nat);
        self.tried = self.tried + 1;
        assert(taken_from(self.samples@, order, self.tried as nat, self.n as nat));
        match outcome {
            SampleOutcome::Missing => Err(VideoInputError::FfmpegNotFound),
            SampleOutcome::Failed(e) => Err(VideoInputError::Io(e)),
            SampleOutcome::Refused { stderr } => Err(VideoInputError::FfmpegFailed { stderr }),
            SampleOutcome::NoFile => Ok(()),
            SampleOutcome::Undecodable(e) => Err(VideoInputError::DecodeError(e)),
            SampleOutcome::Frame(frame) => {
                self.samples.push(VideoSample { frame, t });
                proof {
                    let next = order.push(before.tried as nat);
                    assert forall|j: int| 0 <= j < self.samples@.len() implies {
                        &&& (#[trigger] self.samples@[j]).frame.wf()
                        &&& next[j] < self.tried
                        &&& self.samples@[j].t == sample_time(next[j], self.n as nat)
                    } by {
                        if j < before.samples@.len() {
                            assert(self.samples@[j] == before.samples@[j]);
                        }
                    }
                    assert forall|a: int, b: int| 0 <= a < b < next.len() implies next[a]
                        < next[b] by {
                        assert(before.samples@[a].t == sample_time(order[a], before.n as nat));
                    }
                    assert(taken_from(self.samples@, next, self.tried as nat, self.n as nat));
                }
                Ok(())
            },
        }
    }

    /// The samples, where there is one at least.
    pub fn finish(self) -> (r: Result<Vec<VideoSample>, VideoInputError>)
        ensures
            if self.samples@.len() == 0 {
                r == Err::<Vec<VideoSample>, VideoInputError>(VideoInputError::NoFramesExtracted)
            } else {
                r == Ok::<Vec<VideoSample>, VideoInputError>(self.samples)
            },
    {
        if self.samples.len() == 0 {
            return Err(VideoInputError::NoFramesExtracted);
        }
        Ok(self.samples)
    }
}

/// Every sample lies within the video: its time is a number from 0 to 1.
pub proof fn lemma_sample_time_within(i: nat, n: nat)
    requires
        i < n <= u64::MAX,
    ensures
        sample_time(i, n).finite(),
        !sample_time(i, n).negative(),
        sample_time(i, n).at_most(Binary32 { bits: ONE }),
{
    if n > 1 {
        lemma_ratio_within(i, (n - 1) as nat);
    }
}

/// Of up to 2^23 samples, each is later than the one before.
pub proof fn lemma_sample_times_rise(i: nat, j: nat, n: nat)
    requires
        i < j < n <= 0x80_0000,
    ensures
        sample_time(i, n).less(sample_time(j, n)),
{
    let k = pow2(149);
    let m = (n - 1) as nat;
    lemma_pow2_pos(149);
    lemma_sample_time_within(i, n);
    lemma_sample_time_within(j, n);
    let (a, b) = (sample_time(i, n), sample_time(j, n));
    lemma_part_close(i, m);
    lemma_part_close(j, m);
    let (u, v) = (a.units(), b.units());
    assert(u < v) by (nonlinear_arith)
        requires
            (u * m) * 0x100_0000 <= (i * k) * 0x100_0001,
            (v * m) * 0x100_0000 >= (j * k) * 0xff_ffff,
            i + 1 <= j,
            j < 0x80_0000,
            m > 0,
            k > 0,
    ;
    lemma_rank_orders_values(a, b);
}

/// A part of a whole, in units, is off by less than one part in 2^24.
proof fn lemma_part_close(i: nat, m: nat)
    requires
        i <= m,
        0 < m < 0x80_0000,
    ensures
        ({
            let u = of_int(false, i).over(of_int(false, m)).units();
            &&& (u * m) * 0x100_0000 <= (i * pow2(149)) * 0x100_0001
            &&& (u * m) * 0x100_0000 >= (i * pow2(149)) * 0xff_ffff
        }),
{
    reveal(Binary32::over);
    let k = pow2(149);
    lemma_pow2_pos(149);
    lemma_of_int_exact(false, i);
    lemma_of_int_exact(false, m);
    lemma_ratio_within(i, m);
    assert(mag_units(0) == 0);
    assert(m * k > 0) by (nonlinear_arith)
        requires
            m > 0,
            k > 0,
    ;
    let r = of_int(false, i).over(of_int(false, m));
    assert(r.mag() == round32((i * k) * k, m * k));
    lemma_round32_scale_both(i * k, m, k);
    if i == 0 {
        assert(0 * k == 0);
        lemma_round32_zero(m);
        assert(0 * m == 0);
    } else {
        lemma_pow2_values();
        lemma_pow2_adds(46, 103);
        lemma_pow2_pos(103);
        lemma2_to64_rest();
        assert(i * k >= 0x80_0000 * m) by (nonlinear_arith)
            requires
                i >= 1,
                k == 0x4000_0000_0000 * pow2(103),
                pow2(103) >= 1,
                m < 0x80_0000,
        ;
        lemma_round32_close(i * k, m);
    }
}

/// A common factor of both parts of a quotient changes no rounding.
proof fn lemma_round32_scale_both(n: nat, d: nat, c: nat)
    requires
        d > 0,
        c > 0,
    ensures
        round32(n * c, d * c) == round32(n, d),
{
    assert(d * c > 0) by (nonlinear_arith)
        requires
            d > 0,
            c > 0,
    ;
    assert((n * c) * d == n * (d * c)) by (nonlinear_arith);
    lemma_round32_monotone(n * c, d * c, n, d);
    lemma_round32_monotone(n, d, n * c, d * c);
}

/// Samples that were taken in order are each later than the one before.
pub proof fn lemma_samples_rise(samples: Seq<VideoSample>, tried: nat, n: nat, a: int, b: int)
    requires
        taken_in_order(samples, tried, n),
        tried <= n <= 0x80_0000,
        0 <= a < b < samples.len(),
    ensures
        samples[a].t.less(samples[b].t),
        samples[a].t.finite(),
        samples[b].t.finite(),
{
    let order = choose|order: Seq<nat>| taken_from(samples, order, tried, n);
    assert(order[a] < order[b]);
    assert(samples[a].t == sample_time(order[a], n));
    assert(samples[b].t == sample_time(order[b], n));
    lemma_sample_times_rise(order[a], order[b], n);
    lemma_sample_time_within(order[a], n);
    lemma_sample_time_within(order[b], n);
}

/// The colours of a video over time.
#[derive(Clone, Debug)]
pub struct ColorTracks {
    /// The clusters of the first sample, which fix the places and weights.
    pub template_clusters: Vec<Cluster>,
    /// For each of them its colour in each sample.
    pub tracks: Vec<Vec<[u8; 3]>>,
    /// The times of the samples.
    pub sample_times: Vec<Binary32>,
}

/// Whether the rows hold the distances of the colours of `template` to those of `found`.
pub open spec fn color_distances(
    template: Seq<Cluster>,
    found: Seq<Cluster>,
    rows: Seq<Seq<Binary32>>,
) -> bool {
    &&& rows.len() == template.len()
    &&& forall|i: int| 0 <= i < rows.len() ==> (#[trigger] rows[i]).len() == found.len()
    &&& forall|i: int, j: int|
        0 <= i < rows.len() && 0 <= j < found.len() ==> distance_outcome(
            template[i].color,
            found[j].color,
            #[trigger] rows[i][j],
        )
}

/// The clusters that the template's clusters take, by the choices; themselves where they
/// take none.
pub open spec fn matched_clusters(
    template: Seq<Cluster>,
    found: Seq<Cluster>,
    picks: Seq<Option<nat>>,
) -> Seq<Cluster> {
    Seq::new(
        template.len(),
        |i: int|
            match picks[i] {
                Some(j) => found[j as int],
                None => template[i],
            },
    )
}

/// The colours that the template's clusters take.
pub open spec fn matched_colors(
    template: Seq<Cluster>,
    found: Seq<Cluster>,
    picks: Seq<Option<nat>>,
) -> Seq<[u8; 3]> {
    colors_of(matched_clusters(template, found, picks))
}

/// The colours of clusters.
pub open spec fn colors_of(clusters: Seq<Cluster>) -> Seq<[u8; 3]> {
    Seq::new(clusters.len(), |i: int| clusters[i].color)
}

/// Whether these are the colours of the template's clusters in another frame: those of
/// the nearest clusters found there, their own in a frame without pixels.
pub open spec fn sample_colors(
    template: Seq<Cluster>,
    data: Seq<u8>,
    width: u32,
    height: u32,
    k: nat,
    colors: Seq<[u8; 3]>,
) -> bool {
    if width == 0 || height == 0 {
        colors == colors_of(template)
    } else {
        exists|found: Seq<Cluster>, rows: Seq<Seq<Binary32>>|
            {
                &&& #[trigger] extracted(data, width, height, k, found)
                &&& #[trigger] color_distances(template, found, rows)
                &&& colors == matched_colors(
                    template,
                    found,
                    greedy(rows, found.len(), template.len()).0,
                )
            }
    }
}

/// What the tracks hold at sample `s`.
pub open spec fn track_column<T>(tracks: Seq<Vec<T>>, s: int) -> Seq<T> {
    Seq::new(tracks.len(), |i: int| tracks[i]@[s])
}

/// Whether these are colour tracks of samples.
pub open spec fn tracks_of_samples(samples: Seq<VideoSample>, k: nat, t: ColorTracks) -> bool {
    let template = t.template_clusters@;
    let first = samples[0].frame;
    &&& extracted(first.data@, first.width, first.height, k, template)
    &&& t.tracks@.len() == template.len()
    &&& forall|i: int| 0 <= i < t.tracks@.len() ==> (#[trigger] t.tracks@[i])@.len() == samples.len()
    &&& track_column(t.tracks@, 0) == colors_of(template)
    &&& forall|s: int|
        0 < s < samples.len() ==> sample_colors(
            template,
            samples[s].frame.data@,
            samples[s].frame.width,
            samples[s].frame.height,
            k,
            #[trigger] track_column(t.tracks@, s),
        )
    &&& t.sample_times@ == Seq::new(samples.len(), |s: int| samples[s].t)
}

fn measure(template: &Vec<Cluster>, found: &Vec<Cluster>) -> (r: Vec<Vec<Binary32>>)
    ensures
        color_distances(template@, found@, rows_of(r@)),
{
    let mut rows: Vec<Vec<Binary32>> = Vec::new();
    let mut i: usize = 0;
    while i < template.len()
        invariant
            i <= template@.len(),
            rows@.len() == i,
            forall|a: int| 0 <= a < i ==> (#[trigger] rows@[a])@.len() == found@.len(),
            forall|a: int, j: int|
                0 <= a < i && 0 <= j < found@.len() ==> distance_outcome(
                    template@[a].color,
                    found@[j].color,
                    #[trigger] rows@[a]@[j],
                ),
        decreases template@.len() - i,
    {
        let mut row: Vec<Binary32> = Vec::new();
        let mut j: usize = 0;
        while j < found.len()
            invariant
                i < template@.len(),
                j <= found@.len(),
                row@.len() == j,
                forall|b: int|
                    0 <= b < j ==> distance_outcome(
                        template@[i as int].color,
                        found@[b].color,
                        #[trigger] row@[b],
                    ),
            decreases found@.len() - j,
        {
            let d = lab_distance_rgb(template[i].color, found[j].color);
            row.push(d);
            j = j + 1;
        }
        rows.push(row);
        i = i + 1;
    }
    rows
}

/// The clusters that the template's clusters take, by the choices.
fn take_clusters(template: &Vec<Cluster>, found: &Vec<Cluster>, picks: &Vec<Option<usize>>) -> (r:
    Vec<Cluster>)
    requires
        picks@.len() == template@.len(),
        forall|i: int|
            0 <= i < picks@.len() ==> (#[trigger] picks@[i] matches Some(j) ==> j < found@.len()),
    ensures
        r@ == matched_clusters(template@, found@, picks_of(picks@)),
{
    let mut r: Vec<Cluster> = Vec::new();
    let mut i: usize = 0;
    while i < template.len()
        invariant
            i <= template@.len(),
            picks@.len() == template@.len(),
            forall|a: int|
                0 <= a < picks@.len() ==> (#[trigger] picks@[a] matches Some(j) ==> j
                    < found@.len()),
            r@.len() == i,
            forall|a: int|
                0 <= a < i ==> #[trigger] r@[a] == matched_clusters(
                    template@,
                    found@,
                    picks_of(picks@),
                )[a],
        decreases template@.len() - i,
    {
        let taken: Cluster = match picks[i] {
            Some(j) => found[j],
            None => template[i],
        };
        r.push(taken);
        i = i + 1;
    }
    proof {
        assert(r@ =~= matched_clusters(template@, found@, picks_of(picks@)));
    }
    r
}

/// The colours that the template's clusters take, by the choices.
pub fn take_colors(template: &Vec<Cluster>, found: &Vec<Cluster>, picks: &Vec<Option<usize>>) -> (r:
    Vec<[u8; 3]>)
    requires
        picks@.len() == template@.len(),
        forall|i: int|
            0 <= i < picks@.len() ==> (#[trigger] picks@[i] matches Some(j) ==> j < found@.len()),
    ensures
        r@ == matched_colors(template@, found@, picks_of(picks@)),
{
    own_colors(&take_clusters(template, found, picks))
}

fn own_colors(template: &Vec<Cluster>) -> (r: Vec<[u8; 3]>)
    ensures
        r@ == colors_of(template@),
{
    let mut r: Vec<[u8; 3]> = Vec::new();
    let mut i: usize = 0;
    while i < template.len()
        invariant
            i <= template@.len(),
            r@.len() == i,
            forall|a: int| 0 <= a < i ==> #[trigger] r@[a] == template@[a].color,
        decreases template@.len() - i,
    {
        r.push(template[i].color);
        i = i + 1;
    }
    proof {
        assert(r@ =~= colors_of(template@));
    }
    r
}

/// The colours of the template's clusters in another frame.
fn colors_in_frame(template: &Vec<Cluster>, frame: &RgbPicture, k: usize) -> (r: Vec<[u8; 3]>)
    requires
        frame.wf(),
        k > 0,
    ensures
        r@.len() == template@.len(),
        sample_colors(template@, frame.data@, frame.width, frame.height, k as nat, r@),
{
    match extract_clusters(frame, k) {
        Err(_) => own_colors(template),
        Ok(found) => {
            let rows = measure(template, &found);
            proof {
                assert forall|i: int| 0 <= i < rows@.len() implies (#[trigger] rows@[i])@.len()
                    == found@.len() by {
                    assert(rows_of(rows@)[i] == rows@[i]@);
                }
            }
            let picks = match_nearest(&rows, found.len());
            let r = take_colors(template, &found, &picks);
            proof {
                assert(color_distances(template@, found@, rows_of(rows@)));
                assert(extracted(frame.data@, frame.width, frame.height, k as nat, found@));
            }
            r
        },
    }
}

/// Turns what the clusters are in each sample into the track of each cluster.
pub fn transpose<T: Copy>(columns: &Vec<Vec<T>>, clusters: usize) -> (r: Vec<Vec<T>>)
    requires
        forall|s: int| 0 <= s < columns@.len() ==> (#[trigger] columns@[s])@.len() == clusters,
    ensures
        r@.len() == clusters,
        forall|i: int| 0 <= i < clusters ==> (#[trigger] r@[i])@.len() == columns@.len(),
        forall|s: int|
            0 <= s < columns@.len() ==> #[trigger] track_column(r@, s) == columns@[s]@,
{
    let mut r: Vec<Vec<T>> = Vec::new();
    let mut i: usize = 0;
    while i < clusters
        invariant
            i <= clusters,
            r@.len() == i,
            forall|s: int| 0 <= s < columns@.len() ==> (#[trigger] columns@[s])@.len() == clusters,
            forall|a: int| 0 <= a < i ==> (#[trigger] r@[a])@.len() == columns@.len(),
            forall|a: int, s: int|
                0 <= a < i && 0 <= s < columns@.len() ==> #[trigger] r@[a]@[s] == columns@[s]@[a],
        decreases clusters - i,
    {
        let mut track: Vec<T> = Vec::new();
        let mut s: usize = 0;
        while s < columns.len()
            invariant
                i < clusters,
                s <= columns@.len(),
                track@.len() == s,
                forall|b: int|
                    0 <= b < columns@.len() ==> (#[trigger] columns@[b])@.len() == clusters,
                forall|b: int| 0 <= b < s ==> #[trigger] track@[b] == columns@[b]@[i as int],
            decreases columns@.len() - s,
        {
            let value: T = columns[s][i];
            track.push(value);
            s = s + 1;
        }
        r.push(track);
        i = i + 1;
    }
    proof {
        assert forall|s: int| 0 <= s < columns@.len() implies #[trigger] track_column(r@, s)
            == columns@[s]@ by {
            assert(track_column(r@, s) =~= columns@[s]@);
        }
    }
    r
}

/// Follows the colours of the first sample's clusters through the other samples.
pub fn build_color_tracks(samples: &Vec<VideoSample>, k: usize) -> (r: Result<
    ColorTracks,
    VideoInputError,
>)
    requires
        forall|s: int| 0 <= s < samples@.len() ==> (#[trigger] samples@[s]).frame.wf(),
    ensures
        if samples@.len() == 0 {
            r == Err::<ColorTracks, VideoInputError>(VideoInputError::NoFramesExtracted)
        } else if k == 0 {
            r == Err::<ColorTracks, VideoInputError>(VideoInputError::ZeroSamples)
        } else if samples@[0].frame.width == 0 || samples@[0].frame.height == 0 {
            r matches Err(VideoInputError::DurationProbeFailed { stderr }) && stderr@
                == ClusterError::EmptyImage.text()
        } else {
            &&& r matches Ok(t)
            &&& tracks_of_samples(samples@, k as nat, t)
            &&& 1 <= t.template_clusters@.len() <= k
            &&& clusters_within(t.template_clusters@)
            &&& whole_shared(t.template_clusters@)
        },
{
    if samples.len() == 0 {
        return Err(VideoInputError::NoFramesExtracted);
    }
    if k == 0 {
        return Err(VideoInputError::ZeroSamples);
    }
    let template: Vec<Cluster> = match extract_clusters(&samples[0].frame, k) {
        Err(e) => {
            return Err(VideoInputError::DurationProbeFailed { stderr: e.message() });
        },
        Ok(c) => c,
    };
    let mut columns: Vec<Vec<[u8; 3]>> = Vec::new();
    let mut times: Vec<Binary32> = Vec::new();
    columns.push(own_colors(&template));
    times.push(samples[0].t);
    let mut s: usize = 1;
    while s < samples.len()
        invariant
            1 <= s <= samples@.len(),
            k > 0,
            columns@.len() == s,
            columns@[0]@ == colors_of(template@),
            times@.len() == s,
            forall|a: int| 0 <= a < samples@.len() ==> (#[trigger] samples@[a]).frame.wf(),
            forall|a: int| 0 <= a < s ==> #[trigger] times@[a] == samples@[a].t,
            forall|a: int| 0 <= a < s ==> (#[trigger] columns@[a])@.len() == template@.len(),
            forall|a: int|
                0 < a < s ==> sample_colors(
                    template@,
                    samples@[a].frame.data@,
                    samples@[a].frame.width,
                    samples@[a].frame.height,
                    k as nat,
                    #[trigger] columns@[a]@,
                ),
        decreases samples@.len() - s,
    {
        let column = colors_in_frame(&template, &samples[s].frame, k);
        columns.push(column);
        times.push(samples[s].t);
        s = s + 1;
    }
    let tracks = transpose(&columns, template.len());
    let r = ColorTracks { template_clusters: template, tracks, sample_times: times };
    proof {
        assert(times@ =~= Seq::new(samples@.len(), |a: int| samples@[a].t));
        assert forall|a: int| 0 < a < samples@.len() implies sample_colors(
            template@,
            samples@[a].frame.data@,
            samples@[a].frame.width,
            samples@[a].frame.height,
            k as nat,
            #[trigger] track_column(r.tracks@, a),
        ) by {
            assert(track_column(r.tracks@, a) == columns@[a]@);
        }
        assert(track_column(r.tracks@, 0) == columns@[0]@);
    }
    Ok(r)
}

/// A track starts with the colour of its cluster, so a video of one sample keeps its
/// colours.
pub proof fn lemma_tracks_start_with_the_template(
    samples: Seq<VideoSample>,
    k: nat,
    t: ColorTracks,
    i: int,
)
    requires
        samples.len() > 0,
        tracks_of_samples(samples, k, t),
        0 <= i < t.template_clusters@.len(),
    ensures
        t.tracks@[i]@.len() == samples.len(),
        t.tracks@[i]@[0] == t.template_clusters@[i].color,
{
    assert(track_column(t.tracks@, 0)[i] == t.tracks@[i]@[0]);
    assert(colors_of(t.template_clusters@)[i] == t.template_clusters@[i].color);
}

/// Places, colours and weights of a video over time.
#[derive(Clone, Debug)]
pub struct KeyframeTracks {
    /// The clusters of the first keyframe.
    pub template_clusters: Vec<Cluster>,
    /// For each of them what it is at each keyframe.
    pub tracks: Vec<Vec<KeyframeClusterPoint>>,
}

/// A cluster at a keyframe.
pub open spec fn keyframe_point(c: Cluster, t: Binary32) -> KeyframeClusterPoint {
    KeyframeClusterPoint { color: c.color, centroid: c.centroid, weight: c.weight, time: t }
}

/// What the template's clusters are at a time: the clusters they take.
pub open spec fn matched_points(
    template: Seq<Cluster>,
    found: Seq<Cluster>,
    picks: Seq<Option<nat>>,
    t: Binary32,
) -> Seq<KeyframeClusterPoint> {
    own_points(matched_clusters(template, found, picks), t)
}

/// The template's clusters themselves at a time.
pub open spec fn own_points(template: Seq<Cluster>, t: Binary32) -> Seq<KeyframeClusterPoint> {
    Seq::new(template.len(), |i: int| keyframe_point(template[i], t))
}

/// Whether these are the template's clusters in another frame: the nearest clusters found
/// there, themselves in a frame without pixels.
pub open spec fn sample_points(
    template: Seq<Cluster>,
    sample: VideoSample,
    k: nat,
    points: Seq<KeyframeClusterPoint>,
) -> bool {
    let frame = sample.frame;
    if frame.width == 0 || frame.height == 0 {
        points == own_points(template, sample.t)
    } else {
        exists|found: Seq<Cluster>, rows: Seq<Seq<Binary32>>|
            {
                &&& #[trigger] extracted(frame.data@, frame.width, frame.height, k, found)
                &&& #[trigger] color_distances(template, found, rows)
                &&& points == matched_points(
                    template,
                    found,
                    greedy(rows, found.len(), template.len()).0,
                    sample.t,
                )
            }
    }
}

/// Whether these are keyframe tracks of samples.
pub open spec fn keyframes_of_samples(
    samples: Seq<VideoSample>,
    k: nat,
    t: KeyframeTracks,
) -> bool {
    let template = t.template_clusters@;
    let first = samples[0].frame;
    &&& extracted(first.data@, first.width, first.height, k, template)
    &&& t.tracks@.len() == template.len()
    &&& forall|i: int| 0 <= i < t.tracks@.len() ==> (#[trigger] t.tracks@[i])@.len() == samples.len()
    &&& track_column(t.tracks@, 0) == own_points(template, samples[0].t)
    &&& forall|s: int|
        0 < s < samples.len() ==> sample_points(
            template,
            samples[s],
            k,
            #[trigger] track_column(t.tracks@, s),
        )
}

fn to_point(c: &Cluster, t: Binary32) -> (r: KeyframeClusterPoint)
    ensures
        r == keyframe_point(*c, t),
{
    KeyframeClusterPoint { color: c.color, centroid: c.centroid, weight: c.weight, time: t }
}

/// What the template's clusters are at a time, by the choices.
pub fn take_points(
    template: &Vec<Cluster>,
    found: &Vec<Cluster>,
    picks: &Vec<Option<usize>>,
    t: Binary32,
) -> (r: Vec<KeyframeClusterPoint>)
    requires
        picks@.len() == template@.len(),
        forall|i: int|
            0 <= i < picks@.len() ==> (#[trigger] picks@[i] matches Some(j) ==> j < found@.len()),
    ensures
        r@ == matched_points(template@, found@, picks_of(picks@), t),
{
    points_themselves(&take_clusters(template, found, picks), t)
}

fn points_themselves(template: &Vec<Cluster>, t: Binary32) -> (r: Vec<KeyframeClusterPoint>)
    ensures
        r@ == own_points(template@, t),
{
    let mut r: Vec<KeyframeClusterPoint> = Vec::new();
    let mut i: usize = 0;
    while i < template.len()
        invariant
            i <= template@.len(),
            r@.len() == i,
            forall|a: int| 0 <= a < i ==> #[trigger] r@[a] == keyframe_point(template@[a], t),
        decreases template@.len() - i,
    {
        r.push(to_point(&template[i], t));
        i = i + 1;
    }
    proof {
        assert(r@ =~= own_points(template@, t));
    }
    r
}

/// The template's clusters in another sample.
fn points_in_sample(template: &Vec<Cluster>, sample: &VideoSample, k: usize) -> (r: Vec<
    KeyframeClusterPoint,
>)
    requires
        sample.frame.wf(),
        k > 0,
        clusters_within(template@),
    ensures
        r@.len() == template@.len(),
        sample_points(template@, *sample, k as nat, r@),
        points_within(r@),
{
    let frame = &sample.frame;
    match extract_clusters(frame, k) {
        Err(_) => {
            proof {
                lemma_own_points_within(template@, sample.t);
            }
            points_themselves(template, sample.t)
        },
        Ok(found) => {
            let rows = measure(template, &found);
            proof {
                assert forall|i: int| 0 <= i < rows@.len() implies (#[trigger] rows@[i])@.len()
                    == found@.len() by {
                    assert(rows_of(rows@)[i] == rows@[i]@);
                }
            }
            let picks = match_nearest(&rows, found.len());
            let r = take_points(template, &found, &picks, sample.t);
            proof {
                assert(color_distances(template@, found@, rows_of(rows@)));
                assert(extracted(frame.data@, frame.width, frame.height, k as nat, found@));
                assert forall|i: int| 0 <= i < r@.len() implies point_within(#[trigger] r@[i]) by {
                    assert(cluster_within(template@[i]));
                    assert(picks_of(picks@)[i] matches Some(j) ==> j < found@.len()) by {
                        assert(picks@[i] matches Some(j) ==> j < found@.len());
                    }
                    match picks_of(picks@)[i] {
                        Some(j) => assert(cluster_within(found@[j as int])),
                        None => {},
                    }
                }
            }
            r
        },
    }
}

/// A template's own points lie where its clusters do.
proof fn lemma_own_points_within(template: Seq<Cluster>, t: Binary32)
    requires
        clusters_within(template),
    ensures
        points_within(own_points(template, t)),
{
    let points = own_points(template, t);
    assert forall|i: int| 0 <= i < points.len() implies point_within(#[trigger] points[i]) by {
        assert(cluster_within(template[i]));
    }
}

/// Follows the first sample's clusters, with their places and weights, through the other
/// samples.
pub fn build_keyframe_tracks(samples: &Vec<VideoSample>, k: usize) -> (r: Result<
    KeyframeTracks,
    VideoInputError,
>)
    requires
        forall|s: int| 0 <= s < samples@.len() ==> (#[trigger] samples@[s]).frame.wf(),
    ensures
        if samples@.len() == 0 {
            r == Err::<KeyframeTracks, VideoInputError>(VideoInputError::NoFramesExtracted)
        } else if k == 0 {
            r == Err::<KeyframeTracks, VideoInputError>(VideoInputError::ZeroSamples)
        } else if samples@[0].frame.width == 0 || samples@[0].frame.height == 0 {
            r matches Err(VideoInputError::DurationProbeFailed { stderr }) && stderr@
                == ClusterError::EmptyImage.text()
        } else {
            &&& r matches Ok(t)
            &&& keyframes_of_samples(samples@, k as nat, t)
            &&& 1 <= t.template_clusters@.len() <= k
            &&& clusters_within(t.template_clusters@)
            &&& whole_shared(t.template_clusters@)
            &&& forall|i: int|
                0 <= i < t.tracks@.len() ==> points_within((#[trigger] t.tracks@[i])@)
        },
{
    if samples.len() == 0 {
        return Err(VideoInputError::NoFramesExtracted);
    }
    if k == 0 {
        return Err(VideoInputError::ZeroSamples);
    }
    let template: Vec<Cluster> = match extract_clusters(&samples[0].frame, k) {
        Err(e) => {
            return Err(VideoInputError::DurationProbeFailed { stderr: e.message() });
        },
        Ok(c) => c,
    };
    let mut columns: Vec<Vec<KeyframeClusterPoint>> = Vec::new();
    columns.push(points_themselves(&template, samples[0].t));
    proof {
        lemma_own_points_within(template@, samples@[0].t);
    }
    let mut s: usize = 1;
    while s < samples.len()
        invariant
            1 <= s <= samples@.len(),
            k > 0,
            columns@.len() == s,
            columns@[0]@ == own_points(template@, samples@[0].t),
            forall|a: int| 0 <= a < samples@.len() ==> (#[trigger] samples@[a]).frame.wf(),
            forall|a: int| 0 <= a < s ==> (#[trigger] columns@[a])@.len() == template@.len(),
            clusters_within(template@),
            forall|a: int| 0 <= a < s ==> points_within((#[trigger] columns@[a])@),
            forall|a: int|
                0 < a < s ==> sample_points(
                    template@,
                    samples@[a],
                    k as nat,
                    #[trigger] columns@[a]@,
                ),
        decreases samples@.len() - s,
    {
        let column = points_in_sample(&template, &samples[s], k);
        columns.push(column);
        s = s + 1;
    }
    let tracks = transpose(&columns, template.len());
    let r = KeyframeTracks { template_clusters: template, tracks };
    proof {
        assert forall|a: int| 0 < a < samples@.len() implies sample_points(
            template@,
            samples@[a],
            k as nat,
            #[trigger] track_column(r.tracks@, a),
        ) by {
            assert(track_column(r.tracks@, a) == columns@[a]@);
        }
        assert(track_column(r.tracks@, 0) == columns@[0]@);
        assert forall|i: int| 0 <= i < r.tracks@.len() implies points_within(
            (#[trigger] r.tracks@[i])@,
        ) by {
            let track = r.tracks@[i]@;
            assert forall|a: int| 0 <= a < track.len() implies point_within(#[trigger] track[a]) by {
                assert(track_column(r.tracks@, a) == columns@[a]@);
                assert(track_column(r.tracks@, a)[i] == track[a]);
                assert(points_within(columns@[a]@));
            }
        }
    }
    Ok(r)
}

/// A keyframe of a track has the time of its sample.
proof fn lemma_keyframe_times(
    samples: Seq<VideoSample>,
    k: nat,
    t: KeyframeTracks,
    i: int,
    s: int,
)
    requires
        keyframes_of_samples(samples, k, t),
        0 <= i < t.tracks@.len(),
        0 <= s < samples.len(),
    ensures
        t.tracks@[i]@[s].time == samples[s].t,
{
    let column = track_column(t.tracks@, s);
    assert(column[i] == t.tracks@[i]@[s]);
    if s > 0 {
        assert(sample_points(t.template_clusters@, samples[s], k, column));
    }
}

/// The tracks of samples that were taken in order pass through what each sample gave.
pub proof fn lemma_sampled_tracks_meet_their_samples(
    samples: Seq<VideoSample>,
    tried: nat,
    n: nat,
    k: nat,
    t: KeyframeTracks,
    i: int,
    s: nat,
)
    requires
        taken_in_order(samples, tried, n),
        tried <= n <= 0x80_0000,
        keyframes_of_samples(samples, k, t),
        0 <= i < t.tracks@.len(),
        s < samples.len(),
    ensures
        keyframe_at(t.tracks@[i]@, samples[s as int].t) == (
            t.tracks@[i]@[s as int].color@,
            t.tracks@[i]@[s as int].centroid,
            t.tracks@[i]@[s as int].weight,
        ),
{
    let track = t.tracks@[i]@;
    let order = choose|order: Seq<nat>| taken_from(samples, order, tried, n);
    assert(times_rise(track)) by {
        assert forall|a: int| 0 <= a < track.len() implies (#[trigger] track[a]).time.finite() by {
            lemma_keyframe_times(samples, k, t, i, a);
            assert(samples[a].t == sample_time(order[a], n));
            lemma_sample_time_within(order[a], n);
        }
        assert forall|a: int, b: int| 0 <= a < b < track.len() implies (#[trigger] track[a]).time.less(
            (#[trigger] track[b]).time,
        ) by {
            lemma_keyframe_times(samples, k, t, i, a);
            lemma_keyframe_times(samples, k, t, i, b);
            lemma_samples_rise(samples, tried, n, a, b);
        }
    }
    lemma_keyframe_times(samples, k, t, i, s as int);
    lemma_track_meets_its_keyframes(track, s);
}

} // verus!
