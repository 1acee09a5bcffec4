//! The command line: its values, what they may be, and what is to be done.

use crate::animate::{MotionDirection, MotionSpeed};
use crate::binary32::{Binary32, ONE};
use crate::glyph::{font_glyph, has_glyph, GlyphFontId};
use crate::orb::{AquarelleParams, OrbShape};
use crate::output_mode::{mode_of, OutputMode};
use crate::style::SoftnessPreset;
use crate::text::{decimal, digits, padded, push_decimal, push_padded, quote, quoted};
use crate::variations::VariationMode;
use crate::video::VideoCodec;
use crate::video_input::{is_video_path, path_extension, video_extension};
use vstd::prelude::*;
use vstd::string::*;

verus! {

/// `--direction`.
#[derive(Clone, Copy, Debug, PartialEq, Eq, Structural)]
pub enum CliDirection {
    /// Left to right.
    Lr,
    /// Right to left.
    Rl,
    /// Top to bottom.
    Tb,
    /// Bottom to top.
    Bt,
}

impl From<CliDirection> for MotionDirection {
    fn from(d: CliDirection) -> (r: MotionDirection) {
        match d {
            CliDirection::Lr => MotionDirection::LeftToRight,
            CliDirection::Rl => MotionDirection::RightToLeft,
            CliDirection::Tb => MotionDirection::TopToBottom,
            CliDirection::Bt => MotionDirection::BottomToTop,
        }
    }
}

impl vstd::std_specs::convert::FromSpecImpl<CliDirection> for MotionDirection {
    open spec fn obeys_from_spec() -> bool {
        true
    }

    open spec fn from_spec(d: CliDirection) -> MotionDirection {
        match d {
            CliDirection::Lr => MotionDirection::LeftToRight,
            CliDirection::Rl => MotionDirection::RightToLeft,
            CliDirection::Tb => MotionDirection::TopToBottom,
            CliDirection::Bt => MotionDirection::BottomToTop,
        }
    }
}

/// `--speed`.
#[derive(Clone, Copy, Debug, PartialEq, Eq, Structural)]
pub enum CliSpeed {
    VerySlow,
    Slow,
    Mid,
    Fast,
}

impl From<CliSpeed> for MotionSpeed {
    fn from(s: CliSpeed) -> (r: MotionSpeed) {
        match s {
            CliSpeed::VerySlow => MotionSpeed::VerySlow,
            CliSpeed::Slow => MotionSpeed::Slow,
            CliSpeed::Mid => MotionSpeed::Mid,
            CliSpeed::Fast => MotionSpeed::Fast,
        }
    }
}

impl vstd::std_specs::convert::FromSpecImpl<CliSpeed> for MotionSpeed {
    open spec fn obeys_from_spec() -> bool {
        true
    }

    open spec fn from_spec(s: CliSpeed) -> MotionSpeed {
        match s {
            CliSpeed::VerySlow => MotionSpeed::VerySlow,
            CliSpeed::Slow => MotionSpeed::Slow,
            CliSpeed::Mid => MotionSpeed::Mid,
            CliSpeed::Fast => MotionSpeed::Fast,
        }
    }
}

/// `--softness`.
#[derive(Clone, Copy, Debug, PartialEq, Eq, Structural)]
pub enum CliSoftness {
    Low,
    Mid,
    High,
}

impl From<CliSoftness> for SoftnessPreset {
    fn from(s: CliSoftness) -> (r: SoftnessPreset) {
        match s {
            CliSoftness::Low => SoftnessPreset::Low,
            CliSoftness::Mid => SoftnessPreset::Mid,
            CliSoftness::High => SoftnessPreset::High,
        }
    }
}

impl vstd::std_specs::convert::FromSpecImpl<CliSoftness> for SoftnessPreset {
    open spec fn obeys_from_spec() -> bool {
        true
    }

    open spec fn from_spec(s: CliSoftness) -> SoftnessPreset {
        match s {
            CliSoftness::Low => SoftnessPreset::Low,
            CliSoftness::Mid => SoftnessPreset::Mid,
            CliSoftness::High => SoftnessPreset::High,
        }
    }
}

/// `--count-preset`.
#[derive(Clone, Copy, Debug, PartialEq, Eq, Structural)]
pub enum CliCountPreset {
    Low,
    Mid,
    High,
}

impl CliCountPreset {
    pub open spec fn count(self) -> nat {
        match self {
            CliCountPreset::Low => 10,
            CliCountPreset::Mid => 20,
            CliCountPreset::High => 30,
        }
    }

    /// How many orbs the preset stands for.
    pub fn to_count(self) -> (r: usize)
        ensures
            r == self.count(),
    {
        match self {
            CliCountPreset::Low => 10,
            CliCountPreset::Mid => 20,
            CliCountPreset::High => 30,
        }
    }
}

/// `--input-mode`: what of a video is followed over time.
#[derive(Clone, Copy, Debug, PartialEq, Eq, Structural)]
pub enum CliInputMode {
    /// The colours.
    ColorTrack,
    /// Colours, places and weights, between keyframes.
    Keyframe,
}

/// `--variations-mode`.
#[derive(Clone, Copy, Debug, PartialEq, Eq, Structural)]
pub enum CliVariationMode {
    Still,
    Video,
    Mixed,
}

impl From<CliVariationMode> for VariationMode {
    fn from(m: CliVariationMode) -> (r: VariationMode) {
        match m {
            CliVariationMode::Still => VariationMode::Still,
            CliVariationMode::Video => VariationMode::Video,
            CliVariationMode::Mixed => VariationMode::Mixed,
        }
    }
}

impl vstd::std_specs::convert::FromSpecImpl<CliVariationMode> for VariationMode {
    open spec fn obeys_from_spec() -> bool {
        true
    }

    open spec fn from_spec(m: CliVariationMode) -> VariationMode {
        match m {
            CliVariationMode::Still => VariationMode::Still,
            CliVariationMode::Video => VariationMode::Video,
            CliVariationMode::Mixed => VariationMode::Mixed,
        }
    }
}

impl CliVariationMode {
    pub open spec fn name_text(self) -> Seq<char> {
        match self {
            CliVariationMode::Still => "Still"@,
            CliVariationMode::Video => "Video"@,
            CliVariationMode::Mixed => "Mixed"@,
        }
    }

    /// The name in messages.
    pub fn name(self) -> (r: &'static str)
        ensures
            r@ == self.name_text(),
    {
        match self {
            CliVariationMode::Still => "Still",
            CliVariationMode::Video => "Video",
            CliVariationMode::Mixed => "Mixed",
        }
    }
}

/// `--shape`.
#[derive(Clone, Copy, Debug, PartialEq, Eq, Structural)]
pub enum Shape {
    Circle,
    Aquarelle,
    Glyph,
    Image,
}

impl Shape {
    pub open spec fn name_text(self) -> Seq<char> {
        match self {
            Shape::Circle => "Circle"@,
            Shape::Aquarelle => "Aquarelle"@,
            Shape::Glyph => "Glyph"@,
            Shape::Image => "Image"@,
        }
    }

    /// The name in messages.
    pub fn name(self) -> (r: &'static str)
        ensures
            r@ == self.name_text(),
    {
        match self {
            Shape::Circle => "Circle",
            Shape::Aquarelle => "Aquarelle",
            Shape::Glyph => "Glyph",
            Shape::Image => "Image",
        }
    }
}

/// Reads `--glyph-char`: one character.
pub fn parse_single_char(s: &str) -> (r: Result<char, String>)
    ensures
        match r {
            Ok(c) => s@ == seq![c],
            Err(e) => {
                ||| s@.len() == 0 && e@ == "must be a single character (got empty)"@
                ||| s@.len() > 1 && e@ == "must be a single character (got "@ + decimal(s@.len())
                    + " chars in "@ + quoted(s@) + ")"@
            },
        },
{
    let n: usize = s.unicode_len();
    if n == 0 {
        return Err(String::from_str("must be a single character (got empty)"));
    }
    if n > 1 {
        let mut e = String::from_str("must be a single character (got ");
        push_decimal(&mut e, n as u64);
        e.append(" chars in ");
        let shown = quote(s);
        e.append(shown.as_str());
        e.append(")");
        return Err(e);
    }
    let c: char = s.get_char(0);
    assert(s@ =~= seq![c]);
    Ok(c)
}

/// Why a text is no natural number of the machine.
#[derive(Clone, Copy, Debug, PartialEq, Eq, Structural)]
pub enum NumberProblem {
    Empty,
    InvalidDigit,
    TooLarge,
}

impl NumberProblem {
    pub open spec fn text(self) -> Seq<char> {
        match self {
            NumberProblem::Empty => "cannot parse integer from empty string"@,
            NumberProblem::InvalidDigit => "invalid digit found in string"@,
            NumberProblem::TooLarge => "number too large to fit in target type"@,
        }
    }

    /// What to tell the user.
    pub fn message(self) -> (s: String)
        ensures
            s@ == self.text(),
    {
        match self {
            NumberProblem::Empty => String::from_str("cannot parse integer from empty string"),
            NumberProblem::InvalidDigit => String::from_str("invalid digit found in string"),
            NumberProblem::TooLarge => String::from_str("number too large to fit in target type"),
        }
    }
}

/// The number that the digits from `i` on make behind `so_far`; the first problem counts.
pub open spec fn number_from(s: Seq<char>, i: nat, so_far: nat, max: nat) -> Result<
    nat,
    NumberProblem,
>
    decreases s.len() - i,
{
    if i >= s.len() {
        Ok(so_far)
    } else if !('0' <= s[i as int] <= '9') {
        Err(NumberProblem::InvalidDigit)
    } else {
        let next = so_far * 10 + (s[i as int] as nat - '0' as nat) as nat;
        if next > max {
            Err(NumberProblem::TooLarge)
        } else {
            number_from(s, i + 1, next, max)
        }
    }
}

/// The natural number that a text stands for: digits, behind a plus sign if need be.
pub open spec fn number_in(s: Seq<char>, max: nat) -> Result<nat, NumberProblem> {
    if s.len() == 0 {
        Err(NumberProblem::Empty)
    } else if s[0] == '+' && s.len() > 1 {
        number_from(s, 1, 0, max)
    } else {
        number_from(s, 0, 0, max)
    }
}

/// Reads a natural number.
pub fn parse_number(s: &str) -> (r: Result<usize, NumberProblem>)
    ensures
        match r {
            Ok(n) => number_in(s@, usize::MAX as nat) == Ok::<nat, NumberProblem>(n as nat),
            Err(e) => number_in(s@, usize::MAX as nat) == Err::<nat, NumberProblem>(e),
        },
{
    let len: usize = s.unicode_len();
    if len == 0 {
        return Err(NumberProblem::Empty);
    }
    let mut i: usize = if len > 1 && s.get_char(0) == '+' {
        1
    } else {
        0
    };
    let mut n: usize = 0;
    while i < len
        invariant
            i <= len,
            len == s@.len(),
            number_from(s@, i as nat, n as nat, usize::MAX as nat) == number_in(
                s@,
                usize::MAX as nat,
            ),
        decreases len - i,
    {
        let c: char = s.get_char(i);
        if !('0' <= c && c <= '9') {
            return Err(NumberProblem::InvalidDigit);
        }
        let d: usize = c as usize - '0' as usize;
        if n > (usize::MAX - d) / 10 {
            assert(n * 10 + d > usize::MAX) by (nonlinear_arith)
                requires
                    n > (usize::MAX - d) / 10,
                    d <= 9,
            ;
            return Err(NumberProblem::TooLarge);
        }
        assert(n * 10 + d <= usize::MAX) by (nonlinear_arith)
            requires
                n <= (usize::MAX - d) / 10,
                d <= 9,
        ;
        n = n * 10 + d;
        i = i + 1;
    }
    Ok(n)
}

/// Reads `--variations`: at least one.
pub fn parse_variations_n(s: &str) -> (r: Result<usize, String>)
    ensures
        match number_in(s@, usize::MAX as nat) {
            Ok(n) => if n == 0 {
                r matches Err(e) && e@ == "must be >= 1 (use --variations N with N >= 1)"@
            } else {
                r matches Ok(v) && v == n
            },
            Err(p) => r matches Err(e) && e@ == p.text(),
        },
{
    match parse_number(s) {
        Err(p) => Err(p.message()),
        Ok(n) => {
            if n == 0 {
                Err(String::from_str("must be >= 1 (use --variations N with N >= 1)"))
            } else {
                Ok(n)
            }
        },
    }
}

/// Reads `--count`: 1 to 1024.
pub fn parse_count(s: &str) -> (r: Result<usize, String>)
    ensures
        match number_in(s@, usize::MAX as nat) {
            Ok(n) => if 1 <= n <= 1024 {
                r matches Ok(v) && v == n
            } else {
                r matches Err(e) && e@ == "must be in 1..=1024, got "@ + decimal(n)
            },
            Err(p) => r matches Err(e) && e@ == p.text(),
        },
{
    match parse_number(s) {
        Err(p) => Err(p.message()),
        Ok(n) => {
            if 1 <= n && n <= 1024 {
                Ok(n)
            } else {
                let mut e = String::from_str("must be in 1..=1024, got ");
                push_decimal(&mut e, n as u64);
                Err(e)
            }
        },
    }
}

/// The number that [`parse_single`] reads in a text, or the message where it reads none.
pub uninterp spec fn single_of(text: Seq<char>) -> Result<Binary32, Seq<char>>;

/// Whether two patterns stand for the same number, or both for none.
pub open spec fn same_single(x: Binary32, y: Binary32) -> bool {
    x == y || (x.nan_pattern() && y.nan_pattern())
}

/// The text that [`show_single`] gives.
pub uninterp spec fn shown(x: Binary32) -> Seq<char>;

/// `str::parse` to a single precision number, or the message of its error. The contract
/// claims that the text determines both; which pattern stands for a NaN is left open.
#[verifier::external_body]
fn parse_single(text: &str) -> (r: Result<Binary32, String>)
    ensures
        match r {
            Ok(x) => single_of(text@) matches Ok(y) && same_single(x, y),
            Err(e) => single_of(text@) == Err::<Binary32, Seq<char>>(e@),
        },
{
    let read = text.parse().map(|x| zeno::Vector::new(x, x));
    match read {
        Ok(v) => Ok(Binary32 { bits: v.x.to_bits() }),
        Err(e) => Err(e.to_string()),
    }
}

/// A single precision number as `{}` of std writes it. The contract claims that the text
/// depends on the number alone.
#[verifier::external_body]
fn show_single(x: Binary32) -> (r: String)
    ensures
        r@ == shown(x),
{
    let v = zeno::Vector::new(bytemuck::cast(x.bits), bytemuck::cast(0u32));
    format!("{}", v.x)
}

/// Whether a number may stand between two bounds, and what to tell the user otherwise.
pub open spec fn range_checked(v: Binary32, min: Binary32, max: Binary32, r: Result<Binary32, String>) -> bool {
    if !v.finite() {
        r matches Err(e) && e@ == "must be a finite number (not NaN/inf), got "@ + shown(v)
    } else if v.less(min) || max.less(v) {
        r matches Err(e) && e@ == "must be in "@ + shown(min) + "..="@ + shown(max) + ", got "@
            + shown(v)
    } else {
        r == Ok::<Binary32, String>(v)
    }
}

/// Admits a finite number between two bounds.
pub fn check_range(v: Binary32, min: Binary32, max: Binary32) -> (r: Result<Binary32, String>)
    ensures
        range_checked(v, min, max, r),
{
    if !v.is_finite() {
        let mut e = String::from_str("must be a finite number (not NaN/inf), got ");
        let got = show_single(v);
        e.append(got.as_str());
        return Err(e);
    }
    if v.lt(min) || max.lt(v) {
        let mut e = String::from_str("must be in ");
        let low = show_single(min);
        let high = show_single(max);
        let got = show_single(v);
        e.append(low.as_str());
        e.append("..=");
        e.append(high.as_str());
        e.append(", got ");
        e.append(got.as_str());
        return Err(e);
    }
    Ok(v)
}

/// Whether `r` is what a text comes to as a number between two bounds.
pub open spec fn range_read(text: Seq<char>, min: Binary32, max: Binary32, r: Result<Binary32, String>) -> bool {
    match single_of(text) {
        Err(message) => r matches Err(e) && e@ == message,
        Ok(y) => exists|v: Binary32| #[trigger]
            same_single(v, y) && range_checked(v, min, max, r),
    }
}

/// Reads a finite number between two bounds.
pub fn parse_f32_in_range(min: Binary32, max: Binary32, s: &str) -> (r: Result<Binary32, String>)
    ensures
        range_read(s@, min, max, r),
        r matches Ok(v) ==> v.finite() && !v.less(min) && !max.less(v),
{
    match parse_single(s) {
        Ok(v) => {
            let r = check_range(v, min, max);
            assert(same_single(v, single_of(s@)->Ok_0));
            r
        },
        Err(e) => Err(e),
    }
}

/// Reads `--orb-size`: 0 to 10.
pub fn parse_orb_size(s: &str) -> (r: Result<Binary32, String>)
    ensures
        range_read(s@, Binary32 { bits: 0 }, Binary32 { bits: 0x4120_0000 }, r),
{
    parse_f32_in_range(Binary32 { bits: 0 }, Binary32 { bits: 0x4120_0000 }, s)
}

/// Reads a number from 0 to 1.
pub fn parse_unit_interval(s: &str) -> (r: Result<Binary32, String>)
    ensures
        range_read(s@, Binary32 { bits: 0 }, Binary32 { bits: ONE }, r),
{
    parse_f32_in_range(Binary32 { bits: 0 }, Binary32 { bits: ONE }, s)
}

/// Reads `--saturation`: 0 to 4.
pub fn parse_saturation(s: &str) -> (r: Result<Binary32, String>)
    ensures
        range_read(s@, Binary32 { bits: 0 }, Binary32 { bits: 0x4080_0000 }, r),
{
    parse_f32_in_range(Binary32 { bits: 0 }, Binary32 { bits: 0x4080_0000 }, s)
}

/// The values of the command line.
#[derive(Clone, Debug)]
pub struct Cli {
    pub input: String,
    pub output: Option<String>,
    pub variations: Option<usize>,
    pub output_dir: Option<String>,
    pub variations_mode: CliVariationMode,
    pub seed: u64,
    pub orb_size: Binary32,
    pub blur: Binary32,
    pub direction: CliDirection,
    pub speed: CliSpeed,
    pub count: usize,
    pub count_preset: Option<CliCountPreset>,
    pub shape: Shape,
    pub glyph_char: char,
    pub image_mask: Option<String>,
    pub softness: CliSoftness,
    pub saturation: Binary32,
    pub duration_ms: u64,
    pub aquarelle_bleed: Binary32,
    pub aquarelle_bloom: Binary32,
    pub aquarelle_offset: Binary32,
    pub aquarelle_halo: Binary32,
    pub input_mode: CliInputMode,
    pub keyframes: u32,
}

/// The pattern of the number 0.5.
pub const HALF: u32 = 0x3f00_0000;

/// The fewest keyframes between which something can be interpolated.
pub const MIN_KEYFRAMES: u32 = 2;

/// Whether the input of a command line is a video.
pub open spec fn video_given(input: Seq<char>) -> bool {
    path_extension(input) matches Some(ext) && video_extension(ext)
}

/// The format of an output file.
pub open spec fn output_format(output: Seq<char>) -> Option<OutputMode> {
    match path_extension(output) {
        Some(ext) => mode_of(ext),
        None => None,
    }
}

/// What is to be done.
#[derive(Debug)]
pub enum Plan {
    /// Nothing: tell the user, and end with the code.
    Refuse { message: String, code: u8 },
    /// Write variations of a picture.
    Variations { n: usize },
    /// Read a video.
    VideoInput { output: String, mode: OutputMode },
    /// Write a video of a picture.
    Video { output: String, codec: VideoCodec },
    /// Write a still of a picture.
    Still { output: String },
    /// Write a style document of a picture.
    Style { output: String, mode: OutputMode },
}

/// Where the shape of the orbs comes from.
#[derive(Debug)]
pub enum ShapeSource {
    /// It is known.
    Known(OrbShape),
    /// It is the silhouette of the picture at this path.
    Mask(String),
}

/// What to tell the user of a keyframe mode without a video.
pub open spec fn keyframe_refusal(input: Seq<char>) -> Seq<char> {
    "orber: --input-mode keyframe requires video input (got still image: "@ + input + ")"@
}

/// What to tell the user of a format that is not written.
pub open spec fn format_refusal(mode: OutputMode) -> Seq<char> {
    "orber: output mode "@ + mode.name_text() + " is not yet implemented"@
}

/// What to tell the user of a file name that names no format.
pub open spec fn extension_refusal(output: Seq<char>) -> Seq<char> {
    "orber: cannot tell the output format of "@ + output
        + " (use .png, .webp, .mp4, .webm, .svg or .css)"@
}

/// Whether a plan refuses with these words.
pub open spec fn refuses(plan: Plan, words: Seq<char>, ends: u8) -> bool {
    plan matches Plan::Refuse { message, code } && message@ == words && code == ends
}

/// What is to be done where one output file is wanted.
pub open spec fn output_planned(input: Seq<char>, output: Seq<char>, plan: Plan) -> bool {
    match output_format(output) {
        None => refuses(plan, extension_refusal(output), 2),
        Some(m) => if video_given(input) {
            plan matches Plan::VideoInput { output: o, mode } && o@ == output && mode == m
        } else {
            match m {
                OutputMode::Mp4 => plan matches Plan::Video { output: o, codec } && o@ == output
                    && codec == VideoCodec::H264,
                OutputMode::Webm => plan matches Plan::Video { output: o, codec } && o@ == output
                    && codec == VideoCodec::Vp9,
                OutputMode::Png => plan matches Plan::Still { output: o } && o@ == output,
                OutputMode::Svg | OutputMode::Css => plan matches Plan::Style { output: o, mode }
                    && o@ == output && mode == m,
                OutputMode::Webp => refuses(plan, format_refusal(m), 1),
            }
        },
    }
}

impl Cli {
    /// The command line that names an input and nothing else.
    pub fn for_input(input: String) -> (r: Cli)
        ensures
            r.input@ == input@,
            r.output is None,
            r.variations is None,
            r.output_dir is None,
            r.variations_mode == CliVariationMode::Mixed,
            r.seed == 0,
            r.orb_size.bits == ONE,
            r.blur.bits == HALF,
            r.direction == CliDirection::Lr,
            r.speed == CliSpeed::Slow,
            r.count == 20,
            r.count_preset is None,
            r.shape == Shape::Circle,
            r.glyph_char == '\u{2606}',
            r.image_mask is None,
            r.softness == CliSoftness::Mid,
            r.saturation.bits == ONE,
            r.duration_ms == 5000,
            r.params() == (AquarelleParams {
                bleed: Binary32 { bits: HALF },
                bloom: Binary32 { bits: HALF },
                offset: Binary32 { bits: HALF },
                halo: Binary32 { bits: HALF },
            }),
            r.input_mode == CliInputMode::ColorTrack,
            r.keyframes == 8,
    {
        Cli {
            input,
            output: None,
            variations: None,
            output_dir: None,
            variations_mode: CliVariationMode::Mixed,
            seed: 0,
            orb_size: Binary32 { bits: ONE },
            blur: Binary32 { bits: HALF },
            direction: CliDirection::Lr,
            speed: CliSpeed::Slow,
            count: 20,
            count_preset: None,
            shape: Shape::Circle,
            glyph_char: '\u{2606}',
            image_mask: None,
            softness: CliSoftness::Mid,
            saturation: Binary32 { bits: ONE },
            duration_ms: 5000,
            aquarelle_bleed: Binary32 { bits: HALF },
            aquarelle_bloom: Binary32 { bits: HALF },
            aquarelle_offset: Binary32 { bits: HALF },
            aquarelle_halo: Binary32 { bits: HALF },
            input_mode: CliInputMode::ColorTrack,
            keyframes: 8,
        }
    }

    pub open spec fn params(self) -> AquarelleParams {
        AquarelleParams {
            bleed: self.aquarelle_bleed,
            bloom: self.aquarelle_bloom,
            offset: self.aquarelle_offset,
            halo: self.aquarelle_halo,
        }
    }

    /// The strengths of the watercolour textures.
    pub fn aquarelle_params(&self) -> (r: AquarelleParams)
        ensures
            r == self.params(),
    {
        AquarelleParams {
            bleed: self.aquarelle_bleed,
            bloom: self.aquarelle_bloom,
            offset: self.aquarelle_offset,
            halo: self.aquarelle_halo,
        }
    }

    pub open spec fn orbs(self) -> nat {
        match self.count_preset {
            Some(p) => p.count(),
            None => self.count as nat,
        }
    }

    /// How many orbs there are: the preset wins over the number.
    pub fn resolved_count(&self) -> (r: usize)
        ensures
            r == self.orbs(),
    {
        match self.count_preset {
            Some(p) => p.to_count(),
            None => self.count,
        }
    }

    /// The softness.
    pub fn resolved_softness(&self) -> (r: SoftnessPreset)
        ensures
            r == <SoftnessPreset as vstd::std_specs::convert::FromSpec<CliSoftness>>::from_spec(
                self.softness,
            ),
    {
        SoftnessPreset::from(self.softness)
    }

    /// Direction and speed.
    pub fn resolve_motion(&self) -> (r: (MotionDirection, MotionSpeed))
        ensures
            r.0 == <MotionDirection as vstd::std_specs::convert::FromSpec<CliDirection>>::from_spec(
                self.direction,
            ),
            r.1 == <MotionSpeed as vstd::std_specs::convert::FromSpec<CliSpeed>>::from_spec(
                self.speed,
            ),
    {
        (MotionDirection::from(self.direction), MotionSpeed::from(self.speed))
    }

    /// The shape of the orbs, or the picture whose silhouette it is.
    pub fn orb_shape(&self) -> (r: Result<ShapeSource, String>)
        ensures
            match self.shape {
                Shape::Circle => r == Ok::<ShapeSource, String>(ShapeSource::Known(OrbShape::Orb)),
                Shape::Aquarelle => r == Ok::<ShapeSource, String>(
                    ShapeSource::Known(OrbShape::Aquarelle(self.params())),
                ),
                Shape::Glyph => r == Ok::<ShapeSource, String>(
                    ShapeSource::Known(
                        OrbShape::Glyph { ch: self.glyph_char, font: GlyphFontId::NotoSymbols2 },
                    ),
                ),
                Shape::Image => match self.image_mask {
                    Some(path) => r matches Ok(ShapeSource::Mask(p)) && p@ == path@,
                    None => r matches Err(e) && e@
                        == "--shape image requires --image-mask PATH (the silhouette image; --input is the color source, --image-mask is the shape source)"@,
                },
            },
    {
        match self.shape {
            Shape::Circle => Ok(ShapeSource::Known(OrbShape::Orb)),
            Shape::Aquarelle => Ok(ShapeSource::Known(OrbShape::Aquarelle(self.aquarelle_params()))),
            Shape::Glyph => Ok(
                ShapeSource::Known(
                    OrbShape::Glyph { ch: self.glyph_char, font: GlyphFontId::NotoSymbols2 },
                ),
            ),
            Shape::Image => match &self.image_mask {
                Some(path) => Ok(ShapeSource::Mask(String::from_str(path.as_str()))),
                None => Err(
                    String::from_str(
                        "--shape image requires --image-mask PATH (the silhouette image; --input is the color source, --image-mask is the shape source)",
                    ),
                ),
            },
        }
    }

    /// What is to be done. A mode that the input does not admit is refused before
    /// anything else.
    pub fn plan(&self) -> (r: Plan)
        ensures
            if self.input_mode == CliInputMode::Keyframe && !video_given(self.input@) {
                refuses(r, keyframe_refusal(self.input@), 2)
            } else {
                match self.variations {
                    Some(k) => if video_given(self.input@) {
                        refuses(
                            r,
                            "orber: --variations is not supported with video input; use --output FILE.mp4 / .webm / .png instead"@,
                            2,
                        )
                    } else {
                        r matches Plan::Variations { n } && n == k
                    },
                    None => match self.output {
                        None => refuses(
                            r,
                            "orber: either --output FILE or --variations N --output-dir DIR is required"@,
                            2,
                        ),
                        Some(output) => output_planned(self.input@, output@, r),
                    },
                }
            },
    {
        let video: bool = is_video_path(self.input.as_str());
        if self.input_mode == CliInputMode::Keyframe && !video {
            let mut message = String::from_str(
                "orber: --input-mode keyframe requires video input (got still image: ",
            );
            message.append(self.input.as_str());
            message.append(")");
            return Plan::Refuse { message, code: 2 };
        }
        if let Some(n) = self.variations {
            if video {
                return Plan::Refuse {
                    message: String::from_str(
                        "orber: --variations is not supported with video input; use --output FILE.mp4 / .webm / .png instead",
                    ),
                    code: 2,
                };
            }
            return Plan::Variations { n };
        }
        match &self.output {
            None => Plan::Refuse {
                message: String::from_str(
                    "orber: either --output FILE or --variations N --output-dir DIR is required",
                ),
                code: 2,
            },
            Some(output) => plan_output(video, output),
        }
    }

    /// How many keyframes are sampled.
    pub fn keyframe_count(&self) -> (r: usize)
        ensures
            r == if self.keyframes < MIN_KEYFRAMES {
                MIN_KEYFRAMES
            } else {
                self.keyframes
            },
    {
        if self.keyframes < MIN_KEYFRAMES {
            MIN_KEYFRAMES as usize
        } else {
            self.keyframes as usize
        }
    }

    /// What to tell the user where there are too few keyframes.
    pub fn keyframe_warning(&self) -> (r: Option<String>)
        ensures
            match r {
                Some(s) => self.keyframes < MIN_KEYFRAMES && s@ == "orber: warning: --keyframes "@
                    + decimal(self.keyframes as nat)
                    + " is too few, clamping to 2 (need at least 2 to interpolate)"@,
                None => self.keyframes >= MIN_KEYFRAMES,
            },
    {
        if self.keyframes >= MIN_KEYFRAMES {
            return None;
        }
        let mut s = String::from_str("orber: warning: --keyframes ");
        push_decimal(&mut s, self.keyframes as u64);
        s.append(" is too few, clamping to 2 (need at least 2 to interpolate)");
        Some(s)
    }

    /// What to tell the user where the number of orbs has no effect.
    pub fn warn_if_aquarelle_count_ignored(&self) -> (r: Option<String>)
        ensures
            match r {
                Some(s) => self.shape == Shape::Aquarelle && s@
                    == "orber: warning: aquarelle shape ignores --count (rendering one orb per k-means cluster from the palette)"@,
                None => self.shape != Shape::Aquarelle,
            },
    {
        if self.shape == Shape::Aquarelle {
            Some(
                String::from_str(
                    "orber: warning: aquarelle shape ignores --count (rendering one orb per k-means cluster from the palette)",
                ),
            )
        } else {
            None
        }
    }

    /// What to tell the user where the shape has no effect on a style document.
    pub fn warn_if_shape_ignored(&self, mode: OutputMode) -> (r: Option<String>)
        ensures
            match r {
                Some(s) => self.shape != Shape::Circle && s@ == "orber: warning: --shape "@
                    + self.shape.name_text() + " is ignored for "@ + mode.name_text()
                    + " output (SVG/CSS render circles only); use a PNG or video output to apply the orb shape"@,
                None => self.shape == Shape::Circle,
            },
    {
        if self.shape == Shape::Circle {
            return None;
        }
        let mut s = String::from_str("orber: warning: --shape ");
        s.append(self.shape.name());
        s.append(" is ignored for ");
        s.append(mode.name());
        s.append(
            " output (SVG/CSS render circles only); use a PNG or video output to apply the orb shape",
        );
        Some(s)
    }

    /// What to tell the user where the font has no glyph for the character.
    pub fn warn_if_glyph_char_unsupported(&self, font: &[u8]) -> (r: Option<String>)
        ensures
            match r {
                Some(s) => self.shape == Shape::Glyph && font_glyph(font@, self.glyph_char) is None
                    && s@ == glyph_warning(self.glyph_char),
                None => self.shape != Shape::Glyph || font_glyph(font@, self.glyph_char) is Some,
            },
    {
        if self.shape != Shape::Glyph {
            return None;
        }
        warn_of_glyph(self.glyph_char, has_glyph(font, self.glyph_char))
    }
}

/// What to tell the user of a character without a glyph.
pub open spec fn glyph_warning(ch: char) -> Seq<char> {
    "orber: warning: '"@ + seq![ch] + "' (U+"@ + padded(digits(ch as nat, 16), 4)
        + ") は同梱フォントに収録されていません。Glyph 描画はスキップされます。"@
}

/// What to tell the user of a character, by whether there is a glyph for it.
pub fn warn_of_glyph(ch: char, known: bool) -> (r: Option<String>)
    ensures
        match r {
            Some(s) => !known && s@ == glyph_warning(ch),
            None => known,
        },
{
    if known {
        return None;
    }
    let mut s = String::from_str("orber: warning: '");
    s.push(ch);
    s.append("' (U+");
    push_padded(&mut s, ch as u32 as u64, 16, 4);
    s.append(") は同梱フォントに収録されていません。Glyph 描画はスキップされます。");
    proof {
        assert(s@ =~= glyph_warning(ch));
    }
    Some(s)
}

fn plan_output(video: bool, output: &String) -> (r: Plan)
    ensures
        forall|input: Seq<char>|
            video == #[trigger] video_given(input) ==> output_planned(input, output@, r),
{
    let mode: OutputMode = match OutputMode::from_path(output.as_str()) {
        Some(m) => m,
        None => {
            let mut message = String::from_str("orber: cannot tell the output format of ");
            message.append(output.as_str());
            message.append(" (use .png, .webp, .mp4, .webm, .svg or .css)");
            return Plan::Refuse { message, code: 2 };
        },
    };
    let name = String::from_str(output.as_str());
    if video {
        return Plan::VideoInput { output: name, mode };
    }
    if let Some(codec) = VideoCodec::from_output_mode(mode) {
        return Plan::Video { output: name, codec };
    }
    match mode {
        OutputMode::Png => Plan::Still { output: name },
        OutputMode::Svg => Plan::Style { output: name, mode },
        OutputMode::Css => Plan::Style { output: name, mode },
        _ => {
            let mut message = String::from_str("orber: output mode ");
            message.append(mode.name());
            message.append(" is not yet implemented");
            Plan::Refuse { message, code: 1 }
        },
    }
}

} // verus!
