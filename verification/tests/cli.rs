use orber::animate::{AnimateOptions, MotionDirection, MotionSpeed};
use orber::binary32::Binary32;
use orber::cli::{
    check_range, parse_count, parse_f32_in_range, parse_number, parse_orb_size, parse_saturation,
    parse_single_char, parse_unit_interval, parse_variations_n, warn_of_glyph, Cli,
    CliCountPreset, CliDirection, CliInputMode, CliSoftness, CliSpeed, CliVariationMode,
    NumberProblem, Plan, Shape, ShapeSource,
};
use orber::glyph::DEFAULT_GLYPH_SDF_SIZE;
use orber::orb::{OrbShape, RenderOptions};
use orber::output_mode::OutputMode;
use orber::picture::RgbaPicture;
use orber::scene::image_shape;
use orber::style::SoftnessPreset;
use orber::variations::VariationMode;
use orber::video::{calc_frame_count, VideoCodec, MAX_DURATION_MS};

fn b(x: f32) -> Binary32 {
    Binary32::from_bits(x.to_bits())
}

fn cli(input: &str) -> Cli {
    Cli::for_input(input.to_string())
}

fn cli_out(input: &str, output: &str) -> Cli {
    Cli { output: Some(output.to_string()), ..cli(input) }
}

#[test]
fn cli_defaults_match_render_options_defaults() {
    let cli = cli_out("x", "x.png");
    let defaults = RenderOptions::default();
    assert_eq!(cli.orb_size, defaults.orb_size, "orb_size default mismatch");
    assert_eq!(cli.blur, defaults.blur, "blur default mismatch");
    assert_eq!(cli.saturation, defaults.saturation, "saturation default mismatch");
}

#[test]
fn cli_defaults_match_animate_options_defaults() {
    let cli = cli_out("x", "x.mp4");
    let a = AnimateOptions::default();
    let (direction, speed) = cli.resolve_motion();
    assert_eq!(direction, a.direction, "direction default mismatch");
    assert_eq!(speed, a.speed, "speed default mismatch");
    assert_eq!(cli.orb_size, a.orb_size, "orb_size default mismatch");
    assert_eq!(cli.blur, a.blur, "blur default mismatch");
    assert_eq!(cli.saturation, a.saturation, "saturation default mismatch");
    assert!(cli.duration_ms > 0, "duration_ms default must be > 0");
    assert!(cli.duration_ms <= MAX_DURATION_MS, "got {}", cli.duration_ms);
}

#[test]
fn parse_f32_in_range_helper() {
    let p = |s: &str| parse_f32_in_range(b(0.0), b(1.0), s);
    assert_eq!(p("0.0").unwrap(), b(0.0));
    assert_eq!(p("1.0").unwrap(), b(1.0));
    assert!(p("1.5").is_err(), "above max should error");
    assert!(p("-0.1").is_err(), "below min should error");
    assert!(p("NaN").is_err(), "NaN should error");
    assert!(p("inf").is_err(), "inf should error");
    assert!(p("xyz").is_err(), "non-numeric should error");
    assert_eq!(p("1.5").unwrap_err(), "must be in 0..=1, got 1.5");
    assert_eq!(p("inf").unwrap_err(), "must be a finite number (not NaN/inf), got inf");
    assert_eq!(p("xyz").unwrap_err(), "xyz".parse::<f32>().unwrap_err().to_string());
    assert_eq!(p("").unwrap_err(), "".parse::<f32>().unwrap_err().to_string());
}

#[test]
fn blur_out_of_range_rejected() {
    assert!(parse_unit_interval("1.5").is_err());
    assert!(parse_unit_interval("-0.1").is_err());
    assert!(parse_unit_interval("NaN").is_err());
    assert_eq!(parse_unit_interval("0.5"), Ok(b(0.5)));
}

#[test]
fn orb_size_out_of_range_rejected() {
    assert!(parse_orb_size("20.0").is_err());
    assert!(parse_orb_size("-1.0").is_err());
    assert_eq!(parse_orb_size("1.5"), Ok(b(1.5)));
}

#[test]
fn saturation_out_of_range_rejected() {
    assert!(parse_saturation("5.0").is_err());
    assert!(parse_saturation("-0.1").is_err());
    assert!(parse_saturation("1.0").is_ok());
    assert!(parse_saturation("0.0").is_ok());
}

#[test]
fn duration_ms_out_of_range_rejected() {
    assert!(calc_frame_count(999).is_err());
    assert!(calc_frame_count(600_001).is_err());
    assert!(calc_frame_count(1000).is_ok());
    assert!(calc_frame_count(600_000).is_ok());
}

#[test]
fn count_out_of_range_rejected() {
    assert!(parse_count("0").is_err());
    assert!(parse_count("1025").is_err());
    assert!(parse_count("abc").is_err());
    assert_eq!(parse_count("1"), Ok(1));
    assert_eq!(parse_count("20"), Ok(20));
    assert_eq!(parse_count("1024"), Ok(1024));
    assert_eq!(parse_count("1025").unwrap_err(), "must be in 1..=1024, got 1025");
}

#[test]
fn count_default_is_twenty() {
    assert_eq!(cli_out("x", "x.png").count, 20);
}

#[test]
fn shape_glyph_with_default_char() {
    let cli = Cli { shape: Shape::Glyph, ..cli_out("x", "x.png") };
    assert_eq!(cli.glyph_char, '\u{2606}');
    match cli.orb_shape() {
        Ok(ShapeSource::Known(OrbShape::Glyph { ch, .. })) => assert_eq!(ch, '\u{2606}'),
        other => panic!("expected a glyph, got {other:?}"),
    }
}

#[test]
fn shape_image_without_mask_errors_not_panics() {
    let cli = Cli { shape: Shape::Image, ..cli_out("x", "x.png") };
    let result = cli.orb_shape();
    assert!(result.is_err(), "must be an explicit Err, got {result:?}");
    assert!(result.unwrap_err().starts_with("--shape image requires --image-mask PATH"));
}

/// The shape that the options give, its picture read as the program reads it.
fn resolve(cli: &Cli) -> Result<OrbShape, String> {
    match cli.orb_shape()? {
        ShapeSource::Known(shape) => Ok(shape),
        ShapeSource::Mask(path) => {
            let img = image::open(&path).map_err(|e| e.to_string())?.to_rgba8();
            let (width, height) = img.dimensions();
            image_shape(&RgbaPicture { width, height, data: img.into_raw() }, &path)
        }
    }
}

fn masked(path: &str) -> Cli {
    Cli {
        shape: Shape::Image,
        image_mask: Some(path.to_string()),
        ..cli_out("x", "x.png")
    }
}

#[test]
fn shape_image_with_unreadable_mask_errors_not_panics() {
    assert!(resolve(&masked("/nonexistent/definitely/not/here.png")).is_err());
}

#[test]
fn shape_image_with_valid_mask_resolves_to_image() {
    let dir = tempfile::TempDir::new().expect("tempdir");
    let mask_path = dir.path().join("silhouette.png");
    let mut img = image::RgbaImage::from_pixel(64, 64, image::Rgba([0, 0, 0, 0]));
    for y in 18..46 {
        for x in 18..46 {
            img.put_pixel(x, y, image::Rgba([255, 255, 255, 255]));
        }
    }
    img.save(&mask_path).expect("write mask png");
    match resolve(&masked(mask_path.to_str().unwrap())) {
        Ok(OrbShape::Image { size, sdf }) => {
            assert_eq!(size, DEFAULT_GLYPH_SDF_SIZE);
            assert_eq!(sdf.len(), (size as usize) * (size as usize));
            assert!(sdf[128 * 256 + 128] > 128, "the middle lies inside");
            assert!(sdf[0] < 128, "the corner lies outside");
        }
        other => panic!("expected a silhouette, got {other:?}"),
    }
}

#[test]
fn shape_image_with_no_contrast_mask_errors() {
    let dir = tempfile::TempDir::new().expect("tempdir");
    let mask_path = dir.path().join("flat.png");
    let img = image::RgbaImage::from_pixel(64, 64, image::Rgba([100, 100, 100, 255]));
    img.save(&mask_path).expect("write flat png");
    let path = mask_path.to_str().unwrap();
    let e = resolve(&masked(path)).expect_err("flat single-color mask has no contrast");
    assert!(e.starts_with(&format!("--image-mask {path} has no usable silhouette contrast")));
}

#[test]
fn glyph_char_rejects_multi_char() {
    assert!(parse_single_char("abc").is_err());
    assert!(parse_single_char("").is_err());
    assert_eq!(parse_single_char("a"), Ok('a'));
    assert_eq!(parse_single_char("\u{266a}"), Ok('\u{266a}'));
    assert_eq!(
        parse_single_char("a\"c").unwrap_err(),
        format!("must be a single character (got 3 chars in {:?})", "a\"c")
    );
    assert_eq!(parse_single_char("").unwrap_err(), "must be a single character (got empty)");
}

#[test]
fn count_preset_resolves_to_table() {
    let with = |p: Option<CliCountPreset>| Cli { count_preset: p, ..cli_out("x", "x.png") };
    assert_eq!(with(None).resolved_count(), 20);
    assert_eq!(with(Some(CliCountPreset::Low)).resolved_count(), 10);
    assert_eq!(with(Some(CliCountPreset::Mid)).resolved_count(), 20);
    assert_eq!(with(Some(CliCountPreset::High)).resolved_count(), 30);
    let both = Cli { count: 77, ..with(Some(CliCountPreset::Low)) };
    assert_eq!(both.resolved_count(), 10);
}

#[test]
fn speed_mid_and_fast_parse() {
    let mid = Cli { speed: CliSpeed::Mid, ..cli_out("x", "x.png") };
    assert_eq!(mid.resolve_motion().1, MotionSpeed::Mid);
    assert_eq!(MotionSpeed::from(CliSpeed::Fast), MotionSpeed::Fast);
    assert_eq!(MotionSpeed::from(CliSpeed::VerySlow), MotionSpeed::VerySlow);
    assert_eq!(MotionSpeed::from(CliSpeed::Slow), MotionSpeed::Slow);
}

#[test]
fn softness_default_is_mid() {
    let cli = cli_out("x", "x.png");
    assert!(matches!(cli.softness, CliSoftness::Mid));
    assert_eq!(cli.resolved_softness(), SoftnessPreset::Mid);
}

#[test]
fn softness_low_high_parse() {
    let low = Cli { softness: CliSoftness::Low, ..cli_out("x", "x.png") };
    assert_eq!(low.resolved_softness(), SoftnessPreset::Low);
    let high = Cli { softness: CliSoftness::High, ..cli_out("x", "x.png") };
    assert_eq!(high.resolved_softness(), SoftnessPreset::High);
}

#[test]
fn aquarelle_params_out_of_range_rejected() {
    assert!(parse_unit_interval("1.5").is_err());
    assert!(parse_unit_interval("-0.1").is_err());
    assert_eq!(parse_unit_interval("0.7"), Ok(b(0.7)));
    assert_eq!(parse_unit_interval("0.0"), Ok(b(0.0)));
    let cli = Cli { shape: Shape::Aquarelle, aquarelle_halo: b(0.25), ..cli("x") };
    match cli.orb_shape() {
        Ok(ShapeSource::Known(OrbShape::Aquarelle(p))) => {
            assert_eq!((p.bleed, p.bloom, p.offset, p.halo), (b(0.5), b(0.5), b(0.5), b(0.25)))
        }
        other => panic!("expected the watercolour shape, got {other:?}"),
    }
}

#[test]
fn numbers_are_read_as_std_reads_them() {
    for s in [
        "0", "12", "+7", "-1", "", "+", "12a", " 1", "18446744073709551615",
        "18446744073709551616", "00000000000000000000000000042", "\u{661}",
    ] {
        match (parse_number(s), s.parse::<usize>()) {
            (Ok(a), Ok(c)) => assert_eq!(a, c, "{s:?}"),
            (Err(e), Err(c)) => assert_eq!(e.message(), c.to_string(), "{s:?}"),
            other => panic!("{s:?}: {other:?}"),
        }
    }
    assert_eq!(parse_number(""), Err(NumberProblem::Empty));
    assert_eq!(parse_number("x"), Err(NumberProblem::InvalidDigit));
    assert_eq!(parse_number("99999999999999999999999"), Err(NumberProblem::TooLarge));
}

#[test]
fn one_variation_at_least() {
    assert_eq!(parse_variations_n("3"), Ok(3));
    assert_eq!(
        parse_variations_n("0").unwrap_err(),
        "must be >= 1 (use --variations N with N >= 1)"
    );
    assert_eq!(parse_variations_n("x").unwrap_err(), "invalid digit found in string");
}

#[test]
fn numbers_are_shown_as_std_shows_them() {
    for (x, low, high) in [(1e10f32, 0.1f32, 3.25f32), (-0.0625, 0.5, 1e-7), (16777216.0, 0.0, 2.5)] {
        assert_eq!(
            check_range(b(x), b(low), b(high)).unwrap_err(),
            format!("must be in {low}..={high}, got {x}")
        );
    }
}

#[test]
fn directions_and_modes_are_named() {
    assert_eq!(MotionDirection::from(CliDirection::Lr), MotionDirection::LeftToRight);
    assert_eq!(MotionDirection::from(CliDirection::Rl), MotionDirection::RightToLeft);
    assert_eq!(MotionDirection::from(CliDirection::Tb), MotionDirection::TopToBottom);
    assert_eq!(MotionDirection::from(CliDirection::Bt), MotionDirection::BottomToTop);
    assert_eq!(VariationMode::from(CliVariationMode::Still), VariationMode::Still);
    assert_eq!(CliVariationMode::Video.name(), "Video");
    assert_eq!(Shape::Image.name(), "Image");
}

fn refusal(plan: Plan) -> (String, u8) {
    match plan {
        Plan::Refuse { message, code } => (message, code),
        other => panic!("expected a refusal, got {other:?}"),
    }
}

#[test]
fn what_is_done_follows_the_options() {
    assert!(matches!(cli_out("a.jpg", "o.png").plan(), Plan::Still { .. }));
    match cli_out("a.jpg", "o.webm").plan() {
        Plan::Video { output, codec } => {
            assert_eq!((output.as_str(), codec), ("o.webm", VideoCodec::Vp9))
        }
        other => panic!("expected a video, got {other:?}"),
    }
    match cli_out("a.jpg", "dir/O.CSS").plan() {
        Plan::Style { output, mode } => {
            assert_eq!((output.as_str(), mode), ("dir/O.CSS", OutputMode::Css))
        }
        other => panic!("expected a style, got {other:?}"),
    }
    assert!(matches!(
        cli_out("a.mov", "o.svg").plan(),
        Plan::VideoInput { mode: OutputMode::Svg, .. }
    ));
    let many = Cli { variations: Some(4), ..cli("a.jpg") };
    assert!(matches!(many.plan(), Plan::Variations { n: 4 }));
}

#[test]
fn what_cannot_be_done_is_refused() {
    assert_eq!(
        refusal(cli("a.jpg").plan()),
        (
            "orber: either --output FILE or --variations N --output-dir DIR is required".to_string(),
            2
        )
    );
    assert_eq!(
        refusal(cli_out("a.jpg", "o.webp").plan()),
        ("orber: output mode Webp is not yet implemented".to_string(), 1)
    );
    let (message, code) = refusal(cli_out("a.jpg", "o.txt").plan());
    assert!(message.contains("o.txt"));
    assert_eq!(code, 2);
    let keyed = Cli { input_mode: CliInputMode::Keyframe, ..cli_out("a.jpg", "o.mp4") };
    assert_eq!(
        refusal(keyed.plan()),
        (
            "orber: --input-mode keyframe requires video input (got still image: a.jpg)".to_string(),
            2
        )
    );
    let varied = Cli { variations: Some(2), ..cli("a.mp4") };
    assert!(refusal(varied.plan()).0.contains("--variations is not supported with video input"));
}

#[test]
fn users_are_warned() {
    let plain = cli("a.jpg");
    assert_eq!(plain.warn_if_aquarelle_count_ignored(), None);
    assert_eq!(plain.warn_if_shape_ignored(OutputMode::Svg), None);
    assert_eq!(plain.warn_if_glyph_char_unsupported(&[]), None);
    assert_eq!((plain.keyframe_count(), plain.keyframe_warning()), (8, None));
    let aqua = Cli { shape: Shape::Aquarelle, ..cli("a.jpg") };
    assert!(aqua.warn_if_aquarelle_count_ignored().unwrap().contains("ignores --count"));
    assert!(aqua
        .warn_if_shape_ignored(OutputMode::Css)
        .unwrap()
        .starts_with("orber: warning: --shape Aquarelle is ignored for Css output"));
    let glyph = Cli { shape: Shape::Glyph, glyph_char: '\u{1f600}', ..cli("a.jpg") };
    let text = glyph.warn_if_glyph_char_unsupported(b"no font").unwrap();
    assert!(text.starts_with("orber: warning: '\u{1f600}' (U+1F600)"), "{text}");
    assert_eq!(warn_of_glyph('x', true), None);
    assert!(warn_of_glyph('\u{e9}', false).unwrap().contains("(U+00E9)"));
    let few = Cli { keyframes: 1, ..cli("a.mp4") };
    assert_eq!(few.keyframe_count(), 2);
    assert_eq!(
        few.keyframe_warning().unwrap(),
        "orber: warning: --keyframes 1 is too few, clamping to 2 (need at least 2 to interpolate)"
    );
}
