use orber::animate::AnimateOptions;
use orber::output_mode::OutputMode;
use orber::video::{
    calc_frame_count, encoder_args, frame_options, push_text, ProcessOutcome, VideoCodec,
    VideoError, VideoOptions, VideoRun, VideoStep, MAX_DURATION_MS,
};

fn invalid(duration_ms: u64) {
    match calc_frame_count(duration_ms) {
        Err(VideoError::InvalidDuration) => {}
        other => panic!("expected InvalidDuration for {duration_ms}, got {other:?}"),
    }
}

#[test]
fn frame_count_math() {
    assert_eq!(calc_frame_count(5000).unwrap(), 150);
    assert_eq!(calc_frame_count(1000).unwrap(), 30);
    invalid(999);
    invalid(33);
    invalid(0);
}

#[test]
fn frame_count_max_duration() {
    assert_eq!(calc_frame_count(MAX_DURATION_MS).unwrap(), 18_000);
    invalid(MAX_DURATION_MS + 1);
}

#[test]
fn frame_count_overflow_safe() {
    invalid(u64::MAX);
}

#[test]
fn codec_from_output_mode() {
    assert_eq!(VideoCodec::from_output_mode(OutputMode::Mp4), Some(VideoCodec::H264));
    assert_eq!(VideoCodec::from_output_mode(OutputMode::Webm), Some(VideoCodec::Vp9));
    assert_eq!(VideoCodec::from_output_mode(OutputMode::Png), None);
    assert_eq!(VideoCodec::from_output_mode(OutputMode::Webp), None);
    assert_eq!(VideoCodec::from_output_mode(OutputMode::Svg), None);
    assert_eq!(VideoCodec::from_output_mode(OutputMode::Css), None);
}

#[test]
fn video_error_display() {
    let msg = VideoError::FfmpegNotFound.message();
    assert!(msg.contains("ffmpeg"), "should mention ffmpeg: {msg}");
    assert!(msg.contains("install"), "should mention install: {msg}");
}

#[test]
fn video_options_default_matches_animate() {
    let v = VideoOptions::default();
    let a = AnimateOptions::default();
    assert_eq!(v.orb_size, a.orb_size);
    assert_eq!(v.blur, a.blur);
    assert_eq!(v.saturation, a.saturation);
    assert_eq!(v.direction, a.direction);
    assert_eq!(v.speed, a.speed);
    assert_eq!(v.seed, a.seed);
    assert_eq!(v.softness, a.softness);
}

#[test]
fn other_errors_are_told() {
    let failed =
        VideoError::FfmpegFailed { status: "exit status: 1".to_string(), stderr: "no".to_string() };
    assert_eq!(failed.message(), "ffmpeg failed with exit status: 1: no");
    assert_eq!(VideoError::Io("gone".to_string()).message(), "I/O error: gone");
    assert_eq!(VideoError::FrameSave("full".to_string()).message(), "failed to encode frame: full");
    assert_eq!(
        VideoError::InvalidDuration.message(),
        "duration_ms must be in 1000..=600000 (1s..=10min)"
    );
}

#[test]
fn a_run_writes_every_frame_and_then_encodes() {
    let mut run = VideoRun::start(1000, VideoCodec::Vp9).unwrap();
    assert_eq!(run.opening(), "orber: rendering 30 frames at 30fps...");
    assert_eq!(run.encoding(), "orber: invoking ffmpeg (Vp9)...");
    let mut reports = Vec::new();
    for i in 0..30usize {
        match run.next_step("p", "o") {
            VideoStep::Frame { index, t, file } => {
                assert_eq!(index, i);
                assert_eq!(f32::from_bits(t.bits), i as f32 / 30.0);
                assert_eq!(file, format!("frame_{i:05}.png"));
            }
            other => panic!("expected a frame, got {other:?}"),
        }
        if let Some(s) = run.frame_done(Ok(())).unwrap() {
            reports.push(s);
        }
    }
    assert_eq!(reports.len(), 9);
    assert_eq!(reports[0], "orber: 10% (3/30 frames)");
    assert_eq!(reports[8], "orber: 90% (27/30 frames)");
    match run.next_step("frame_%05d.png", "out.webm") {
        VideoStep::Encode { args } => assert_eq!(
            args,
            vec![
                "-y", "-loglevel", "error", "-framerate", "30", "-i", "frame_%05d.png", "-c:v",
                "libvpx-vp9", "-pix_fmt", "yuv420p", "-b:v", "0", "-crf", "32", "out.webm",
            ]
        ),
        other => panic!("expected the encoder, got {other:?}"),
    }
    assert!(matches!(
        run.encode_done(ProcessOutcome::Missing),
        Err(VideoError::FfmpegNotFound)
    ));
    assert!(matches!(
        run.encode_done(ProcessOutcome::Failed("x".to_string())),
        Err(VideoError::Io(_))
    ));
    let ended = |success: bool| ProcessOutcome::Exited {
        success,
        status: "s".to_string(),
        stderr: "e".to_string(),
    };
    assert!(matches!(run.encode_done(ended(false)), Err(VideoError::FfmpegFailed { .. })));
    assert!(run.encode_done(ended(true)).is_ok());
    assert!(matches!(run.next_step("p", "o"), VideoStep::Done));
}

#[test]
fn a_frame_that_fails_ends_the_run() {
    let mut run = VideoRun::start(1000, VideoCodec::H264).unwrap();
    match run.frame_done(Err("disk full".to_string())) {
        Err(VideoError::FrameSave(e)) => assert_eq!(e, "disk full"),
        other => panic!("expected FrameSave, got {other:?}"),
    }
    assert!(matches!(VideoRun::start(999, VideoCodec::H264), Err(VideoError::InvalidDuration)));
}

#[test]
fn encoder_arguments_of_mp4() {
    assert_eq!(
        encoder_args(VideoCodec::H264, "in", "out.mp4"),
        vec![
            "-y", "-loglevel", "error", "-framerate", "30", "-i", "in", "-c:v", "libx264",
            "-pix_fmt", "yuv420p", "-movflags", "+faststart", "out.mp4",
        ]
    );
}

#[test]
fn texts_are_appended() {
    let mut v = vec!["a".to_string()];
    push_text(&mut v, "b");
    assert_eq!(v, vec!["a", "b"]);
}

#[test]
fn frames_are_as_large_as_the_video() {
    let o = frame_options(VideoOptions { count: Some(7), ..VideoOptions::default() });
    assert_eq!((o.width, o.height), (1080, 1920));
    assert_eq!(o.count, Some(7));
    assert!(o.glyph_rotate);
}
