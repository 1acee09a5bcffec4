use orber::binary32::Binary32;
use orber::binary64::Binary64;
use orber::cluster::{Centroid, Cluster, LabColor};
use orber::fixed::{fixed_six, push_doubled};
use orber::keyframe_track::interpolate_keyframe_track;
use orber::lab::{lab_distance, lab_distance_rgb, linear_to_ratios, roots_to_lab};
use orber::matching::match_nearest;
use orber::picture::RgbPicture;
use orber::video_input::{
    build_color_tracks, build_keyframe_tracks, equal_ignoring_case, extension_of, is_video_path,
    judge_duration, probe_args, probed_duration, sampling_allowed, take_colors, take_points,
    transpose, trim, ProbeOutcome, SampleOutcome, Sampling, VideoInputError,
    VideoSample,
};

fn b(x: f32) -> Binary32 {
    Binary32::from_bits(x.to_bits())
}

fn f(x: Binary32) -> f32 {
    f32::from_bits(x.bits)
}

fn wide(x: f64) -> Binary64 {
    Binary64 { bits: x.to_bits() }
}

fn plain(width: u32, height: u32, color: [u8; 3]) -> RgbPicture {
    RgbPicture { width, height, data: color.repeat((width * height) as usize) }
}

fn cluster(color: [u8; 3], x: f32, weight: f32) -> Cluster {
    Cluster { color, centroid: Centroid { x: b(x), y: b(0.5) }, weight: b(weight) }
}

#[test]
fn is_video_path_detects_common_exts() {
    assert!(is_video_path("a.mp4"));
    assert!(is_video_path("a.MP4"));
    assert!(is_video_path("foo/bar.webm"));
    assert!(is_video_path("a.mov"));
    assert!(is_video_path("a.mkv"));
    assert!(is_video_path("a.m4v"));
    assert!(is_video_path("a.avi"));
    assert!(!is_video_path("a.png"));
    assert!(!is_video_path("a.jpg"));
    assert!(!is_video_path("a.webp"));
    assert!(!is_video_path("noext"));
}

#[test]
fn sample_video_frames_zero_n_returns_error() {
    match sampling_allowed(0, true, "/tmp/does-not-matter.mp4") {
        Err(VideoInputError::ZeroSamples) => {}
        other => panic!("expected ZeroSamples, got {other:?}"),
    }
}

#[test]
fn sample_video_frames_missing_file_returns_error() {
    let path = "/tmp/orber-test-missing-9f3c1d2.mp4";
    match sampling_allowed(4, std::path::Path::new(path).is_file(), path) {
        Err(VideoInputError::InputNotReadable { path: p }) => assert_eq!(p, path),
        other => panic!("expected InputNotReadable, got {other:?}"),
    }
}

#[test]
fn lab_distance_zero_for_same_color() {
    let d = f(lab_distance_rgb([100, 50, 200], [100, 50, 200]));
    assert!(d < 1e-3, "same color must have ~0 distance, got {d}");
}

#[test]
fn lab_distance_red_blue_large() {
    let d = f(lab_distance_rgb([255, 0, 0], [0, 0, 255]));
    assert!(d > 50.0, "red vs blue should be far in LAB, got {d}");
}

#[test]
fn build_color_tracks_empty_samples_errors() {
    let res = build_color_tracks(&vec![], 6);
    assert!(matches!(res, Err(VideoInputError::NoFramesExtracted)));
}

#[test]
fn build_color_tracks_single_sample_yields_unit_tracks() {
    let samples = vec![VideoSample { frame: plain(64, 64, [200, 100, 50]), t: b(0.0) }];
    let tracks = build_color_tracks(&samples, 1).expect("should produce tracks");
    assert_eq!(tracks.tracks.len(), 1, "1 cluster expected");
    assert_eq!(tracks.tracks[0].len(), 1, "1 sample: track len 1");
    assert_eq!(tracks.sample_times, vec![b(0.0)]);
}

#[test]
fn build_color_tracks_two_samples_color_changes() {
    let samples = vec![
        VideoSample { frame: plain(64, 64, [220, 30, 30]), t: b(0.0) },
        VideoSample { frame: plain(64, 64, [30, 30, 220]), t: b(1.0) },
    ];
    let tracks = build_color_tracks(&samples, 1).expect("tracks");
    assert_eq!(tracks.tracks.len(), 1);
    assert_eq!(tracks.tracks[0].len(), 2);
    let t0 = tracks.tracks[0][0];
    let t1 = tracks.tracks[0][1];
    assert!(t0[0] > t0[2], "first sample should be red-dominant: {t0:?}");
    assert!(t1[2] > t1[0], "second sample should be blue-dominant: {t1:?}");
    assert_eq!(t0, tracks.template_clusters[0].color);
}

#[test]
fn tracks_need_a_cluster() {
    let samples = vec![VideoSample { frame: plain(4, 4, [1, 2, 3]), t: b(0.0) }];
    assert!(matches!(build_color_tracks(&samples, 0), Err(VideoInputError::ZeroSamples)));
    assert!(matches!(build_keyframe_tracks(&samples, 0), Err(VideoInputError::ZeroSamples)));
    assert!(matches!(
        build_keyframe_tracks(&vec![], 2),
        Err(VideoInputError::NoFramesExtracted)
    ));
}

#[test]
fn keyframe_tracks_carry_color_place_and_time() {
    let samples = vec![
        VideoSample { frame: plain(32, 32, [220, 30, 30]), t: b(0.0) },
        VideoSample { frame: plain(32, 32, [30, 30, 220]), t: b(1.0) },
    ];
    let tracks = build_keyframe_tracks(&samples, 1).expect("tracks");
    assert_eq!(tracks.tracks.len(), 1);
    let track = &tracks.tracks[0];
    assert_eq!(track.len(), 2);
    assert_eq!((f(track[0].time), f(track[1].time)), (0.0, 1.0));
    assert!(track[0].color[0] > track[0].color[2] && track[1].color[2] > track[1].color[0]);
    assert_eq!(f(track[1].weight), 1.0);
    assert!((f(track[1].centroid.x) - 0.5).abs() < 0.01);
}

#[test]
fn extensions_agree_with_std_paths() {
    for path in [
        "a.mp4", "dir/a.tar.gz", ".hidden", "dir/.hidden.mp4", "noext", "trailing.", "a/b.c/", "a/.",
        "..", "", "/", "x/..", "a.b/c", "./a.webm", "a.mp4/.", "\u{3042}.mov",
    ] {
        let std_says = std::path::Path::new(path).extension().map(|e| e.to_str().unwrap());
        assert_eq!(extension_of(path).as_deref(), std_says, "{path:?}");
    }
}

#[test]
fn case_of_ascii_letters_does_not_matter() {
    assert!(equal_ignoring_case("MoV", "mov"));
    assert!(!equal_ignoring_case("mov", "mo"));
    assert!(!equal_ignoring_case("\u{c9}", "\u{e9}"));
}

#[test]
fn trimming_agrees_with_std() {
    for s in ["", "  ", " 12.5\n", "\u{3000}x y\u{a0}", "x", "\u{200b}x", "\t\u{85}1\u{2028}"] {
        assert_eq!(trim(s), s.trim(), "{s:?}");
    }
}

#[test]
fn durations_are_read_from_the_printed_text() {
    let exited = |stdout: &str| ProbeOutcome::Exited {
        success: true,
        stdout: stdout.to_string(),
        stderr: String::new(),
    };
    assert_eq!(probed_duration(exited("12.480000\n")).unwrap().bits, 12.48f64.to_bits());
    assert!(matches!(probed_duration(exited("0\n")), Err(VideoInputError::ZeroDuration)));
    assert!(matches!(probed_duration(exited("-1.5")), Err(VideoInputError::ZeroDuration)));
    assert!(matches!(probed_duration(exited("nan")), Err(VideoInputError::ZeroDuration)));
    assert!(matches!(probed_duration(exited("inf")), Err(VideoInputError::ZeroDuration)));
    match probed_duration(exited(" N/A\n")) {
        Err(VideoInputError::DurationProbeFailed { stderr }) => {
            assert_eq!(stderr, "could not parse duration: \"N/A\"")
        }
        other => panic!("expected DurationProbeFailed, got {other:?}"),
    }
    assert!(matches!(
        probed_duration(ProbeOutcome::Missing),
        Err(VideoInputError::FfprobeNotFound)
    ));
    assert!(matches!(
        probed_duration(ProbeOutcome::Failed("x".to_string())),
        Err(VideoInputError::Io(_))
    ));
    match probed_duration(ProbeOutcome::Exited {
        success: false,
        stdout: "3".to_string(),
        stderr: "bad".to_string(),
    }) {
        Err(VideoInputError::DurationProbeFailed { stderr }) => assert_eq!(stderr, "bad"),
        other => panic!("expected DurationProbeFailed, got {other:?}"),
    }
    match judge_duration(None, "a\"b\n") {
        Err(VideoInputError::DurationProbeFailed { stderr }) => {
            assert_eq!(stderr, format!("could not parse duration: {:?}", "a\"b\n"))
        }
        other => panic!("expected DurationProbeFailed, got {other:?}"),
    }
}

#[test]
fn every_error_is_told() {
    let text = |e: VideoInputError| e.message();
    assert!(text(VideoInputError::FfmpegNotFound).starts_with("ffmpeg not found in PATH"));
    assert!(text(VideoInputError::FfprobeNotFound).starts_with("ffprobe not found in PATH"));
    assert_eq!(
        text(VideoInputError::DurationProbeFailed { stderr: "s".to_string() }),
        "ffprobe failed to read duration: s"
    );
    assert!(text(VideoInputError::ZeroDuration).contains("zero / invalid duration"));
    assert_eq!(
        text(VideoInputError::FfmpegFailed { stderr: "s".to_string() }),
        "ffmpeg failed: s"
    );
    assert!(text(VideoInputError::ZeroSamples).starts_with("n must be >= 1"));
    assert_eq!(
        text(VideoInputError::InputNotReadable { path: "p".to_string() }),
        "input file not readable: p"
    );
    assert_eq!(text(VideoInputError::DecodeError("d".to_string())), "PNG decode failed: d");
    assert!(text(VideoInputError::NoFramesExtracted).starts_with("ffmpeg produced no frames"));
    assert_eq!(text(VideoInputError::Io("i".to_string())), "I/O error: i");
}

#[test]
fn the_probe_is_asked_for_the_duration() {
    assert_eq!(
        probe_args("v.mp4"),
        vec![
            "-v", "error", "-show_entries", "format=duration", "-of",
            "default=noprint_wrappers=1:nokey=1", "v.mp4",
        ]
    );
}

#[test]
fn samples_are_spread_over_the_video() {
    let mut run = Sampling::start(3, wide(10.0));
    let mut seconds = Vec::new();
    for i in 0..3 {
        assert_eq!(f(run.time()), i as f32 / 2.0);
        assert_eq!(run.file(), format!("sample_{i:03}.png"));
        let args = run.args("v.mp4", "o.png");
        assert_eq!(
            args[..4].to_vec(),
            vec!["-y".to_string(), "-loglevel".to_string(), "error".to_string(), "-ss".to_string()]
        );
        assert_eq!(args[5..].to_vec(), vec![
            "-i", "v.mp4", "-frames:v", "1", "-vf", "scale=512:-1", "-pix_fmt", "rgb24", "o.png",
        ]);
        seconds.push(args[4].clone());
        let outcome = if i == 1 {
            SampleOutcome::NoFile
        } else {
            SampleOutcome::Frame(plain(2, 2, [i as u8, 0, 0]))
        };
        run.sample_done(outcome).unwrap();
    }
    assert_eq!(seconds, vec!["0.000000", "5.000000", "9.999000"]);
    let samples = run.finish().unwrap();
    assert_eq!(samples.len(), 2);
    assert_eq!((f(samples[0].t), f(samples[1].t)), (0.0, 1.0));
}

#[test]
fn one_sample_is_the_first_frame() {
    let run = Sampling::start(1, wide(0.0005));
    assert_eq!(f(run.time()), 0.0);
    assert_eq!(run.args("v", "o")[4], "0.000000");
}

#[test]
fn sampling_stops_at_an_error() {
    let start = || Sampling::start(2, wide(1.0));
    assert!(matches!(
        start().sample_done(SampleOutcome::Missing),
        Err(VideoInputError::FfmpegNotFound)
    ));
    assert!(matches!(
        start().sample_done(SampleOutcome::Failed("x".to_string())),
        Err(VideoInputError::Io(_))
    ));
    assert!(matches!(
        start().sample_done(SampleOutcome::Refused { stderr: "x".to_string() }),
        Err(VideoInputError::FfmpegFailed { .. })
    ));
    assert!(matches!(
        start().sample_done(SampleOutcome::Undecodable("x".to_string())),
        Err(VideoInputError::DecodeError(_))
    ));
    assert!(matches!(start().finish(), Err(VideoInputError::NoFramesExtracted)));
}

#[test]
fn six_decimals_agree_with_format() {
    for x in [
        0.0f64, 0.5, 1.0, 12.48, 9.999, 0.0000005, 0.0000015, 0.00000049, 123456.7890125, 1e-300,
        1e15, 4503599627370497.5, 1.7e308, 5e-324, 0.1, 599.9999995,
    ] {
        assert_eq!(fixed_six(wide(x)), format!("{x:.6}"), "{x:e}");
    }
    assert_eq!(fixed_six(wide(f64::INFINITY)), "inf");
}

#[test]
fn doubling_decimal_digits() {
    let mut s = String::from("x");
    push_doubled(&mut s, 3, 10);
    assert_eq!(s, "x3072");
    let mut s = String::new();
    push_doubled(&mut s, 1, 100);
    assert_eq!(s, "1267650600228229401496703205376");
}

#[test]
fn lab_follows_the_formula() {
    let reference = |rgb: [u8; 3]| {
        let linear = |c: u8| {
            let c = c as f32 / 255.0;
            if c <= 0.04045 { c / 12.92 } else { ((c + 0.055) / 1.055).powf(2.4) }
        };
        let (r, g, b) = (linear(rgb[0]), linear(rgb[1]), linear(rgb[2]));
        let x = (r * 0.4124564 + g * 0.3575761 + b * 0.1804375) / 0.95047;
        let y = (r * 0.2126729 + g * 0.7151522 + b * 0.072175) / 1.0;
        let z = (r * 0.0193339 + g * 0.119192 + b * 0.9503041) / 1.08883;
        let root = |t: f32| {
            if t > 0.008856452 { t.cbrt() } else { t / 0.12841855 + 0.13793103 }
        };
        let (fx, fy, fz) = (root(x), root(y), root(z));
        [116.0 * fy - 16.0, 500.0 * (fx - fy), 200.0 * (fy - fz)]
    };
    for (p, q) in [([255, 0, 0], [0, 0, 255]), ([10, 20, 30], [200, 90, 5]), ([1, 1, 1], [0, 0, 2])] {
        let (a, c) = (reference(p), reference(q));
        let d = ((a[0] - c[0]).powi(2) + (a[1] - c[1]).powi(2) + (a[2] - c[2]).powi(2)).sqrt();
        let got = f(lab_distance_rgb(p, q));
        assert!((got - d).abs() <= d * 1e-4 + 1e-4, "{p:?} {q:?}: {got} {d}");
    }
    let (x, y, z) = linear_to_ratios(b(1.0), b(1.0), b(1.0));
    for v in [x, y, z] {
        assert!((f(v) - 1.0).abs() < 1e-3, "white is near 1: {}", f(v));
    }
    let white = roots_to_lab(b(1.0), b(1.0), b(1.0));
    assert_eq!((f(white.l), f(white.a), f(white.b)), (100.0, 0.0, 0.0));
}

#[test]
fn lab_distance_is_that_of_a_right_triangle() {
    let at = |l: f32, a: f32| LabColor { l: b(l), a: b(a), b: b(0.0) };
    assert_eq!(f(lab_distance(at(0.0, 0.0), at(3.0, 4.0))), 5.0);
    assert_eq!(f(lab_distance(at(1.5, 2.0), at(1.5, 2.0))), 0.0);
}

#[test]
fn each_candidate_is_taken_once() {
    let rows = |r: &[&[f32]]| -> Vec<Vec<Binary32>> {
        r.iter().map(|row| row.iter().map(|x| b(*x)).collect()).collect()
    };
    let picks = match_nearest(&rows(&[&[1.0, 2.0], &[0.5, 3.0], &[0.1, 0.1]]), 2);
    assert_eq!(picks, vec![Some(0), Some(1), None]);
    assert_eq!(match_nearest(&rows(&[&[], &[]]), 0), vec![None, None]);
    assert_eq!(match_nearest(&rows(&[&[f32::INFINITY, 7.0]]), 2), vec![Some(1)]);
}

#[test]
fn picks_are_turned_into_colors_and_points() {
    let template = vec![cluster([1, 1, 1], 0.1, 0.6), cluster([2, 2, 2], 0.2, 0.4)];
    let found = vec![cluster([9, 9, 9], 0.9, 1.0)];
    let picks = vec![None, Some(0)];
    assert_eq!(take_colors(&template, &found, &picks), vec![[1, 1, 1], [9, 9, 9]]);
    let points = take_points(&template, &found, &picks, b(0.25));
    assert_eq!(points[0].color, [1, 1, 1]);
    assert_eq!(f(points[1].centroid.x), 0.9);
    assert_eq!((f(points[0].time), f(points[1].time)), (0.25, 0.25));
    let columns = vec![vec![[1, 1, 1], [2, 2, 2]], vec![[3, 3, 3], [4, 4, 4]]];
    assert_eq!(
        transpose(&columns, 2),
        vec![vec![[1, 1, 1], [3, 3, 3]], vec![[2, 2, 2], [4, 4, 4]]]
    );
    let turned = transpose(&vec![points.clone(), points.clone()], 2);
    assert_eq!(turned.len(), 2);
    assert_eq!(turned[1], vec![points[1], points[1]]);
}

#[test]
fn every_sample_is_later_than_the_one_before() {
    for n in [2usize, 3, 20, 4999] {
        let mut run = Sampling::start(n, wide(8.0));
        let mut last = -1.0;
        for _ in 0..n {
            let t = f(run.time());
            assert!(last < t && t <= 1.0, "{n}: {t} after {last}");
            last = t;
            assert!(run.sample_done(SampleOutcome::NoFile).is_ok());
        }
        assert_eq!(last, 1.0);
    }
}

#[test]
fn tracks_pass_through_what_their_samples_gave() {
    let colors = [[220, 30, 30], [40, 200, 60], [30, 30, 220], [250, 250, 20]];
    let mut run = Sampling::start(4, wide(3.0));
    for color in colors {
        assert!(run.sample_done(SampleOutcome::Frame(plain(16, 9, color))).is_ok());
    }
    let samples = run.finish().expect("four samples");
    let tracks = build_keyframe_tracks(&samples, 1).expect("tracks").tracks;
    for (s, sample) in samples.iter().enumerate() {
        let (color, centroid, weight) = interpolate_keyframe_track(&tracks[0], sample.t);
        let key = tracks[0][s];
        assert_eq!((color, centroid, weight), (key.color, key.centroid, key.weight));
    }
    assert_ne!(tracks[0][0].color, tracks[0][1].color);
}
