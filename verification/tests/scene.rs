use orber::binary32::Binary32;
use orber::cli::{Cli, CliSoftness, CliVariationMode};
use orber::cluster::{Centroid, Cluster, ClusterError};
use orber::keyframe_track::KeyframeClusterPoint;
use orber::orb::OrbShape;
use orber::output_mode::OutputMode;
use orber::picture::RgbPicture;
use orber::scene::{
    color_track_scene, keyframe_scene, picture_scene, sampled_color_scene, sampled_keyframe_scene,
    still_scene, still_time, variation_file, variation_task, wanted_variations, warn_if_orb_pool_empty, Scene,
    VariationTask, VideoInputOutput,
};
use orber::style::{render_css, render_svg, SoftnessPreset, StyleOptions};
use orber::variations::default_variations;
use orber::video::VideoCodec;
use orber::video_input::{ColorTracks, KeyframeTracks, VideoInputError, VideoSample};

fn b(x: f32) -> Binary32 {
    Binary32::from_bits(x.to_bits())
}

fn cluster(color: [u8; 3], weight: f32) -> Cluster {
    Cluster { color, centroid: Centroid { x: b(0.5), y: b(0.5) }, weight: b(weight) }
}

fn trio() -> Vec<Cluster> {
    vec![cluster([1, 1, 1], 0.2), cluster([2, 2, 2], 0.5), cluster([3, 3, 3], 0.3)]
}

fn cli() -> Cli {
    Cli { seed: 9, softness: CliSoftness::High, ..Cli::for_input("a.jpg".to_string()) }
}

#[test]
fn the_background_is_the_dominant_color() {
    let scene = still_scene(&trio());
    assert_eq!(scene.background, [2, 2, 2, 255]);
    assert_eq!(scene.clusters, vec![cluster([1, 1, 1], 0.2), cluster([3, 3, 3], 0.3)]);
    assert!(scene.color_tracks.is_none() && scene.keyframe_tracks.is_none());
}

#[test]
fn tracks_stay_with_their_clusters() {
    let tracks = ColorTracks {
        template_clusters: trio(),
        tracks: vec![vec![[1, 0, 0]], vec![[2, 0, 0]], vec![[3, 0, 0]]],
        sample_times: vec![b(0.0)],
    };
    let scene = color_track_scene(tracks);
    assert_eq!(scene.background, [2, 2, 2, 255]);
    assert_eq!(scene.color_tracks, Some(vec![vec![[1, 0, 0]], vec![[3, 0, 0]]]));
    let point = |c: u8| KeyframeClusterPoint {
        color: [c, 0, 0],
        centroid: Centroid { x: b(0.0), y: b(0.0) },
        weight: b(0.0),
        time: b(0.0),
    };
    let scene = keyframe_scene(KeyframeTracks {
        template_clusters: trio(),
        tracks: vec![vec![point(1)], vec![point(2)], vec![point(3)]],
    });
    assert_eq!(scene.keyframe_tracks, Some(vec![vec![point(1)], vec![point(3)]]));
    assert_eq!(scene.clusters.len(), 2);
}

#[test]
fn a_plain_picture_has_no_orbs() {
    let plain = RgbPicture { width: 16, height: 16, data: [200, 100, 50].repeat(256) };
    let scene = picture_scene(&plain, 1).unwrap();
    assert!(scene.clusters.is_empty());
    assert!(warn_if_orb_pool_empty(&scene.clusters).unwrap().contains("only 1 cluster"));
    assert_eq!(warn_if_orb_pool_empty(&trio()), None);
    assert!(matches!(picture_scene(&plain, 0), Err(ClusterError::KZero)));
}

#[test]
fn scenes_of_samples() {
    let halves = |left: [u8; 3], right: [u8; 3]| {
        let mut data = Vec::new();
        for _ in 0..20 {
            for x in 0..20 {
                data.extend_from_slice(if x < 12 { &left } else { &right });
            }
        }
        RgbPicture { width: 20, height: 20, data }
    };
    let samples = vec![
        VideoSample { frame: halves([220, 20, 20], [20, 20, 220]), t: b(0.0) },
        VideoSample { frame: halves([20, 220, 20], [20, 20, 220]), t: b(1.0) },
    ];
    let scene = sampled_color_scene(&samples).unwrap();
    assert!(scene.background[0] > 200, "the first sample's dominant colour");
    let tracks = scene.color_tracks.unwrap();
    assert_eq!(tracks.len(), scene.clusters.len());
    assert!(tracks.iter().all(|t| t.len() == 2));
    let scene = sampled_keyframe_scene(&samples).unwrap();
    let tracks = scene.keyframe_tracks.unwrap();
    assert_eq!(tracks.len(), scene.clusters.len());
    assert!(tracks.iter().all(|t| t.len() == 2 && t[1].time == b(1.0)));
    assert!(matches!(sampled_color_scene(&vec![]), Err(VideoInputError::NoFramesExtracted)));
    assert!(matches!(sampled_keyframe_scene(&vec![]), Err(VideoInputError::NoFramesExtracted)));
}

#[test]
fn options_of_stills_and_videos() {
    let (o, clusters) = cli().still_options(still_scene(&trio()), OrbShape::Orb);
    assert_eq!((o.width, o.height, o.seed, o.count), (1080, 1920, 9, Some(20)));
    assert_eq!(o.background, [2, 2, 2, 255]);
    assert_eq!(o.softness, SoftnessPreset::High);
    assert_eq!(clusters.len(), 2);
    let (v, _) = cli().video_options(still_scene(&trio()), OrbShape::Orb);
    assert_eq!((v.seed, v.count, v.background), (9, Some(20), [2, 2, 2, 255]));
}

#[test]
fn style_documents() {
    let scene = still_scene(&trio());
    let opts = StyleOptions {
        background: [2, 2, 2, 255],
        softness: SoftnessPreset::High,
        ..StyleOptions::default()
    };
    assert_eq!(
        cli().style_document(&scene, OutputMode::Svg),
        Some(render_svg(&scene.clusters, &opts))
    );
    assert_eq!(
        cli().style_document(&scene, OutputMode::Css),
        Some(render_css(&scene.clusters, &opts))
    );
    assert_eq!(cli().style_document(&scene, OutputMode::Png), None);
}

#[test]
fn outputs_of_a_video() {
    let of = |mode: OutputMode| cli().video_input_output(still_scene(&trio()), OrbShape::Orb, mode);
    assert!(matches!(
        of(OutputMode::Webm),
        VideoInputOutput::Video { codec: VideoCodec::Vp9, .. }
    ));
    assert!(matches!(of(OutputMode::Png), VideoInputOutput::Still { .. }));
    match of(OutputMode::Svg) {
        VideoInputOutput::Refuse { message, code } => {
            assert_eq!(
                message,
                "orber: video input + output mode Svg is not supported (use mp4 / webm / png)"
            );
            assert_eq!(code, 1);
        }
        other => panic!("expected a refusal, got {other:?}"),
    }
}

#[test]
fn variations_have_a_folder() {
    assert_eq!(
        cli().variations_dir().unwrap_err(),
        "orber: --variations requires --output-dir DIR"
    );
    let with = Cli { output_dir: Some("out".to_string()), ..cli() };
    assert_eq!(with.variations_dir().unwrap(), "out");
}

#[test]
fn variations_are_picked_and_named() {
    let (specs, notice) = wanted_variations(3, CliVariationMode::Mixed).unwrap();
    assert_eq!((specs.len(), notice), (3, None));
    let (specs, notice) = wanted_variations(7, CliVariationMode::Still).unwrap();
    assert_eq!(specs.len(), 4);
    assert_eq!(
        notice.unwrap(),
        "orber: only 4 variation(s) available for mode Still (requested 7)"
    );
    assert_eq!(
        wanted_variations(0, CliVariationMode::Video).unwrap_err(),
        "orber: no variations matched (requested n=0, mode=Video)"
    );
    let first = &default_variations()[0];
    assert_eq!(
        variation_file(1, first),
        format!("01_{}.{}", first.label, first.kind.ext())
    );
    assert!(variation_file(12, first).starts_with("12_"));
}

#[test]
fn variations_are_stills_or_videos() {
    for spec in default_variations() {
        let task = variation_task(&spec, [4, 5, 6, 255], OrbShape::Orb, SoftnessPreset::Low);
        match task {
            VariationTask::Still { options } => {
                assert_eq!(spec.kind.ext(), "png");
                assert_eq!((options.seed, options.count), (spec.seed, Some(spec.count)));
                assert_eq!(options.background, [4, 5, 6, 255]);
                assert_eq!(options.saturation, b(1.0));
            }
            VariationTask::Video { options, duration_ms, codec } => {
                assert_eq!(spec.kind.ext(), "mp4");
                assert_eq!((duration_ms, codec), (spec.duration_ms, VideoCodec::H264));
                assert_eq!(options.softness, SoftnessPreset::Low);
            }
        }
    }
}

#[test]
fn an_empty_scene_is_black() {
    let scene: Scene = still_scene(&vec![]);
    assert_eq!(scene.background, [0, 0, 0, 255]);
    assert!(scene.clusters.is_empty());
}

#[test]
fn a_still_shows_the_start_of_the_loop() {
    assert_eq!(still_time(), b(0.0));
}
