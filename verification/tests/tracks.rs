use orber::binary32::Binary32;
use orber::cluster::Centroid;
use orber::color_track::{interpolate_color_track, mix_channel, mix_color};
use orber::keyframe_track::{interpolate_keyframe_track, mix_number, KeyframeClusterPoint};

fn b(x: f32) -> Binary32 {
    Binary32::from_bits(x.to_bits())
}

fn f(x: Binary32) -> f32 {
    f32::from_bits(x.bits)
}

fn color_at(track: &[[u8; 3]], t: f32) -> [u8; 3] {
    interpolate_color_track(track, b(t))
}

#[test]
fn interpolate_color_track_endpoints_clamp() {
    let track = vec![[10, 20, 30], [40, 50, 60], [70, 80, 90]];
    assert_eq!(color_at(&track, 0.0), [10, 20, 30]);
    assert_eq!(color_at(&track, 1.0), [70, 80, 90]);
    assert_eq!(color_at(&track, -0.5), [10, 20, 30]);
    assert_eq!(color_at(&track, 1.5), [70, 80, 90]);
}

#[test]
fn interpolate_color_track_midpoint() {
    let track = vec![[0, 0, 0], [100, 150, 200], [255, 255, 255]];
    assert_eq!(color_at(&track, 0.5), [100, 150, 200]);
}

#[test]
fn interpolate_color_track_quarter_two_samples() {
    let track = vec![[0, 0, 0], [200, 100, 50]];
    assert_eq!(color_at(&track, 0.25), [50, 25, 13]);
}

#[test]
fn interpolate_color_track_single_color() {
    let track = vec![[123, 45, 200]];
    for t in [0.0_f32, 0.1, 0.5, 0.9, 1.0] {
        assert_eq!(color_at(&track, t), [123, 45, 200]);
    }
}

#[test]
fn interpolate_color_track_empty_returns_default() {
    let track: Vec<[u8; 3]> = vec![];
    assert_eq!(color_at(&track, 0.0), [0, 0, 0]);
    assert_eq!(color_at(&track, 0.5), [0, 0, 0]);
    assert_eq!(color_at(&track, 1.0), [0, 0, 0]);
}

#[test]
fn interpolate_color_track_nan_t_does_not_panic() {
    let track = vec![[10, 20, 30], [40, 50, 60]];
    assert_eq!(color_at(&track, f32::NAN), [10, 20, 30]);
}

#[test]
fn interpolate_color_track_t_just_below_one() {
    let track = vec![[0, 0, 0], [100, 100, 100], [200, 200, 200]];
    let v = color_at(&track, 0.99999);
    assert!(v[0] >= 199, "expected near 200, got {}", v[0]);
}

#[test]
fn interpolate_color_track_monotonic_red_gradient() {
    let track = vec![[0, 0, 0], [128, 128, 128], [255, 255, 255]];
    let mut prev_r = 0u8;
    for i in 0..=10 {
        let t = i as f32 / 10.0;
        let v = color_at(&track, t);
        assert!(v[0] >= prev_r, "at t={t}: prev={prev_r} got={}", v[0]);
        prev_r = v[0];
    }
}

#[test]
fn mixing_rounds_to_the_nearest_channel() {
    assert_eq!(mix_channel(0, 255, b(0.5)), 128);
    assert_eq!(mix_channel(10, 10, b(0.3)), 10);
    assert_eq!(mix_color([0, 100, 200], [200, 100, 0], b(0.25)), [50, 100, 150]);
}

fn kp(color: [u8; 3], cx: f32, cy: f32, weight: f32, time: f32) -> KeyframeClusterPoint {
    KeyframeClusterPoint {
        color,
        centroid: Centroid { x: b(cx), y: b(cy) },
        weight: b(weight),
        time: b(time),
    }
}

fn approx(a: f32, b: f32, eps: f32, label: &str) {
    assert!((a - b).abs() < eps, "{label}: expected ~{b}, got {a} (eps={eps})");
}

fn point_at(track: &[KeyframeClusterPoint], t: f32) -> ([u8; 3], Centroid, f32) {
    let (color, centroid, weight) = interpolate_keyframe_track(track, b(t));
    (color, centroid, f(weight))
}

#[test]
fn interpolate_keyframe_track_endpoints_clamp() {
    let track =
        vec![kp([10, 20, 30], 0.1, 0.2, 0.3, 0.0), kp([200, 100, 50], 0.9, 0.8, 0.7, 1.0)];
    let (c, cen, w) = point_at(&track, -0.5);
    assert_eq!(c, [10, 20, 30]);
    assert_eq!(cen, Centroid { x: b(0.1), y: b(0.2) });
    approx(w, 0.3, 1e-6, "weight clamp lo");
    let (c, cen, w) = point_at(&track, 1.5);
    assert_eq!(c, [200, 100, 50]);
    assert_eq!(cen, Centroid { x: b(0.9), y: b(0.8) });
    approx(w, 0.7, 1e-6, "weight clamp hi");
}

#[test]
fn interpolate_keyframe_track_midpoint_two_keys() {
    let track = vec![kp([0, 0, 0], 0.0, 0.0, 0.0, 0.0), kp([200, 100, 50], 1.0, 1.0, 1.0, 1.0)];
    let (c, cen, w) = point_at(&track, 0.5);
    assert_eq!(c, [100, 50, 25]);
    approx(f(cen.x), 0.5, 1e-6, "centroid.x");
    approx(f(cen.y), 0.5, 1e-6, "centroid.y");
    approx(w, 0.5, 1e-6, "weight");
}

#[test]
fn interpolate_keyframe_track_three_keys_finds_correct_segment() {
    let track = vec![
        kp([0, 0, 0], 0.0, 0.0, 0.0, 0.0),
        kp([200, 100, 50], 1.0, 1.0, 1.0, 0.5),
        kp([255, 255, 255], 0.0, 0.0, 0.5, 1.0),
    ];
    let (c, cen, w) = point_at(&track, 0.25);
    assert_eq!(c, [100, 50, 25]);
    approx(f(cen.x), 0.5, 1e-6, "centroid.x mid of seg0");
    approx(f(cen.y), 0.5, 1e-6, "centroid.y mid of seg0");
    approx(w, 0.5, 1e-6, "weight mid of seg0");
}

#[test]
fn interpolate_keyframe_track_single_key_constant() {
    let track = vec![kp([123, 45, 200], 0.4, 0.6, 0.8, 0.0)];
    for t in [0.0_f32, 0.1, 0.5, 0.9, 1.0] {
        let (c, cen, w) = point_at(&track, t);
        assert_eq!(c, [123, 45, 200]);
        assert_eq!(cen, Centroid { x: b(0.4), y: b(0.6) });
        approx(w, 0.8, 1e-6, "single-key weight");
    }
}

#[test]
fn interpolate_keyframe_track_empty_returns_default() {
    let track: Vec<KeyframeClusterPoint> = vec![];
    for t in [0.0_f32, 0.5, 1.0] {
        let (c, cen, w) = point_at(&track, t);
        assert_eq!(c, [0, 0, 0]);
        assert_eq!(cen, Centroid { x: b(0.5), y: b(0.5) });
        approx(w, 0.0, 1e-6, "default weight");
    }
}

#[test]
fn interpolate_keyframe_track_uneven_time_intervals() {
    let track = vec![
        kp([0, 0, 0], 0.0, 0.0, 0.0, 0.0),
        kp([100, 100, 100], 0.5, 0.5, 0.5, 0.2),
        kp([200, 200, 200], 1.0, 1.0, 1.0, 1.0),
    ];
    let (c, cen, w) = point_at(&track, 0.6);
    assert_eq!(c, [150, 150, 150]);
    approx(f(cen.x), 0.75, 1e-6, "centroid.x uneven mid");
    approx(f(cen.y), 0.75, 1e-6, "centroid.y uneven mid");
    approx(w, 0.75, 1e-6, "weight uneven mid");
}

#[test]
fn interpolate_keyframe_track_color_position_weight_lerp() {
    let track =
        vec![kp([0, 100, 200], 0.2, 0.8, 0.0, 0.0), kp([200, 100, 0], 0.8, 0.2, 1.0, 1.0)];
    let (c, cen, w) = point_at(&track, 0.25);
    assert_eq!(c[0], 50);
    assert_eq!(c[1], 100);
    assert_eq!(c[2], 150);
    approx(f(cen.x), 0.35, 1e-6, "centroid.x");
    approx(f(cen.y), 0.65, 1e-6, "centroid.y");
    approx(w, 0.25, 1e-6, "weight");
}

#[test]
fn interpolate_keyframe_track_determinism() {
    let track = vec![
        kp([10, 20, 30], 0.1, 0.2, 0.3, 0.0),
        kp([40, 50, 60], 0.4, 0.5, 0.6, 0.4),
        kp([70, 80, 90], 0.7, 0.8, 0.9, 1.0),
    ];
    assert_eq!(point_at(&track, 0.37), point_at(&track, 0.37));
}

#[test]
fn interpolate_keyframe_track_nan_t_does_not_panic() {
    let track = vec![kp([10, 20, 30], 0.1, 0.2, 0.3, 0.0), kp([40, 50, 60], 0.4, 0.5, 0.6, 1.0)];
    let (c, cen, w) = point_at(&track, f32::NAN);
    assert_eq!(c, [10, 20, 30]);
    assert_eq!(cen, Centroid { x: b(0.1), y: b(0.2) });
    approx(w, 0.3, 1e-6, "nan -> head weight");
}

#[test]
fn interpolate_keyframe_track_zero_dt_segment_does_not_div_by_zero() {
    let track = vec![
        kp([0, 0, 0], 0.0, 0.0, 0.0, 0.0),
        kp([100, 100, 100], 0.5, 0.5, 0.5, 0.5),
        kp([200, 200, 200], 1.0, 1.0, 1.0, 0.5),
        kp([255, 255, 255], 1.0, 1.0, 1.0, 1.0),
    ];
    let _ = point_at(&track, 0.5);
    let _ = point_at(&track, 0.7);
}

#[test]
fn mixing_numbers_is_exact_where_the_parts_are() {
    assert_eq!(f(mix_number(b(2.0), b(4.0), b(0.5))), 3.0);
    assert_eq!(f(mix_number(b(0.1), b(0.7), b(0.0))), 0.1);
}

#[test]
fn a_track_passes_through_its_keyframes() {
    let track = vec![
        kp([10, 200, 30], 0.1, 0.9, 0.25, 0.0),
        kp([250, 0, 31], 0.7, 0.3, 0.5, 0.3),
        kp([0, 77, 255], 0.33, 0.6, 0.125, 0.71),
        kp([9, 8, 7], 0.0, 1.0, 1.0, 1.0),
    ];
    for p in &track {
        let (color, centroid, weight) = interpolate_keyframe_track(&track, p.time);
        assert_eq!(color, p.color);
        assert_eq!(centroid.x.bits, p.centroid.x.bits);
        assert_eq!(centroid.y.bits, p.centroid.y.bits);
        assert_eq!(weight.bits, p.weight.bits);
    }
    for t in [-1.0_f32, -0.0, 1.5, f32::INFINITY] {
        let (color, _, _) = interpolate_keyframe_track(&track, b(t));
        assert_eq!(color, if t <= 0.0 { track[0].color } else { track[3].color });
    }
}

#[test]
fn a_rising_channel_never_falls_in_between() {
    let track = vec![[0, 9, 3], [1, 9, 3], [1, 200, 3], [254, 201, 3], [255, 255, 4]];
    let mut last = [0u8; 3];
    for i in 0..=5000 {
        let now = color_at(&track, i as f32 / 5000.0);
        for c in 0..3 {
            assert!(now[c] >= last[c], "channel {c} falls at {i}");
        }
        last = now;
    }
    assert_eq!(last, [255, 255, 4]);
}

#[test]
fn the_first_keyframe_of_a_time_holds_at_it() {
    let track = vec![
        kp([0, 0, 0], 0.0, 0.0, 0.0, 0.0),
        kp([100, 100, 100], 0.5, 0.5, 0.5, 0.5),
        kp([200, 200, 200], 1.0, 1.0, 1.0, 0.5),
        kp([255, 255, 255], 1.0, 1.0, 1.0, 1.0),
    ];
    let half = Centroid { x: b(0.5), y: b(0.5) };
    assert_eq!(point_at(&track, 0.5), ([100, 100, 100], half, 0.5));
    // between the keyframes nothing jumps back
    assert_eq!(point_at(&track, 0.25), ([50, 50, 50], Centroid { x: b(0.25), y: b(0.25) }, 0.25));
    let behind = point_at(&track, 0.75);
    assert_eq!(behind, ([228, 228, 228], Centroid { x: b(1.0), y: b(1.0) }, 1.0));
    // a time that falls back
    let back = vec![
        kp([0, 0, 0], 0.0, 0.0, 0.0, 0.0),
        kp([100, 100, 100], 0.5, 0.5, 0.5, 0.5),
        kp([200, 200, 200], 1.0, 1.0, 1.0, 0.25),
        kp([255, 255, 255], 1.0, 1.0, 1.0, 1.0),
    ];
    assert_eq!(point_at(&back, 0.5), ([100, 100, 100], half, 0.5));
}
