use orber::animate::{
    apply_color_tracks_at_t, generate_orb_params, index_by_weight, keyframe_cross_drift,
    orb_from_draws, pack_render_data, splitmix64, unit_from_hash, AnimateOptions, MotionSpeed,
    OrbDraws, KEYFRAME_DRIFT_GAIN, MAX_ORB_COUNT, SHADOW_STRENGTH_DEFAULT,
};
use orber::binary32::Binary32;
use orber::cluster::{Centroid, Cluster};
use orber::keyframe_track::KeyframeClusterPoint;
use orber::orb::OrbStyle;
use rand::{Rng, SeedableRng};
use std::f32::consts::TAU;

fn b(x: f32) -> Binary32 {
    Binary32::from_bits(x.to_bits())
}

fn f(x: Binary32) -> f32 {
    f32::from_bits(x.bits)
}

fn weights(ws: &[f32]) -> Vec<Binary32> {
    ws.iter().map(|w| b(*w)).collect()
}

fn gain() -> f32 {
    f32::from_bits(KEYFRAME_DRIFT_GAIN)
}

/// The angle that the shader turns a glyph to, computed with `rem_euclid`.
fn glyph_rotation_angle(cycle: u32, t: f32, base: f32, speed: f32, rotate: bool) -> f32 {
    if !rotate {
        return base;
    }
    base + (cycle as f32 * speed * t).rem_euclid(1.0) * TAU
}

/// An index drawn with the given weights.
fn pick_weighted(rng: &mut rand_chacha::ChaCha8Rng, weights: &[f32], total: f32) -> usize {
    if total <= 0.0 {
        return 0;
    }
    let r = rng.gen::<f32>() * total;
    let mut acc = 0.0;
    for (i, &w) in weights.iter().enumerate() {
        acc += w.max(0.0);
        if r <= acc {
            return i;
        }
    }
    weights.len() - 1
}

#[test]
fn cycle_count_matches_speed() {
    assert_eq!(MotionSpeed::VerySlow.cycle_count(), 1);
    assert_eq!(MotionSpeed::Slow.cycle_count(), 2);
    assert_eq!(MotionSpeed::Mid.cycle_count(), 3);
    assert_eq!(MotionSpeed::Fast.cycle_count(), 4);
}

#[test]
fn style_is_mixed_across_orbs() {
    let p = generate_orb_params(7, 64, &weights(&[1.0]));
    let n_rim = p.iter().filter(|q| q.style == OrbStyle::Rim).count();
    let n_soft = p.iter().filter(|q| q.style == OrbStyle::Soft).count();
    assert!((20..=44).contains(&n_rim), "rim={n_rim} soft={n_soft}");
    assert!((20..=44).contains(&n_soft), "rim={n_rim} soft={n_soft}");
}

#[test]
fn breath_axes_are_independent() {
    let p = generate_orb_params(42, 16, &weights(&[1.0]));
    let mut all_three_same = 0;
    for op in &p {
        if (f(op.phi_radius) - f(op.phi_blur)).abs() < 1e-6
            && (f(op.phi_blur) - f(op.phi_opacity)).abs() < 1e-6
        {
            all_three_same += 1;
        }
    }
    assert_eq!(all_three_same, 0, "breath axes must not be synchronized for any orb");
}

#[test]
fn speed_mult_distribution() {
    let p = generate_orb_params(99, 120, &weights(&[1.0]));
    let n1 = p.iter().filter(|q| q.speed_mult == 1).count();
    let n2 = p.iter().filter(|q| q.speed_mult == 2).count();
    let n3 = p.iter().filter(|q| q.speed_mult == 3).count();
    for (label, n) in [("1x", n1), ("2x", n2), ("3x", n3)] {
        assert!((25..=55).contains(&n), "speed_mult={label}; got n1={n1} n2={n2} n3={n3}");
    }
    for q in &p {
        assert!((1..=3).contains(&q.speed_mult), "speed_mult {}", q.speed_mult);
    }
}

#[test]
fn glyph_rotation_speed_correlates_with_translation_speed() {
    let p = generate_orb_params(99, 120, &weights(&[1.0]));
    for q in &p {
        assert!(
            (f(q.rot_speed_signed).abs() - q.speed_mult as f32).abs() < 1e-6,
            "rot={} speed_mult={}",
            f(q.rot_speed_signed),
            q.speed_mult
        );
    }
}

#[test]
fn glyph_rotation_direction_is_mixed() {
    let p = generate_orb_params(7, 64, &weights(&[1.0]));
    let cw = p.iter().filter(|q| f(q.rot_speed_signed) > 0.0).count();
    let ccw = p.iter().filter(|q| f(q.rot_speed_signed) < 0.0).count();
    assert!((20..=44).contains(&cw), "cw={cw} ccw={ccw}");
    assert!((20..=44).contains(&ccw), "cw={cw} ccw={ccw}");
}

#[test]
fn glyph_rotation_loop_closure_at_t_one() {
    let p = generate_orb_params(42, 16, &weights(&[1.0]));
    for cycle in 1..=4 {
        for q in &p {
            let (base, speed) = (f(q.base_angle), f(q.rot_speed_signed));
            let a0 = glyph_rotation_angle(cycle, 0.0, base, speed, true);
            let a1 = glyph_rotation_angle(cycle, 1.0, base, speed, true);
            let delta = (a1 - a0).rem_euclid(TAU);
            assert!(
                delta.abs() < 1e-5 || (TAU - delta).abs() < 1e-5,
                "cycle={cycle} base={base} rot={speed} delta={delta}"
            );
        }
    }
}

#[test]
fn glyph_rotation_off_keeps_base_angle() {
    let p = generate_orb_params(42, 16, &weights(&[1.0]));
    for cycle in 1..=4 {
        for q in &p {
            for &t in &[0.0_f32, 0.13, 0.25, 0.5, 0.77, 1.0] {
                let base = f(q.base_angle);
                let a = glyph_rotation_angle(cycle, t, base, f(q.rot_speed_signed), false);
                assert!((a - base).abs() < 1e-6, "cycle={cycle} t={t} base={base} got={a}");
            }
        }
    }
}

#[test]
fn wgsl_glyph_rotation_angle_matches_rust_rem_euclid() {
    let wgsl_angle = |cycle: u32, t: f32, base_angle: f32, speed: f32| {
        let x = cycle as f32 * speed * t;
        base_angle + (x - x.floor()) * TAU
    };
    let base_angles = [0.0_f32, 0.3, 1.7, std::f32::consts::PI];
    let speeds = [-2.0_f32, -1.0, -0.5, 0.5, 1.0, 2.0, 3.0];
    let times = [0.0_f32, 0.1, 0.25, 0.4999, 0.5, 0.7777, 0.9, 1.0];
    for cycle in 1u32..=4 {
        for &base_angle in &base_angles {
            for &speed in &speeds {
                for &t in &times {
                    let rust = glyph_rotation_angle(cycle, t, base_angle, speed, true);
                    let wgsl = wgsl_angle(cycle, t, base_angle, speed);
                    assert!(
                        (rust - wgsl).abs() < 1e-5,
                        "cycle={cycle} base={base_angle} speed={speed} t={t} {rust} {wgsl}"
                    );
                }
            }
        }
    }
}

#[test]
fn glyph_rotation_does_not_perturb_legacy_rng_sequence() {
    let seed = 42;
    let ws = [0.7f32, 0.3];
    let params = generate_orb_params(seed, 8, &weights(&ws));
    let mut rng = rand_chacha::ChaCha8Rng::seed_from_u64(seed);
    let total_w: f32 = ws.iter().sum();
    for p in &params {
        let phase: f32 = rng.gen_range(0.0..1.0);
        let phi_radius: f32 = rng.gen_range(0.0..TAU);
        let phi_blur: f32 = rng.gen_range(0.0..TAU);
        let phi_opacity: f32 = rng.gen_range(0.0..TAU);
        let cross_axis: f32 = rng.gen_range(0.0..1.0);
        let style = if rng.gen::<u32>() & 1 == 0 { OrbStyle::Rim } else { OrbStyle::Soft };
        let cluster_idx = pick_weighted(&mut rng, &ws, total_w);
        let speed_mult: u32 = rng.gen_range(1..=3);
        assert_eq!(f(p.phase), phase);
        assert_eq!(f(p.phi_radius), phi_radius);
        assert_eq!(f(p.phi_blur), phi_blur);
        assert_eq!(f(p.phi_opacity), phi_opacity);
        assert_eq!(f(p.cross_axis), cross_axis);
        assert_eq!(p.style, style);
        assert_eq!(p.cluster_idx, cluster_idx);
        assert_eq!(p.speed_mult, speed_mult);
    }
}

#[test]
fn breath_phases_are_seeded_per_orb_and_per_axis() {
    let p = generate_orb_params(42, 16, &weights(&[1.0]));
    for op in &p {
        assert!(
            (f(op.phi_radius) - f(op.phi_blur)).abs() > 1e-6
                || (f(op.phi_blur) - f(op.phi_opacity)).abs() > 1e-6
        );
    }
    let spread = |values: Vec<f32>| {
        let low = values.iter().fold(f32::INFINITY, |a, v| a.min(*v));
        let high = values.iter().fold(f32::NEG_INFINITY, |a, v| a.max(*v));
        high - low
    };
    assert!(spread(p.iter().map(|q| f(q.phi_radius)).collect()) > 1.0);
    assert!(spread(p.iter().map(|q| f(q.phi_blur)).collect()) > 1.0);
    assert!(spread(p.iter().map(|q| f(q.phi_opacity)).collect()) > 1.0);
}

#[test]
fn pack_header13_carries_clamped_shadow_strength() {
    let clusters = vec![track_cluster([200, 100, 50], 0.5, 0.5, 1.0)];
    let word = |s: f32| {
        let pack = pack_render_data(
            &clusters,
            [0, 0, 0, 255],
            b(32.0),
            b(0.5),
            b(0.0),
            b(2.0),
            7,
            1,
            b(1.0),
            b(0.0),
            true,
            b(0.5),
            b(s),
            None,
        );
        f(pack[13])
    };
    assert_eq!(word(0.7), 0.7, "in-range value must pass through");
    assert_eq!(word(0.0), 0.0, "0.0 is inclusive");
    assert_eq!(word(1.0), 1.0, "1.0 is inclusive");
    assert_eq!(word(-0.5), 0.0, "below range clamps to 0");
    assert_eq!(word(1.5), 1.0, "above range clamps to 1");
}

fn track_cluster(color: [u8; 3], cx: f32, cy: f32, weight: f32) -> Cluster {
    Cluster { color, centroid: Centroid { x: b(cx), y: b(cy) }, weight: b(weight) }
}

fn key(color: [u8; 3], cx: f32, cy: f32, weight: f32, time: f32) -> KeyframeClusterPoint {
    KeyframeClusterPoint {
        color,
        centroid: Centroid { x: b(cx), y: b(cy) },
        weight: b(weight),
        time: b(time),
    }
}

#[test]
fn apply_color_tracks_none_returns_input_unchanged() {
    let clusters = vec![
        track_cluster([10, 20, 30], 0.1, 0.2, 0.3),
        track_cluster([200, 100, 50], 0.7, 0.8, 0.6),
    ];
    let opts = AnimateOptions::default();
    let out = apply_color_tracks_at_t(&clusters, &opts, b(0.5));
    assert_eq!(out, clusters, "no tracks: clusters must pass through unchanged");
}

#[test]
fn apply_color_tracks_color_track_overwrites_color_only() {
    let clusters = vec![track_cluster([10, 20, 30], 0.1, 0.2, 0.3)];
    let opts = AnimateOptions {
        color_tracks: Some(vec![vec![[0, 0, 0], [100, 200, 40]]]),
        ..AnimateOptions::default()
    };
    let out = apply_color_tracks_at_t(&clusters, &opts, b(1.0));
    assert_eq!(out[0].color, [100, 200, 40], "color must come from the track");
    assert_eq!(out[0].centroid, clusters[0].centroid, "centroid must be untouched");
    assert_eq!(out[0].weight, clusters[0].weight, "weight must be untouched");
}

#[test]
fn apply_color_tracks_keyframe_track_reflects_color_only() {
    let clusters = vec![track_cluster([0, 0, 0], 0.5, 0.5, 0.5)];
    let opts = AnimateOptions {
        keyframe_tracks: Some(vec![vec![
            key([0, 0, 0], 0.0, 0.0, 0.0, 0.0),
            key([200, 100, 50], 1.0, 1.0, 1.0, 1.0),
        ]]),
        ..AnimateOptions::default()
    };
    let out = apply_color_tracks_at_t(&clusters, &opts, b(1.0));
    assert_eq!(out[0].color, [200, 100, 50], "color must come from the keyframe");
    assert_eq!(out[0].centroid, Centroid { x: b(0.5), y: b(0.5) });
    assert_eq!(out[0].weight, b(0.5), "keyframe weight must be discarded");
}

#[test]
fn apply_color_tracks_keyframe_wins_over_color_track() {
    let clusters = vec![track_cluster([0, 0, 0], 0.5, 0.5, 0.5)];
    let opts = AnimateOptions {
        color_tracks: Some(vec![vec![[9, 9, 9], [9, 9, 9]]]),
        keyframe_tracks: Some(vec![vec![
            key([1, 2, 3], 0.0, 0.0, 0.0, 0.0),
            key([77, 88, 99], 1.0, 1.0, 1.0, 1.0),
        ]]),
        ..AnimateOptions::default()
    };
    let out = apply_color_tracks_at_t(&clusters, &opts, b(1.0));
    assert_eq!(out[0].color, [77, 88, 99], "keyframe track must win over color track");
}

#[test]
fn apply_color_tracks_empty_track_falls_back_to_cluster_color() {
    let clusters = vec![
        track_cluster([10, 20, 30], 0.1, 0.2, 0.3),
        track_cluster([200, 100, 50], 0.7, 0.8, 0.6),
    ];
    let opts = AnimateOptions {
        color_tracks: Some(vec![vec![], vec![[5, 5, 5], [250, 250, 250]]]),
        ..AnimateOptions::default()
    };
    let out = apply_color_tracks_at_t(&clusters, &opts, b(1.0));
    assert_eq!(out[0].color, [10, 20, 30], "empty track: keep cluster color");
    assert_eq!(out[1].color, [250, 250, 250], "non-empty track: track color");
}

fn kfp(cx: f32, cy: f32, time: f32) -> KeyframeClusterPoint {
    key([0, 0, 0], cx, cy, 0.0, time)
}

fn drift_opts(tracks: Option<Vec<Vec<KeyframeClusterPoint>>>) -> AnimateOptions {
    AnimateOptions { keyframe_tracks: tracks, ..AnimateOptions::default() }
}

fn drift(opts: &AnimateOptions, t: f32, direction: f32, n: usize) -> Option<Vec<f32>> {
    keyframe_cross_drift(opts, b(t), b(direction), n).map(|d| d.into_iter().map(f).collect())
}

fn approx(a: f32, b: f32, label: &str) {
    assert!((a - b).abs() < 1e-6, "{label}: expected ~{b}, got {a}");
}

fn y_wobble() -> Vec<KeyframeClusterPoint> {
    vec![kfp(0.5, 0.2, 0.0), kfp(0.5, 0.8, 0.5), kfp(0.5, 0.2, 1.0)]
}

#[test]
fn keyframe_cross_drift_none_tracks_returns_none() {
    assert!(drift(&drift_opts(None), 0.5, 0.0, 3).is_none(), "no tracks");
}

#[test]
fn keyframe_cross_drift_empty_tracks_returns_none() {
    assert!(drift(&drift_opts(Some(vec![])), 0.5, 0.0, 3).is_none(), "empty tracks");
}

#[test]
fn keyframe_cross_drift_t0_is_all_zero_delta() {
    let opts = drift_opts(Some(vec![
        vec![kfp(0.2, 0.2, 0.0), kfp(0.9, 0.8, 1.0)],
        vec![kfp(0.5, 0.1, 0.0), kfp(0.5, 0.7, 1.0)],
    ]));
    let d = drift(&opts, 0.0, 0.0, 2).expect("Some at t=0");
    for (i, x) in d.iter().enumerate() {
        approx(*x, 0.0, &format!("t=0 drift for cluster {i}"));
    }
}

#[test]
fn keyframe_cross_drift_linear_track_is_zero_after_detrend() {
    let opts = drift_opts(Some(vec![vec![kfp(0.5, 0.2, 0.0), kfp(0.5, 0.8, 1.0)]]));
    for &t in &[0.0f32, 0.5, 1.0] {
        let d = drift(&opts, t, 0.0, 1).expect("Some")[0];
        approx(d, 0.0, &format!("linear sweep at t={t}"));
    }
}

#[test]
fn keyframe_cross_drift_lr_wobble_uses_centroid_y() {
    let fixed_x = drift_opts(Some(vec![y_wobble()]));
    approx(drift(&fixed_x, 0.5, 0.0, 1).expect("Some")[0], gain() * 0.6, "t=0.5");
    approx(drift(&fixed_x, 0.0, 0.0, 1).expect("Some")[0], 0.0, "t=0");
    approx(drift(&fixed_x, 1.0, 0.0, 1).expect("Some")[0], 0.0, "t=1");
    let moving_x = drift_opts(Some(vec![vec![
        kfp(0.1, 0.2, 0.0),
        kfp(0.95, 0.8, 0.5),
        kfp(0.1, 0.2, 1.0),
    ]]));
    approx(drift(&moving_x, 0.5, 0.0, 1).expect("Some")[0], gain() * 0.6, "x-invariant");
}

#[test]
fn keyframe_cross_drift_tb_uses_centroid_x() {
    let fixed_y = drift_opts(Some(vec![vec![
        kfp(0.2, 0.5, 0.0),
        kfp(0.8, 0.5, 0.5),
        kfp(0.2, 0.5, 1.0),
    ]]));
    approx(drift(&fixed_y, 0.5, 2.0, 1).expect("Some")[0], gain() * 0.6, "t=0.5");
    approx(drift(&fixed_y, 0.0, 2.0, 1).expect("Some")[0], 0.0, "t=0");
    approx(drift(&fixed_y, 1.0, 2.0, 1).expect("Some")[0], 0.0, "t=1");
    let moving_y = drift_opts(Some(vec![vec![
        kfp(0.2, 0.1, 0.0),
        kfp(0.8, 0.95, 0.5),
        kfp(0.2, 0.1, 1.0),
    ]]));
    approx(drift(&moving_y, 0.5, 2.0, 1).expect("Some")[0], gain() * 0.6, "y-invariant");
}

#[test]
fn keyframe_cross_drift_axis_switch_boundary_rl_vs_tb() {
    let opts = drift_opts(Some(vec![vec![
        kfp(0.2, 0.1, 0.0),
        kfp(0.7, 0.9, 0.5),
        kfp(0.2, 0.1, 1.0),
    ]]));
    approx(drift(&opts, 0.5, 1.0, 1).expect("Some")[0], gain() * 0.8, "right to left: y");
    approx(drift(&opts, 0.5, 2.0, 1).expect("Some")[0], gain() * 0.5, "top to bottom: x");
}

#[test]
fn keyframe_cross_drift_loop_closes_t0_and_t1_are_zero() {
    let opts = drift_opts(Some(vec![
        vec![kfp(0.5, 0.1, 0.0), kfp(0.5, 0.9, 0.3), kfp(0.5, 0.4, 1.0)],
        vec![kfp(0.2, 0.2, 0.0), kfp(0.7, 0.8, 0.5), kfp(0.3, 0.1, 1.0)],
    ]));
    for &dir in &[0.0f32, 2.0] {
        let d0 = drift(&opts, 0.0, dir, 2).expect("Some");
        let d1 = drift(&opts, 1.0, dir, 2).expect("Some");
        for c in 0..2 {
            approx(d0[c], 0.0, &format!("dir={dir} cluster {c} t=0"));
            approx(d1[c], 0.0, &format!("dir={dir} cluster {c} t=1"));
        }
    }
}

#[test]
fn keyframe_cross_drift_applies_subtle_gain() {
    let opts = drift_opts(Some(vec![y_wobble()]));
    let got = drift(&opts, 0.5, 0.0, 1).expect("Some")[0];
    let raw_detrended = 0.6f32;
    approx(got, gain() * raw_detrended, "gain applied once");
}

#[test]
fn keyframe_cross_drift_empty_track_index_is_zero() {
    let opts = drift_opts(Some(vec![vec![], y_wobble()]));
    let d = drift(&opts, 0.5, 0.0, 2).expect("Some");
    approx(d[0], 0.0, "empty track");
    approx(d[1], gain() * 0.6, "real wobble");
}

#[test]
fn keyframe_cross_drift_output_len_is_n_clusters_not_tracks_len() {
    let few = drift_opts(Some(vec![y_wobble()]));
    let d = drift(&few, 0.5, 0.0, 3).expect("Some");
    assert_eq!(d.len(), 3, "len must equal n_clusters");
    approx(d[0], gain() * 0.6, "cluster 0 wobbles");
    approx(d[1], 0.0, "no track");
    approx(d[2], 0.0, "no track");
    let many = drift_opts(Some(vec![
        vec![kfp(0.5, 0.2, 0.0), kfp(0.5, 0.8, 1.0)],
        vec![kfp(0.5, 0.1, 0.0), kfp(0.5, 0.5, 1.0)],
        vec![kfp(0.5, 0.0, 0.0), kfp(0.5, 1.0, 1.0)],
    ]));
    let d = drift(&many, 0.5, 0.0, 2).expect("Some");
    assert_eq!(d.len(), 2, "surplus tracks ignored");
}

#[test]
fn keyframe_cross_drift_nan_t_does_not_panic_and_is_zero() {
    let opts = drift_opts(Some(vec![y_wobble()]));
    let d = drift(&opts, f32::NAN, 0.0, 1).expect("Some");
    approx(d[0], 0.0, "NaN t");
}

fn pack_with_drift(clusters: &[Cluster], n_orbs: usize, drift: Option<&[f32]>) -> Vec<f32> {
    let words: Option<Vec<Binary32>> = drift.map(|d| d.iter().map(|x| b(*x)).collect());
    pack_render_data(
        clusters,
        [0, 0, 0, 255],
        b(32.0),
        b(0.5),
        b(0.0),
        b(2.0),
        7,
        n_orbs,
        b(1.0),
        b(0.0),
        true,
        b(0.5),
        b(0.5),
        words.as_deref(),
    )
    .into_iter()
    .map(f)
    .collect()
}

#[test]
fn pack_off13_zero_when_cross_drift_none() {
    let clusters = vec![
        track_cluster([200, 100, 50], 0.3, 0.4, 0.5),
        track_cluster([50, 100, 200], 0.7, 0.6, 0.5),
    ];
    let n_orbs = 6;
    let pack = pack_with_drift(&clusters, n_orbs, None);
    for i in 0..n_orbs {
        let off = 16 + 16 * i;
        assert_eq!(pack[off + 13], 0.0, "orb {i}");
    }
}

#[test]
fn pack_off13_carries_per_cluster_drift_by_cluster_idx() {
    let clusters = vec![
        track_cluster([200, 0, 0], 0.3, 0.4, 0.5),
        track_cluster([0, 0, 200], 0.7, 0.6, 0.5),
    ];
    let drift = [0.11f32, 0.22f32];
    let n_orbs = 8;
    let pack = pack_with_drift(&clusters, n_orbs, Some(&drift));
    for i in 0..n_orbs {
        let off = 16 + 16 * i;
        let red = pack[off];
        let cluster_idx = if (red - 200.0 / 255.0).abs() < 1e-3 { 0 } else { 1 };
        assert!(
            (pack[off + 13] - drift[cluster_idx]).abs() < 1e-6,
            "orb {i} (cluster {cluster_idx})"
        );
    }
}

#[test]
fn pack_drift_is_per_cluster_not_striped() {
    let clusters = vec![track_cluster([120, 120, 120], 0.5, 0.5, 1.0)];
    let drift = [0.5f32];
    let n_orbs = 8;
    let pack = pack_with_drift(&clusters, n_orbs, Some(&drift));
    let mut cross_axes = Vec::new();
    for i in 0..n_orbs {
        let off = 16 + 16 * i;
        assert!((pack[off + 13] - 0.5).abs() < 1e-6, "orb {i} shares the delta");
        cross_axes.push(pack[off + 8]);
    }
    let first = cross_axes[0];
    assert!(
        cross_axes.iter().any(|&c| (c - first).abs() > 1e-3),
        "cross_axis must still scatter across orbs: {cross_axes:?}"
    );
}

#[test]
fn more_orbs_leave_the_first_ones_alone() {
    let few = generate_orb_params(5, 4, &weights(&[0.6, 0.4]));
    let many = generate_orb_params(5, 9, &weights(&[0.6, 0.4]));
    assert_eq!(few[..], many[..4]);
    assert_ne!(many[3], many[4]);
}

#[test]
fn drift_of_an_uneven_track_closes_exactly() {
    let track = vec![kfp(0.31, 0.17, 0.0), kfp(0.9, 0.77, 0.4), kfp(0.13, 0.59, 1.0)];
    let opts = drift_opts(Some(vec![track]));
    assert_eq!(drift(&opts, 0.0, 0.0, 1), Some(vec![0.0]));
    assert_eq!(drift(&opts, 1.0, 2.0, 1), Some(vec![0.0]));
}

#[test]
fn packed_words_of_one_orb() {
    let clusters = vec![track_cluster([255, 51, 0], 0.5, 0.5, 0.25)];
    let pack = pack_with_drift(&clusters, 1, None);
    assert_eq!(pack.len(), 32);
    assert_eq!(&pack[0..4], &[0.0, 0.0, 0.0, 1.0]);
    assert_eq!(&pack[4..9], &[32.0, 0.5, 0.0, 2.0, 1.0]);
    assert_eq!(&pack[16..19], &[1.0, 51.0 / 255.0, 0.0]);
    assert_eq!(pack[19], 0.25);
    let p = generate_orb_params(7, 1, &weights(&[0.25]))[0];
    assert_eq!(pack[20], f(p.phase));
    assert_eq!(pack[24], f(p.cross_axis));
}

#[test]
fn hashes_are_those_of_splitmix() {
    assert_eq!(splitmix64(0), 0xe220_a839_7b1d_cdaf);
    let x: u64 = 0x1234_5678_9abc_def0;
    assert_eq!(f(unit_from_hash(x)), (x >> 40) as f32 / (1u64 << 24) as f32);
    assert_eq!(f(unit_from_hash(0)), 0.0);
}

#[test]
fn default_options() {
    let o = AnimateOptions::default();
    assert_eq!((o.width, o.height), (1080, 1920));
    assert_eq!(f(o.orb_size), 1.0);
    assert_eq!(f(o.blur), 0.5);
    assert_eq!(f(o.shadow_strength), 0.2);
    assert_eq!(f32::from_bits(SHADOW_STRENGTH_DEFAULT), 0.2);
    assert_eq!(gain(), 0.1);
    assert_eq!(MAX_ORB_COUNT, 1024);
    assert!(o.color_tracks.is_none() && o.keyframe_tracks.is_none() && o.count.is_none());
}

#[test]
fn an_orb_follows_its_draws() {
    let w = weights(&[0.5, 0.25, 0.25]);
    let draws = OrbDraws {
        phase: b(0.125),
        phi_radius: b(1.0),
        phi_blur: b(2.0),
        phi_opacity: b(3.0),
        cross_axis: b(0.75),
        word: 6,
        pick: b(0.6),
        speed_mult: 3,
    };
    let orb = orb_from_draws(7, &w, b(1.0), 4, draws);
    assert_eq!((f(orb.phase), f(orb.cross_axis)), (0.125, 0.75));
    assert_eq!((f(orb.phi_radius), f(orb.phi_blur), f(orb.phi_opacity)), (1.0, 2.0, 3.0));
    assert_eq!((orb.cluster_idx, orb.speed_mult), (1, 3));
    assert_eq!(orb.style, OrbStyle::Rim);
    assert_eq!(f(orb.rot_speed_signed).abs(), 3.0);
    let other = orb_from_draws(7, &w, b(1.0), 4, OrbDraws { word: 5, pick: b(0.9), ..draws });
    assert_eq!((other.style, other.cluster_idx), (OrbStyle::Soft, 2));
    // the turning rests on seed and number alone
    assert_eq!(other.base_angle, orb.base_angle);
    assert_eq!(index_by_weight(&w, b(1.0), b(0.0)), 0);
    assert_eq!(index_by_weight(&w, b(1.0), b(0.5)), 0);
    assert_eq!(index_by_weight(&w, b(1.0), b(1.0)), 2);
    assert_eq!(index_by_weight(&weights(&[0.0, 0.0]), b(0.0), b(0.9)), 0);
    assert_eq!(index_by_weight(&vec![], b(1.0), b(0.9)), 0);
}

#[test]
fn a_straight_way_has_next_to_no_drift() {
    let point = |x: f32, y: f32, time: f32| KeyframeClusterPoint {
        color: [0, 0, 0],
        centroid: Centroid { x: b(x), y: b(y) },
        weight: b(0.0),
        time: b(time),
    };
    for i in 0..=100u32 {
        let (x, y) = (i as f32 / 100.0, (i * 37 % 101) as f32 / 101.0);
        let opts = AnimateOptions {
            keyframe_tracks: Some(vec![vec![point(x, y, 0.0), point(1.0 - y, x, 1.0)]]),
            ..AnimateOptions::default()
        };
        for j in 0..=97u32 {
            for direction in [0.0, 2.0] {
                let d = keyframe_cross_drift(&opts, b(j as f32 / 97.0), b(direction), 1).unwrap();
                assert!(f(d[0]).abs() <= 1.0 / 4194304.0, "{i} {j}: {}", f(d[0]));
            }
        }
    }
}
