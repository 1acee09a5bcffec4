use orber::binary32::Binary32;
use orber::cluster::{Centroid, Cluster};
use orber::style::{
    falloff_curve, render_css, render_svg, rim_mid_stop, soft_hold_stop, FalloffProfile,
    SoftnessPreset, StyleOptions,
};

fn b(x: f32) -> Binary32 {
    Binary32::from_bits(x.to_bits())
}

fn f(x: Binary32) -> f32 {
    f32::from_bits(x.bits)
}

fn falloff(profile: FalloffProfile, r: f32, blur: f32, opacity: f32) -> f32 {
    f(falloff_curve(profile, b(r), b(blur), b(opacity)))
}

fn cluster(color: [u8; 3], cx: f32, cy: f32, weight: f32) -> Cluster {
    Cluster { color, centroid: Centroid { x: b(cx), y: b(cy) }, weight: b(weight) }
}

fn six_clusters() -> Vec<Cluster> {
    vec![
        cluster([200, 100, 50], 0.1, 0.1, 0.3),
        cluster([50, 200, 100], 0.5, 0.2, 0.2),
        cluster([100, 50, 200], 0.9, 0.3, 0.15),
        cluster([255, 255, 0], 0.2, 0.7, 0.15),
        cluster([0, 255, 255], 0.5, 0.8, 0.1),
        cluster([255, 0, 255], 0.8, 0.9, 0.1),
    ]
}

#[test]
fn svg_contains_expected_elements() {
    let svg = render_svg(&six_clusters(), &StyleOptions::default());
    assert_eq!(svg.matches("<radialGradient").count(), 6);
    assert_eq!(svg.matches("<circle ").count(), 6);
    assert!(svg.contains("viewBox=\"0 0 1080 1920\""));
    assert!(svg.contains("<rect width=\"100%\" height=\"100%\" fill=\"rgb(0,0,0)\""));
    assert!(svg.starts_with("<?xml version=\"1.0\" encoding=\"UTF-8\"?>\n"));
    assert!(svg.ends_with("</svg>\n"));
}

#[test]
fn css_contains_expected_gradients() {
    let css = render_css(&six_clusters(), &StyleOptions::default());
    assert_eq!(css.matches("radial-gradient(").count(), 6);
    assert!(css.contains("--orber-bg:"));
    let semi = css.find(";\n}").expect("CSS must end with ;\\n}");
    let before_semi: char = css[..semi].chars().next_back().unwrap();
    assert_eq!(before_semi, ')', "last char before ';' must be ')', got {before_semi:?}");
}

#[test]
fn deterministic_svg() {
    let clusters = six_clusters();
    let opts = StyleOptions::default();
    assert_eq!(render_svg(&clusters, &opts), render_svg(&clusters, &opts));
}

#[test]
fn deterministic_css() {
    let clusters = six_clusters();
    let opts = StyleOptions::default();
    assert_eq!(render_css(&clusters, &opts), render_css(&clusters, &opts));
}

#[test]
fn falloff_curve_rim_matches_expected_stops() {
    let blur = 0.5;
    let opacity = 1.0;
    assert_eq!(falloff(FalloffProfile::Rim, 0.0, blur, opacity), 1.0);
    assert_eq!(falloff(FalloffProfile::Rim, 1.0, blur, opacity), 0.0);
    let mid = f(rim_mid_stop(b(blur)));
    let alpha_mid = falloff(FalloffProfile::Rim, mid, blur, opacity);
    assert!((alpha_mid - (80.0 / 255.0)).abs() < 1e-6);
}

#[test]
fn falloff_curve_soft_holds_then_fades() {
    let blur = 0.25;
    let opacity = 0.8;
    let hold = f(soft_hold_stop(b(blur)));
    assert!((falloff(FalloffProfile::Soft, 0.0, blur, opacity) - opacity).abs() < 1e-6);
    assert!((falloff(FalloffProfile::Soft, hold, blur, opacity) - opacity).abs() < 1e-6);
    assert_eq!(falloff(FalloffProfile::Soft, 1.0, blur, opacity), 0.0);
}

#[test]
fn saturation_zero_grays_colors_svg() {
    let opts = StyleOptions { saturation: b(0.0), ..StyleOptions::default() };
    let svg = render_svg(&six_clusters(), &opts);
    let mut found_gray = false;
    for line in svg.lines() {
        if let Some(start) = line.find("rgb(") {
            let rest = &line[start + 4..];
            if let Some(end) = rest.find(')') {
                let parts: Vec<&str> = rest[..end].split(',').collect();
                if parts.len() == 3 {
                    let r: i32 = parts[0].trim().parse().unwrap();
                    let g: i32 = parts[1].trim().parse().unwrap();
                    let b: i32 = parts[2].trim().parse().unwrap();
                    if (r - g).abs() <= 1 && (g - b).abs() <= 1 && (r - b).abs() <= 1 {
                        found_gray = true;
                        break;
                    }
                }
            }
        }
    }
    assert!(found_gray, "saturation=0 should produce a grayscale stop");
}

fn read_pct_after(hay: &str, marker: &str, from: usize) -> Option<(i32, usize)> {
    let pos = hay[from..].find(marker)? + from;
    let bytes = hay.as_bytes();
    let mut i = pos + marker.len();
    while i < bytes.len() && bytes[i] == b' ' {
        i += 1;
    }
    let start = i;
    while i < bytes.len() && bytes[i].is_ascii_digit() {
        i += 1;
    }
    if i == start || i >= bytes.len() || bytes[i] != b'%' {
        return None;
    }
    let n = hay[start..i].parse::<i32>().ok()?;
    Some((n, i + 1))
}

/// The three stops of each gradient, in percent.
fn extract_css_stops(css: &str) -> Vec<(i32, i32, i32)> {
    let mut out = Vec::new();
    let mut cursor = 0usize;
    while let Some(rel) = css[cursor..].find("radial-gradient(") {
        let base = cursor + rel + "radial-gradient(".len();
        let (s0, p1) = match read_pct_after(css, ",1) ", base) {
            Some(v) => v,
            None => break,
        };
        let (mid, p2) = match read_pct_after(css, ",0.5) ", p1) {
            Some(v) => v,
            None => break,
        };
        let (end, p3) = match read_pct_after(css, ",0) ", p2) {
            Some(v) => v,
            None => break,
        };
        out.push((s0, mid, end));
        cursor = p3;
    }
    out
}

#[test]
fn css_stops_strictly_monotonic_default() {
    let css = render_css(&six_clusters(), &StyleOptions::default());
    let stops = extract_css_stops(&css);
    assert_eq!(stops.len(), 6);
    for (s0, m, e) in stops {
        assert_eq!(s0, 0, "first stop must be 0%");
        assert!(m < e, "mid ({m}) < end ({e}) must hold");
        assert!(m >= 0, "mid ({m}) must be >= 0");
    }
}

#[test]
fn css_stops_strictly_monotonic_boundary_values() {
    let extreme_clusters = vec![
        cluster([200, 100, 50], 0.5, 0.5, 1.0),
        cluster([50, 200, 100], 0.5, 0.5, 0.001),
    ];
    for blur in [0.0_f32, 0.5, 1.0] {
        for orb_size in [0.1_f32, 1.0, 2.0, 4.0] {
            let opts = StyleOptions {
                orb_size: b(orb_size),
                blur: b(blur),
                saturation: b(1.0),
                ..Default::default()
            };
            let css = render_css(&extreme_clusters, &opts);
            let stops = extract_css_stops(&css);
            assert!(!stops.is_empty(), "blur={blur} orb_size={orb_size}");
            for (s0, m, e) in &stops {
                assert_eq!(*s0, 0);
                assert!(m < e, "blur={blur} orb_size={orb_size}: 0/{m}/{e}");
            }
        }
    }
}

#[test]
fn softness_mid_is_regression_compatible_svg() {
    let clusters = six_clusters();
    let opts_default = StyleOptions::default();
    let opts_mid = StyleOptions { softness: SoftnessPreset::Mid, ..StyleOptions::default() };
    assert_eq!(render_svg(&clusters, &opts_default), render_svg(&clusters, &opts_mid));
    assert_eq!(render_css(&clusters, &opts_default), render_css(&clusters, &opts_mid));
}

#[test]
fn softness_low_high_differ_from_mid_svg() {
    let clusters = six_clusters();
    let with = |softness: SoftnessPreset| {
        render_svg(&clusters, &StyleOptions { softness, ..StyleOptions::default() })
    };
    let mid = with(SoftnessPreset::Mid);
    let low = with(SoftnessPreset::Low);
    let high = with(SoftnessPreset::High);
    assert_ne!(low, mid, "Low must produce different SVG than Mid");
    assert_ne!(high, mid, "High must produce different SVG than Mid");
    assert_ne!(low, high, "Low and High must differ from each other");
}

#[test]
fn softness_alpha_mul_and_blur_offset_table() {
    let alpha = |s: SoftnessPreset| f(s.alpha_mul());
    let offset = |s: SoftnessPreset| f(s.blur_offset());
    assert!((alpha(SoftnessPreset::Mid) - 1.0).abs() < 1e-6);
    assert!((offset(SoftnessPreset::Mid) - 0.0).abs() < 1e-6);
    assert!((alpha(SoftnessPreset::Low) - alpha(SoftnessPreset::Mid)).abs() < 1e-6);
    assert!(offset(SoftnessPreset::Low) < offset(SoftnessPreset::Mid));
    assert!(alpha(SoftnessPreset::High) < alpha(SoftnessPreset::Mid));
    assert!(offset(SoftnessPreset::High) > offset(SoftnessPreset::Mid));
    assert_eq!(alpha(SoftnessPreset::High), 0.55);
    assert_eq!((offset(SoftnessPreset::Low), offset(SoftnessPreset::High)), (-0.25, 0.25));
}

#[test]
fn empty_clusters_produces_valid_svg() {
    let svg = render_svg(&[], &StyleOptions::default());
    assert!(svg.contains("<svg"));
    assert!(svg.contains("</svg>"));
    assert!(svg.contains("<rect"));
    assert_eq!(svg.matches("<radialGradient").count(), 0);
    assert_eq!(svg.matches("<circle ").count(), 0);
    let css = render_css(&[], &StyleOptions::default());
    assert!(css.contains("--orber-bg: none"));
    assert_eq!(css.matches("radial-gradient(").count(), 0);
}

#[test]
fn stops_lie_where_the_blur_puts_them() {
    assert_eq!(f(rim_mid_stop(b(0.5))), 0.6);
    assert_eq!(f(rim_mid_stop(b(0.0))), 0.95);
    assert_eq!(f(soft_hold_stop(b(1.0))), 0.05);
    assert_eq!(f(soft_hold_stop(b(0.25))), 0.75);
}

#[test]
fn nothing_is_left_beyond_the_edge() {
    for profile in [FalloffProfile::Rim, FalloffProfile::Soft] {
        assert_eq!(falloff(profile, 1.2, 0.5, 1.0), 0.0);
        assert_eq!(falloff(profile, 0.3, 0.5, 0.0), 0.0);
        assert_eq!(falloff(profile, -1.0, 0.5, 0.7), 0.7);
    }
}

#[test]
fn a_soft_orb_never_gets_more_opaque_outwards() {
    for blur in [-1.0_f32, 0.0, 0.3, 0.5, 1.0, 7.0] {
        for opacity in [0.1_f32, 0.8, 1.0, 3.0] {
            let mut last = f32::INFINITY;
            for i in 0..=1200 {
                let now = falloff(FalloffProfile::Soft, i as f32 / 1000.0, blur, opacity);
                assert!(now <= last, "blur {blur} opacity {opacity} step {i}");
                last = now;
            }
            assert_eq!(last, 0.0);
        }
    }
}

#[test]
fn the_centre_of_an_orb_has_its_full_opacity() {
    for profile in [FalloffProfile::Rim, FalloffProfile::Soft] {
        for blur in [0.0_f32, 0.4, 1.0] {
            assert_eq!(falloff(profile, 0.0, blur, 0.6), 0.6);
            assert_eq!(falloff(profile, -3.0, blur, 2.0), 1.0);
            assert_eq!(falloff(profile, 0.0, blur, -1.0), 0.0);
            assert_eq!(falloff(profile, 1.0, blur, 1.0), 0.0);
        }
    }
}
