use orber::binary32::Binary32;
use orber::glyph::GLYPH_SDF_CONTENT_SPAN_PUB;
use orber::shader::{
    build_orb_sdf_wgsl, build_orb_wgsl, replace_all, substitute_aqua_taps, Shaders,
    AQUA_TAPS_DECL_48, DEFAULT_AQUA_TAPS,
};
use orber::style::{falloff_curve, FalloffProfile};
use orber::wgsl::{AQUA_BLEED_REST, ORB_WGSL_TEMPLATE};

fn orb_wgsl() -> String {
    build_orb_wgsl(DEFAULT_AQUA_TAPS)
}

fn orb_sdf_wgsl() -> String {
    build_orb_sdf_wgsl(DEFAULT_AQUA_TAPS)
}

#[test]
fn glyph_wgsl_content_span_matches_rust() {
    let wgsl = orb_sdf_wgsl();
    let needle = "GLYPH_SDF_CONTENT_SPAN: f32 = ";
    let start = wgsl.find(needle).expect("shader must declare the span const") + needle.len();
    let rest = &wgsl[start..];
    let end = rest.find(';').expect("const decl must end with ;");
    let lit: f32 = rest[..end].trim().parse().expect("span literal must parse");
    let span = f32::from_bits(GLYPH_SDF_CONTENT_SPAN_PUB);
    assert_eq!(span, std::f32::consts::FRAC_1_SQRT_2);
    assert!((lit - span).abs() < 1e-6, "GLYPH_SDF_CONTENT_SPAN ({lit}) must match ({span})");
}

#[test]
fn orb_variant_wgsl_inlines_analytic_circle_distance() {
    let wgsl = orb_wgsl();
    assert!(
        wgsl.contains("let r = distance(sp, vec2<f32>(cx, cy)) / radius;"),
        "coverage_at must compute the analytic circle distance"
    );
    assert!(!wgsl.contains("sdf_tex") && !wgsl.contains("sdf_samp"));
    assert!(!wgsl.contains("o.rot") && !wgsl.contains("glyph_rotation_angle"));
    assert!(
        !wgsl.contains("//!ORB_DISTANCE_SOURCE")
            && !wgsl.contains("//!ORB_LOAD")
            && !wgsl.contains("//!ORB_EXTRA_BINDINGS")
            && !wgsl.contains("//!ORB_HELPERS"),
        "every template marker must be substituted away in the orb variant"
    );
}

#[test]
fn orb_variant_has_no_sdf_bindings_or_rot() {
    let wgsl = orb_wgsl();
    assert!(!wgsl.contains("@binding(2)") && !wgsl.contains("@binding(3)"));
    assert!(!wgsl.contains("o.rot"));
    assert!(!wgsl.contains("textureSampleLevel"));
}

#[test]
fn sdf_variant_has_sdf_bindings_and_rot() {
    let wgsl = orb_sdf_wgsl();
    assert!(wgsl.contains("sdf_tex") && wgsl.contains("sdf_samp"));
    assert!(wgsl.contains("@binding(2)") && wgsl.contains("@binding(3)"));
    assert!(wgsl.contains("o.rot") && wgsl.contains("glyph_rotation_angle"));
    assert!(wgsl.contains("textureSampleLevel"));
    assert!(wgsl.contains("r = 1.0 - signed_unit;"));
    assert!(!wgsl.contains("//!ORB"), "every template marker must be substituted away");
}

#[test]
fn wgsl_clip_uses_strict_inequality() {
    let wgsl = orb_sdf_wgsl();
    assert!(wgsl.contains("(u < 0.0 || u > 1.0 || v < 0.0 || v > 1.0)"));
    assert!(
        !wgsl.contains("u <= 0.0")
            && !wgsl.contains("u >= 1.0")
            && !wgsl.contains("v <= 0.0")
            && !wgsl.contains("v >= 1.0")
    );
}

#[test]
fn falloff_early_out_uses_ge_one() {
    let wgsl = ORB_WGSL_TEMPLATE;
    assert!(wgsl.contains("if (opacity <= 0.0 || r_in >= 1.0) {"));
    assert!(!wgsl.contains("r_in > 1.0"));
}

/// The shader text without its comments.
fn wgsl_code_only(src: &str) -> String {
    src.lines().map(|l| l.split("//").next().unwrap_or("")).collect::<Vec<_>>().join("\n")
}

#[test]
fn orb_wgsl_template_has_no_lowp_composite_residue() {
    for (name, src) in [
        ("template", ORB_WGSL_TEMPLATE.to_string()),
        ("orb variant", orb_wgsl()),
        ("sdf variant", orb_sdf_wgsl()),
    ] {
        let code = wgsl_code_only(&src);
        for needle in ["div255", "to_u8_rgb", "to_u8_a", "composite_premul", "acc_a8"] {
            assert!(!code.contains(needle), "{name}: `{needle}` must not appear in code");
        }
    }
}

#[test]
fn orb_wgsl_template_pins_straight_source_over_equations() {
    let wgsl = ORB_WGSL_TEMPLATE;
    assert!(wgsl.contains("let one_minus_a = 1.0 - alpha;"));
    assert!(wgsl.contains("let rgb_scale = cov.y;"));
    assert!(
        wgsl.contains("var src_rgb = hue_rotate(")
            && wgsl.contains("HUE_PULSE_AMP * sin(TAU * (HUE_PULSE_CYCLES * t_frac + phi_opacity))")
    );
    assert!(
        wgsl.contains("if (params.aqua_bleed > 0.0) {")
            && wgsl.contains(
                "src_rgb = aqua_character(src_rgb, alpha, params.aqua_bloom, params.aqua_halo);"
            )
    );
    assert!(wgsl.contains("acc_rgb = src_rgb * rgb_scale * alpha + acc_rgb * one_minus_a;"));
    assert!(wgsl.contains("acc_a = alpha + acc_a * one_minus_a;"));
    assert!(wgsl.contains("opacity * (80.0 / 255.0)"));
    assert!(wgsl.contains("mix(1.0, 1.0 - u, params.shadow_strength)"));
}

#[test]
fn orb_wgsl_template_pins_procedural_wobble_and_hue_pulse() {
    let wgsl = ORB_WGSL_TEMPLATE;
    assert!(
        wgsl.contains("const WOBBLE_AMP")
            && wgsl
                .contains("let wobble = WOBBLE_AMP * sin(TAU * (WOBBLE_CYCLES * t_frac + phase));")
    );
    assert!(wgsl.contains("ny = cross_axis + wobble;") && wgsl.contains("nx = cross_axis + wobble;"));
    assert!(!wgsl.contains("cross_drift"));
    assert!(
        wgsl.contains("const HUE_PULSE_AMP")
            && wgsl.contains("fn hue_rotate(")
            && wgsl.contains("HUE_PULSE_AMP * sin(TAU * (HUE_PULSE_CYCLES * t_frac + phi_opacity))")
    );
}

#[test]
fn aqua_blur_taps_substitution_rewrites_shared_declaration() {
    assert!(aquarelle::AQUA_BLEED_WGSL.contains(AQUA_TAPS_DECL_48));
    for taps in [4u32, 8, 16] {
        for src in [build_orb_wgsl(taps), build_orb_sdf_wgsl(taps)] {
            assert!(
                src.contains(&format!("const AQUA_BLUR_TAPS: u32 = {taps}u;")),
                "built shader must carry the requested {taps} taps"
            );
            assert!(!src.contains(AQUA_TAPS_DECL_48), "taps={taps}");
        }
    }
    let default_decl = format!("const AQUA_BLUR_TAPS: u32 = {DEFAULT_AQUA_TAPS}u;");
    assert!(orb_wgsl().contains(&default_decl) && orb_sdf_wgsl().contains(&default_decl));
}

#[test]
fn orb_wgsl_procedural_amplitudes_are_nonzero() {
    let wgsl = ORB_WGSL_TEMPLATE;
    for (name, prefix) in [
        ("WOBBLE_AMP", "const WOBBLE_AMP: f32 = "),
        ("HUE_PULSE_AMP", "const HUE_PULSE_AMP: f32 = "),
    ] {
        let line = wgsl
            .lines()
            .map(str::trim_start)
            .find(|l| l.starts_with(prefix))
            .unwrap_or_else(|| panic!("{name} const not found in template"));
        let val: f32 = line
            .strip_prefix(prefix)
            .and_then(|rest| rest.trim().trim_end_matches(';').trim().parse().ok())
            .unwrap_or_else(|| panic!("could not parse {name} value from `{line}`"));
        assert!(val > 0.0, "{name} must be > 0");
    }
}

#[test]
fn aqua_bleed_substitutes_geometry_marker() {
    for (name, src) in [("orb", orb_wgsl()), ("sdf", orb_sdf_wgsl())] {
        assert!(!src.contains("//!ORB_AQUA_BLEED_GEOM"), "{name}");
        assert!(src.contains("fn blurred_coverage("), "{name}");
        assert!(src.contains("let aqua_blur_scale = 1.0;"), "{name}");
    }
}

#[test]
fn aqua_bleed_is_gated_real_blur_no_circle_morph() {
    let wgsl = ORB_WGSL_TEMPLATE;
    assert!(wgsl.contains("if (params.aqua_bleed > 0.0) {"));
    assert!(wgsl
        .contains("cov = coverage_at(style_bit, sample_px, cx, cy, radius, blur, opacity, angle);"));
    assert!(wgsl.contains("cov = blurred_coverage("));
    assert!(!wgsl.contains("r_circle") && !wgsl.contains("roundness"));
    assert!(!wgsl.contains("halo_term") && !wgsl.contains("watercolor_bleed("));
}

#[test]
fn aqua_character_axes_gated_and_shape_safe() {
    let wgsl = orb_wgsl();
    assert!(wgsl.contains("if (bloom > 0.0) {") && wgsl.contains("if (halo > 0.0) {"));
    assert!(wgsl.contains(
        "fn aqua_character(color: vec3<f32>, cov_a: f32, bloom: f32, halo: f32) -> vec3<f32>"
    ));
    assert!(wgsl.contains("let sat_gain ="));
    assert!(
        wgsl.contains("params.aqua_offset * AQUA_OFFSET_BIAS")
            && wgsl.contains("let center = sample_px + bias_px;")
    );
    assert!(!wgsl.contains("r_circle") && !wgsl.contains("roundness"));
}

/// Opacity and colour factor as the shader computes them, with a shadow.
fn ref_falloff_curve(
    style_bit: f32,
    r_in: f32,
    blur: f32,
    opacity: f32,
    shadow: f32,
) -> (f32, f32) {
    if opacity <= 0.0 || r_in >= 1.0 {
        return (0.0, 0.0);
    }
    let r = r_in.max(0.0);
    let mix = |a: f32, b: f32, t: f32| a * (1.0 - t) + b * t;
    if style_bit < 0.5 {
        let center_a = opacity;
        let mid_a = opacity * (80.0 / 255.0);
        let mid_stop = (1.0 - blur * 0.8).clamp(0.05, 0.95);
        if r <= mid_stop {
            let u = if mid_stop > 0.0 { r / mid_stop } else { 1.0 };
            return (center_a + (mid_a - center_a) * u, 1.0);
        }
        let denom = (1.0 - mid_stop).max(1e-6);
        let u = (r - mid_stop) / denom;
        return (mid_a * (1.0 - u), mix(1.0, 1.0 - u, shadow));
    }
    let hold_stop = (1.0 - blur).clamp(0.05, 0.95);
    if r <= hold_stop {
        return (opacity, 1.0);
    }
    let denom = (1.0 - hold_stop).max(1e-6);
    let u = (r - hold_stop) / denom;
    (opacity * (1.0 - u), mix(1.0, 1.0 - u, shadow))
}

/// Opacity as the shader computes it without a shadow.
fn ref_falloff_plain(style_bit: f32, r_in: f32, blur: f32, opacity: f32) -> f32 {
    if opacity <= 0.0 || r_in >= 1.0 {
        return 0.0;
    }
    let r = r_in.max(0.0);
    if style_bit < 0.5 {
        let center_a = opacity;
        let mid_a = opacity * (80.0 / 255.0);
        let mid_stop = (1.0 - blur * 0.8).clamp(0.05, 0.95);
        if r <= mid_stop {
            let u = if mid_stop > 0.0 { r / mid_stop } else { 1.0 };
            return center_a + (mid_a - center_a) * u;
        }
        let denom = (1.0 - mid_stop).max(1e-6);
        let u = (r - mid_stop) / denom;
        return mid_a * (1.0 - u);
    }
    let hold_stop = (1.0 - blur).clamp(0.05, 0.95);
    if r <= hold_stop {
        return opacity;
    }
    let denom = (1.0 - hold_stop).max(1e-6);
    let u = (r - hold_stop) / denom;
    opacity * (1.0 - u)
}

#[test]
fn ref_falloff_shadow_zero_degenerates_bitwise() {
    let b = |x: f32| Binary32::from_bits(x.to_bits());
    for style_bit in [0.0f32, 1.0] {
        let profile = if style_bit < 0.5 { FalloffProfile::Rim } else { FalloffProfile::Soft };
        for blur in [0.0f32, 0.25, 0.5, 0.75, 1.0] {
            for opacity in [0.0f32, 0.1, 0.55, 1.0] {
                for i in 0..=120 {
                    let r = i as f32 / 100.0;
                    let (alpha, scale) = ref_falloff_curve(style_bit, r, blur, opacity, 0.0);
                    let plain = ref_falloff_plain(style_bit, r, blur, opacity);
                    assert_eq!(
                        alpha.to_bits(),
                        plain.to_bits(),
                        "style={style_bit}, r={r}, blur={blur}, opacity={opacity}"
                    );
                    if alpha > 0.0 {
                        assert_eq!(
                            scale.to_bits(),
                            1.0f32.to_bits(),
                            "style={style_bit}, r={r}, blur={blur}, opacity={opacity}"
                        );
                    }
                    let library =
                        f32::from_bits(falloff_curve(profile, b(r), b(blur), b(opacity)).bits);
                    assert!(
                        (library - plain).abs() < 1e-6,
                        "style={style_bit}, r={r}, blur={blur}, opacity={opacity}"
                    );
                }
            }
        }
    }
}

#[test]
fn shaders_hold_both_variants() {
    let plain = Shaders::new();
    assert_eq!(plain.aqua_taps, DEFAULT_AQUA_TAPS);
    assert_eq!(plain.orb, orb_wgsl());
    assert_eq!(plain.orb_sdf, orb_sdf_wgsl());
    let heavy = Shaders::with_aqua_taps(16);
    assert_eq!(heavy.aqua_taps, 16);
    assert!(heavy.orb.contains("const AQUA_BLUR_TAPS: u32 = 16u;"));
    assert_ne!(heavy.orb, plain.orb);
}

#[test]
fn no_marker_is_left_in_either_variant() {
    for src in [orb_wgsl(), orb_sdf_wgsl()] {
        assert!(!src.contains("//!"));
    }
    assert!(ORB_WGSL_TEMPLATE.contains("//!ORB_AQUA_BLEED_SHARED"));
}

#[test]
fn replacing_agrees_with_str_replace() {
    for (text, from, to) in [
        ("aXbXc", "X", "--"),
        ("XXX", "XX", "y"),
        ("aaa", "aa", "a"),
        ("", "x", "y"),
        ("none here", "zz", "y"),
        ("ends with X", "X", ""),
        ("\u{e9}X\u{3042}X", "X", "\u{2606}"),
    ] {
        assert_eq!(replace_all(text, from, to), text.replace(from, to), "{text:?} {from:?}");
    }
    assert_eq!(replace_all("keep it", "it", "it"), "keep it");
}

#[test]
fn taps_replace_the_declaration_only() {
    let src = format!("a\n{AQUA_TAPS_DECL_48}\nb 48u");
    assert_eq!(substitute_aqua_taps(&src, 7), "a\nconst AQUA_BLUR_TAPS: u32 = 7u;\nb 48u");
    assert_eq!(substitute_aqua_taps(&src, 48), src);
}

/// A device that draws nothing, but checks all that it is handed.
fn checking_device() -> wgpu::Device {
    let mut descriptor = wgpu::InstanceDescriptor::new_without_display_handle();
    descriptor.backends = wgpu::Backends::NOOP;
    descriptor.backend_options.noop.enable = true;
    let instance = wgpu::Instance::new(descriptor);
    let adapter = pollster::block_on(
        instance.request_adapter(&wgpu::RequestAdapterOptions::default()),
    )
    .expect("an adapter");
    let (device, _queue) =
        pollster::block_on(adapter.request_device(&wgpu::DeviceDescriptor::default()))
            .expect("a device");
    device
}

#[test]
fn both_variants_are_valid_shaders() {
    let device = checking_device();
    for taps in [1, DEFAULT_AQUA_TAPS, 48] {
        for src in [build_orb_wgsl(taps), build_orb_sdf_wgsl(taps)] {
            let scope = device.push_error_scope(wgpu::ErrorFilter::Validation);
            let _ = device.create_shader_module(wgpu::ShaderModuleDescriptor {
                label: None,
                source: wgpu::ShaderSource::Wgsl(src.as_str().into()),
            });
            let error = pollster::block_on(scope.pop());
            assert!(error.is_none(), "{}", error.unwrap());
        }
    }
    let scope = device.push_error_scope(wgpu::ErrorFilter::Validation);
    let _ = device.create_shader_module(wgpu::ShaderModuleDescriptor {
        label: None,
        source: wgpu::ShaderSource::Wgsl(ORB_WGSL_TEMPLATE.into()),
    });
    assert!(
        pollster::block_on(scope.pop()).is_some(),
        "the template alone is no shader"
    );
}

#[test]
fn the_watercolour_text_is_the_one_that_is_shared() {
    let text = aquarelle::AQUA_BLEED_WGSL;
    let tail = format!("{AQUA_TAPS_DECL_48}{AQUA_BLEED_REST}");
    let head = text.strip_suffix(tail.as_str()).expect("the text ends in the expected words");
    assert!(head.ends_with('\n') && !head.contains("//!"));
    assert!(head.lines().all(|l| l.is_empty() || l.starts_with("//")));
    for shader in [build_orb_wgsl(48), build_orb_sdf_wgsl(48)] {
        assert!(shader.contains(text));
        assert!(shader.contains("fn blurred_coverage(") && shader.contains("fn aqua_character("));
    }
}
