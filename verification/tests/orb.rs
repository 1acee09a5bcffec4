use orber::binary32::Binary32;
use orber::glyph::GlyphFontId;
use orber::orb::{
    adjust_saturation_pub, channel_to_number, number_to_channel, scale_saturation,
    AquarelleParams, OrbShape, OrbStyle, RenderOptions,
};
use palette::{FromColor, Hsl, Srgb};

fn b(x: f32) -> Binary32 {
    Binary32::from_bits(x.to_bits())
}

fn adjust_saturation(rgb: [u8; 3], factor: f32) -> [u8; 3] {
    adjust_saturation_pub(rgb, b(factor))
}

#[test]
fn adjust_saturation_identity_passthrough() {
    assert_eq!(adjust_saturation([220, 30, 40], 1.0), [220, 30, 40]);
    assert_eq!(adjust_saturation([220, 30, 40], 1.00005), [220, 30, 40]);
}

#[test]
fn adjust_saturation_zero_is_grayscale() {
    let [r, g, b] = adjust_saturation([220, 30, 40], 0.0);
    let (r, g, b) = (r as i32, g as i32, b as i32);
    assert!(
        (r - g).abs() <= 2 && (g - b).abs() <= 2 && (r - b).abs() <= 2,
        "saturation=0 should produce grayscale, got R={r} G={g} B={b}"
    );
}

#[test]
fn adjust_saturation_boost_increases_chroma() {
    let base = [180u8, 90, 90];
    let boosted = adjust_saturation(base, 2.0);
    let spread = |c: [u8; 3]| c[0] as i32 - c[1] as i32;
    assert!(spread(boosted) >= spread(base), "base={base:?} boosted={boosted:?}");
}

#[test]
fn adjust_saturation_pub_matches_internal() {
    for factor in [0.0_f32, 0.5, 1.0, 2.0, 4.0] {
        let rgb: [u8; 3] = [120, 200, 60];
        let expected = if factor == 1.0 {
            rgb
        } else {
            let number = |c: u8| c as f32 / 255.0;
            let mut hsl =
                Hsl::from_color(Srgb::new(number(rgb[0]), number(rgb[1]), number(rgb[2])));
            hsl.saturation = (hsl.saturation * factor).clamp(0.0, 1.0);
            let out = Srgb::from_color(hsl);
            let byte = |x: f32| (x.clamp(0.0, 1.0) * 255.0).round() as u8;
            [byte(out.red), byte(out.green), byte(out.blue)]
        };
        assert_eq!(adjust_saturation(rgb, factor), expected, "factor {factor}");
    }
}

#[test]
fn orb_shape_eq_is_shape_only() {
    let a = OrbShape::Image { sdf: vec![1u8; 256 * 256], size: 256 };
    let b_ = OrbShape::Image { sdf: vec![0u8; 256 * 256], size: 256 };
    assert_eq!(a, b_, "Image == Image must be true regardless of SDF bytes");
    assert_ne!(a, OrbShape::Orb);
    let params = AquarelleParams { bleed: b(0.5), bloom: b(0.5), offset: b(0.5), halo: b(0.5) };
    assert_eq!(
        OrbShape::Aquarelle(params),
        OrbShape::Aquarelle(AquarelleParams {
            bleed: b(0.1),
            bloom: b(0.9),
            offset: b(0.2),
            halo: b(0.8),
        }),
        "Aquarelle == Aquarelle ignores params"
    );
    let glyph = |ch: char| OrbShape::Glyph { ch, font: GlyphFontId::NotoSymbols2 };
    assert_eq!(glyph('\u{2606}'), glyph('\u{2606}'));
    assert_ne!(glyph('\u{2606}'), glyph('\u{2605}'));
}

#[test]
fn channels_come_back_from_numbers() {
    for c in 0..=255u8 {
        assert_eq!(number_to_channel(channel_to_number(c)), c);
    }
    assert_eq!(number_to_channel(b(-0.5)), 0);
    assert_eq!(number_to_channel(b(1.5)), 255);
    assert_eq!(number_to_channel(b(0.5)), 128);
}

#[test]
fn saturation_stays_within_the_unit() {
    assert_eq!(scale_saturation(b(0.5), b(4.0)), b(1.0));
    assert_eq!(scale_saturation(b(0.5), b(0.5)), b(0.25));
}

#[test]
fn defaults() {
    assert_eq!(OrbStyle::default(), OrbStyle::Rim);
    assert_eq!(OrbShape::default(), OrbShape::Orb);
    let o = RenderOptions::default();
    assert_eq!((o.width, o.height), (1080, 1920));
    assert_eq!(o.orb_size, b(1.0));
    assert_eq!(o.blur, b(0.5));
    assert_eq!(o.saturation, b(1.0));
    assert_eq!(o.background, [0, 0, 0, 255]);
}
