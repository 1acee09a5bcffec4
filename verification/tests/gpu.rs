use orber::animate::{
    pack_render_data, AnimateOptions, AquaBleedConfig, MotionDirection, MotionSpeed, MAX_ORB_COUNT,
    SHADOW_STRENGTH_DEFAULT,
};
use orber::binary32::Binary32;
use orber::cluster::{Centroid, Cluster};
use orber::glyph::{GlyphBox, GlyphFontId, OutlinePoint, OutlineStep};
use orber::gpu::{
    align_up, apply_saturation_to_pack, frame_orbs, frame_params, frame_path, frame_radius,
    glyph_sdf_key, grown_capacity, image_sdf_key, orb_texture_words, pack_orb_frame,
    pack_sdf_frame, padded_row, prepare_glyph_frame, prepare_image_frame, resolved_orb_count,
    strip_padding, FramePath, GlyphFields, GlyphLookup, SdfFramePack,
};
use orber::orb::{adjust_saturation_pub, AquarelleParams, OrbShape};
use orber::style::SoftnessPreset;

fn b(x: f32) -> Binary32 {
    Binary32::from_bits(x.to_bits())
}

fn f(x: Binary32) -> f32 {
    f32::from_bits(x.bits)
}

fn cluster(color: [u8; 3], cx: f32, cy: f32, weight: f32) -> Cluster {
    Cluster { color, centroid: Centroid { x: b(cx), y: b(cy) }, weight: b(weight) }
}

fn sample_clusters() -> Vec<Cluster> {
    vec![
        cluster([220, 60, 60], 0.3, 0.4, 0.5),
        cluster([60, 120, 220], 0.7, 0.6, 0.3),
        cluster([200, 200, 80], 0.5, 0.2, 0.2),
        cluster([90, 220, 140], 0.2, 0.8, 0.25),
    ]
}

fn orb_opts(width: u32, height: u32) -> AnimateOptions {
    AnimateOptions {
        width,
        height,
        speed: MotionSpeed::Mid,
        seed: 12345,
        count: Some(12),
        background: [12, 18, 28, 255],
        ..AnimateOptions::default()
    }
}

fn glyph_opts(width: u32, height: u32) -> AnimateOptions {
    AnimateOptions {
        speed: MotionSpeed::Slow,
        seed: 7,
        count: Some(6),
        background: [10, 12, 20, 255],
        shape: OrbShape::Glyph { ch: '\u{2606}', font: GlyphFontId::NotoSymbols2 },
        ..orb_opts(width, height)
    }
}

/// A square glyph of a font.
fn square() -> GlyphFields {
    let at = |x: f32, y: f32| OutlinePoint { x: b(x), y: b(y) };
    GlyphFields {
        frame: Some(GlyphBox { x_min: 0, y_min: 0, x_max: 1000, y_max: 1000 }),
        steps: vec![
            OutlineStep::MoveTo(at(0.0, 0.0)),
            OutlineStep::LineTo(at(1000.0, 0.0)),
            OutlineStep::LineTo(at(1000.0, 1000.0)),
            OutlineStep::LineTo(at(0.0, 1000.0)),
            OutlineStep::Close,
        ],
        sizes: vec![],
        fields: vec![],
    }
}

fn packed(n_orbs: usize) -> Vec<Binary32> {
    pack_render_data(
        &sample_clusters(),
        [12, 18, 28, 255],
        b(1.0),
        b(0.5),
        b(0.0),
        b(3.0),
        12345,
        n_orbs,
        b(1.0),
        b(0.0),
        true,
        b(0.5),
        b(f32::from_bits(SHADOW_STRENGTH_DEFAULT)),
        None,
    )
}

#[test]
fn render_packed_zero_fills_short_rows() {
    let real_orbs = 8usize;
    let honest = packed(real_orbs);
    let mut pack = honest.clone();
    let claimed = 40usize;
    pack[8] = b(claimed as f32);
    let rows = frame_orbs(&pack);
    assert_eq!(rows.len(), claimed);
    assert_eq!(rows[..real_orbs], frame_orbs(&honest)[..]);
    for row in &rows[real_orbs..] {
        assert_eq!(row.color, [b(0.0); 4]);
        assert_eq!(row.phase, [b(0.0); 4]);
        assert_eq!(row.misc, [b(0.0); 4]);
        assert_eq!(row.rot, [b(0.0); 4]);
    }
}

#[test]
fn gpu_clamps_count_above_max_orb_count() {
    let mut pack = packed(MAX_ORB_COUNT);
    pack[8] = b(2000.0);
    let mut honest = pack.clone();
    honest[8] = b(MAX_ORB_COUNT as f32);
    assert_eq!(frame_orbs(&pack).len(), MAX_ORB_COUNT);
    assert_eq!(frame_orbs(&pack), frame_orbs(&honest));
    let words = |p: &Vec<Binary32>| frame_params(p, 40, 28, b(0.5), None, None).words();
    assert_eq!(words(&pack), words(&honest));
}

#[test]
fn render_packed_short_pack_orb_unaffected_by_13word_guard() {
    let full = packed(1);
    let mut short = full.clone();
    short.truncate(16 + 13);
    let (short_rows, full_rows) = (frame_orbs(&short), frame_orbs(&full));
    assert_eq!(short_rows, full_rows);
    assert_ne!(short_rows[0].color, [b(0.0); 4], "the single orb must be drawn");
    short.truncate(16 + 12);
    assert_eq!(frame_orbs(&short)[0].color, [b(0.0); 4]);
}

#[test]
fn orb_texture_grows_only_on_increase() {
    let rows = |count: usize| {
        let opts = AnimateOptions { count: Some(count), ..orb_opts(40, 28) };
        frame_orbs(&pack_orb_frame(&sample_clusters(), &opts, 40, 28, b(0.0))).len() as u32
    };
    let cap_50 = grown_capacity(0, rows(50));
    assert_eq!(cap_50, 50);
    let cap_200 = grown_capacity(cap_50, rows(200));
    assert_eq!(cap_200, 200);
    assert_eq!(grown_capacity(cap_200, rows(100)), cap_200);
}

#[test]
fn gpu_image_empty_sdf_is_background_only() {
    let opts = AnimateOptions {
        shape: OrbShape::Image { sdf: vec![0u8; 256 * 256], size: 256 },
        ..glyph_opts(64, 64)
    };
    match prepare_image_frame(&sample_clusters(), &opts, 64, 64, b(0.0)) {
        SdfFramePack::BackgroundOnly(pack) => {
            assert_eq!(pack.len(), 16);
            assert_eq!(f(pack[8]), 0.0);
            assert_eq!(f(pack[2]), 20.0 / 255.0);
        }
        other => panic!("expected the background alone, got {other:?}"),
    }
}

#[test]
fn gpu_image_entry_non_image_falls_back_to_orb() {
    let opts = AnimateOptions { shape: OrbShape::Orb, ..glyph_opts(80, 80) };
    assert!(matches!(
        prepare_image_frame(&sample_clusters(), &opts, 80, 80, b(0.5)),
        SdfFramePack::NotSdfShape
    ));
}

#[test]
fn gpu_glyph_unknown_char_background_only() {
    let mut unknown = GlyphFields { frame: None, steps: vec![], ..square() };
    let opts = AnimateOptions {
        shape: OrbShape::Glyph { ch: '\u{1F355}', font: GlyphFontId::NotoSymbols2 },
        ..glyph_opts(48, 40)
    };
    match prepare_glyph_frame(&mut unknown, &sample_clusters(), &opts, 48, 40, b(0.3)) {
        SdfFramePack::BackgroundOnly(pack) => assert_eq!(f(pack[8]), 0.0),
        other => panic!("expected the background alone, got {other:?}"),
    }
}

#[test]
fn gpu_glyph_entry_orb_shape_falls_back() {
    let opts = orb_opts(40, 28);
    assert!(matches!(
        prepare_glyph_frame(&mut square(), &sample_clusters(), &opts, 40, 28, b(0.5)),
        SdfFramePack::NotSdfShape
    ));
}

#[test]
fn gpu_glyph_empty_clusters_background_only() {
    let opts = glyph_opts(48, 40);
    assert!(matches!(
        prepare_glyph_frame(&mut square(), &[], &opts, 48, 40, b(0.3)),
        SdfFramePack::BackgroundOnly(_)
    ));
}

#[test]
fn gpu_glyph_sdf_cache_reuse_same_char_size() {
    let mut fields = square();
    let clusters = sample_clusters();
    let opts = glyph_opts(80, 64);
    let mut seen = Vec::new();
    for t in [0.0, 0.5] {
        match prepare_glyph_frame(&mut fields, &clusters, &opts, 80, 64, b(t)) {
            SdfFramePack::Sdf { pack, key, sdf, size } => {
                assert_eq!((key, size), (0x2606, 256));
                assert_eq!(f(pack[8]), 6.0);
                assert!(sdf[128 * 256 + 128] > 128);
                seen.push(sdf);
            }
            other => panic!("expected a field, got {other:?}"),
        }
        assert_eq!(fields.sizes.len(), 1, "the second frame must reuse the first field");
    }
    assert_eq!(seen[0], seen[1]);
}

#[test]
fn gpu_glyph_sdf_cache_grows_on_new_char_or_size() {
    let mut fields = square();
    let clusters = sample_clusters();
    let _ = prepare_glyph_frame(&mut fields, &clusters, &glyph_opts(80, 64), 80, 64, b(0.0));
    assert_eq!(fields.sizes, vec![256]);
    let big = AnimateOptions { orb_size: b(4.0), ..glyph_opts(400, 320) };
    match prepare_glyph_frame(&mut fields, &clusters, &big, 400, 320, b(0.0)) {
        SdfFramePack::Sdf { size, sdf, .. } => {
            assert!(size > 256);
            assert_eq!(sdf.len(), (size * size) as usize);
        }
        other => panic!("expected a field, got {other:?}"),
    }
    assert_eq!(fields.sizes.len(), 2);
    assert_ne!(glyph_sdf_key('\u{2606}'), glyph_sdf_key('\u{2605}'));
}

#[test]
fn aqua_zero_params_byte_match_plain_orb() {
    let zeros = AquaBleedConfig { bleed: b(0.0), bloom: b(0.0), offset: b(0.0), halo: b(0.0) };
    for seed in [0u64, 42, 99] {
        for n in [1usize, 8, 64] {
            let clusters: Vec<Cluster> = (0..n)
                .map(|i| {
                    let part = i as f32 / n.max(1) as f32;
                    cluster(
                        [
                            (40 + (i * 37) % 200) as u8,
                            (60 + (i * 53) % 180) as u8,
                            (80 + (i * 71) % 160) as u8,
                        ],
                        0.15 + 0.7 * part,
                        0.2 + 0.6 * ((i * 13 % 100) as f32 / 100.0),
                        0.2 + 0.3 * ((i % 5) as f32 / 5.0),
                    )
                })
                .collect();
            let base = AnimateOptions { seed, count: Some(n), ..orb_opts(64, 48) };
            let zeroed = AnimateOptions { aqua: Some(zeros), ..base.clone() };
            let drawn = |opts: &AnimateOptions| {
                let pack = pack_orb_frame(&clusters, opts, 64, 48, b(0.37));
                let params = frame_params(&pack, 64, 48, b(0.37), None, opts.aqua);
                (params.words(), orb_texture_words(&frame_orbs(&pack)))
            };
            assert_eq!(drawn(&zeroed), drawn(&base), "seed={seed}, n={n}");
            let wet = AquaBleedConfig { bleed: b(0.4), ..zeros };
            let wet = AnimateOptions { aqua: Some(wet), ..base.clone() };
            assert_ne!(drawn(&wet).0, drawn(&base).0);
        }
    }
}

#[test]
fn rows_are_aligned_and_unpadded() {
    assert_eq!(align_up(0, 256), 0);
    assert_eq!(align_up(1, 256), 256);
    assert_eq!(align_up(256, 256), 256);
    assert_eq!(align_up(10, 3), 12);
    assert_eq!(padded_row(64), 256);
    assert_eq!(padded_row(65), 512);
    let (width, height, padded) = (2u32, 3u32, 16u32);
    let mapped: Vec<u8> = (0..48).collect();
    let pixels = strip_padding(&mapped, width, height, padded);
    let expected: Vec<u8> = (0..8).chain(16..24).chain(32..40).collect();
    assert_eq!(pixels, expected);
    assert!(strip_padding(&mapped, 2, 0, padded).is_empty());
}

#[test]
fn there_is_an_orb_where_there_is_a_cluster() {
    let count = |n: Option<usize>, clusters: &[Cluster]| {
        resolved_orb_count(clusters, &AnimateOptions { count: n, ..orb_opts(8, 8) })
    };
    assert_eq!(count(Some(6), &sample_clusters()), 6);
    assert_eq!(count(None, &sample_clusters()), 4);
    assert_eq!(count(Some(0), &sample_clusters()), 1);
    assert_eq!(count(Some(5000), &sample_clusters()), MAX_ORB_COUNT);
    assert_eq!(count(None, &[]), 0);
}

#[test]
fn headers_follow_the_options() {
    let opts = AnimateOptions {
        direction: MotionDirection::BottomToTop,
        softness: SoftnessPreset::High,
        glyph_rotate: false,
        orb_size: b(2.0),
        ..orb_opts(100, 60)
    };
    let disc: Vec<f32> =
        pack_orb_frame(&sample_clusters(), &opts, 100, 60, b(0.0)).into_iter().map(f).collect();
    assert_eq!(disc.len(), 16 + 16 * 12);
    assert_eq!(disc[4], 60.0 * 0.25 * 2.0);
    assert_eq!(disc[5], 0.75);
    assert_eq!(disc[6], 3.0);
    assert_eq!(disc[7], 3.0);
    assert_eq!(&disc[8..13], &[12.0, 0.55, 0.0, 1.0, 1.0]);
    let field = pack_sdf_frame(&sample_clusters(), &opts, 100, 60, 2, b(0.0));
    assert_eq!((f(field[8]), f(field[10]), f(field[11])), (2.0, 1.0, 0.0));
}

#[test]
fn colors_of_a_pack_are_saturated() {
    let mut pack = packed(2);
    let before = pack.clone();
    apply_saturation_to_pack(&mut pack, b(1.0), 2);
    assert_eq!(pack, before, "a saturation of 1 changes nothing");
    apply_saturation_to_pack(&mut pack, b(0.0), 1);
    let color = |p: &Vec<Binary32>, at: usize| {
        [0, 1, 2].map(|k| (f(p[at + k]) * 255.0).round() as u8)
    };
    assert_eq!(color(&pack, 16), adjust_saturation_pub(color(&before, 16), b(0.0)));
    assert_ne!(color(&pack, 16), color(&before, 16));
    assert_eq!(pack[32..], before[32..], "the second orb keeps its colour");
    assert_eq!(pack[19..32], before[19..32]);
}

#[test]
fn words_of_the_shader() {
    let pack = packed(2);
    let layer = AquaBleedConfig { bleed: b(0.5), bloom: b(2.0), offset: b(-1.0), halo: b(0.25) };
    let p = frame_params(&pack, 40, 28, b(0.5), Some(256), Some(layer));
    let words: Vec<f32> = p.words().iter().map(|w| f32::from_bits(*w)).collect();
    assert_eq!(&words[0..4], &[40.0, 28.0, 0.5, 1.0]);
    assert_eq!(words[7], 1.0);
    assert_eq!(&words[8..16], &[0.5, 0.0, 3.0, 2.0, 1.0, 1.0, 0.5, 256.0]);
    assert_eq!(&words[16..21], &[0.2, 0.5, 1.0, 0.0, 0.25]);
    assert_eq!(&words[21..24], &[0.0, 0.0, 0.0]);
    let texels = orb_texture_words(&frame_orbs(&pack));
    assert_eq!(texels.len(), 32);
    assert_eq!(texels[0..11], pack[16..27].iter().map(|w| w.bits).collect::<Vec<_>>()[..]);
    assert_eq!((texels[12], texels[13]), (pack[27].bits, pack[28].bits));
    assert_eq!(frame_orbs(&packed(0)).len(), 1, "the texture has one row at least");
}

#[test]
fn tracks_color_the_frames() {
    let opts = AnimateOptions {
        color_tracks: Some(vec![
            vec![[0, 0, 0], [255, 255, 255]],
            vec![[0, 0, 0], [255, 255, 255]],
            vec![[0, 0, 0], [255, 255, 255]],
            vec![[0, 0, 0], [255, 255, 255]],
        ]),
        ..orb_opts(32, 32)
    };
    let at = |t: f32| f(pack_orb_frame(&sample_clusters(), &opts, 32, 32, b(t))[16]);
    assert_eq!((at(0.0), at(1.0)), (0.0, 1.0));
    let still = orb_opts(32, 32);
    let frame = |t: f32| pack_orb_frame(&sample_clusters(), &still, 32, 32, b(t));
    assert_eq!(frame(0.0), frame(0.7), "without tracks the words stay");
}

#[test]
fn keys_of_distance_fields() {
    assert_eq!(image_sdf_key(&[]), 0x811c_9dc5);
    assert_eq!(image_sdf_key(b"a"), 0xe40c_292c);
    assert_eq!(image_sdf_key(b"foobar"), 0xbf9c_f968);
    assert_eq!(glyph_sdf_key('A'), 65);
    assert!(image_sdf_key(&[1, 2, 3]) > char::MAX as u32);
}

#[test]
fn radius_of_the_largest_orb() {
    let r = f(frame_radius(&sample_clusters(), 100, 60, b(1.0)));
    assert_eq!(r, 60.0 * 0.25 * 0.5f32.sqrt() * 1.1);
    assert_eq!(f(frame_radius(&[], 100, 60, b(1.0))), 0.0);
}

#[test]
fn fields_of_a_glyph() {
    let mut fields = square();
    assert!(matches!(fields.cached_glyph_sdf_for_radius(b(0.0)), GlyphLookup::Nothing));
    assert!(fields.sizes.is_empty());
    match fields.cached_glyph_sdf_for_radius(b(300.0)) {
        GlyphLookup::Field { size, .. } => assert_eq!(size, 1024),
        other => panic!("expected a field, got {other:?}"),
    }
    let mut far = square();
    far.frame = Some(GlyphBox { x_min: 0, y_min: 0, x_max: 1, y_max: 1 });
    far.steps.push(OutlineStep::MoveTo(OutlinePoint { x: b(30000.0), y: b(0.0) }));
    far.steps.push(OutlineStep::LineTo(OutlinePoint { x: b(30000.0), y: b(9.0) }));
    assert!(matches!(far.cached_glyph_sdf_for_radius(b(10.0)), GlyphLookup::Beyond));
}

#[test]
fn each_shape_has_its_way() {
    assert_eq!(frame_path(&OrbShape::Orb), FramePath::Orb);
    assert_eq!(frame_path(&glyph_opts(1, 1).shape), FramePath::Glyph);
    assert_eq!(frame_path(&OrbShape::Image { sdf: vec![], size: 0 }), FramePath::Image);
    let params = AquarelleParams { bleed: b(0.5), bloom: b(0.5), offset: b(0.5), halo: b(0.5) };
    assert_eq!(frame_path(&OrbShape::Aquarelle(params)), FramePath::Aquarelle);
    let short = AnimateOptions {
        shape: OrbShape::Image { sdf: vec![9; 3], size: 2 },
        ..orb_opts(8, 8)
    };
    assert!(matches!(
        prepare_image_frame(&sample_clusters(), &short, 8, 8, b(0.0)),
        SdfFramePack::BackgroundOnly(_)
    ));
    let whole = AnimateOptions {
        shape: OrbShape::Image { sdf: vec![9; 4], size: 2 },
        ..orb_opts(8, 8)
    };
    match prepare_image_frame(&sample_clusters(), &whole, 8, 8, b(0.0)) {
        SdfFramePack::Sdf { key, sdf, size, .. } => {
            assert_eq!(key, image_sdf_key(&[9; 4]));
            assert_eq!((sdf, size), (vec![9; 4], 2));
        }
        other => panic!("expected a field, got {other:?}"),
    }
}

#[test]
fn a_field_is_kept_once_it_is_made() {
    let mut fields = square();
    let made = fields.cached_glyph_sdf_for_radius(b(40.0));
    assert!(matches!(made, GlyphLookup::Field { .. }));
    assert_eq!(fields.sizes.len(), 1);
    fields.cached_glyph_sdf_for_radius(b(40.0));
    assert_eq!(fields.sizes.len(), 1);
    fields.cached_glyph_sdf_for_radius(b(400.0));
    assert_eq!(fields.sizes.len(), 2);
    fields.cached_glyph_sdf_for_radius(b(0.0));
    assert_eq!(fields.sizes.len(), 2);
    // a frame keeps its field too
    let mut fresh = square();
    prepare_glyph_frame(&mut fresh, &sample_clusters(), &glyph_opts(48, 40), 48, 40, b(0.3));
    assert_eq!(fresh.sizes.len(), 1);
    prepare_glyph_frame(&mut fresh, &sample_clusters(), &orb_opts(48, 40), 48, 40, b(0.3));
    assert_eq!(fresh.sizes.len(), 1);
}

#[test]
fn saturation_ends_where_the_pack_does() {
    let mut all = packed(2);
    apply_saturation_to_pack(&mut all, b(0.0), 2);
    let mut more = packed(2);
    apply_saturation_to_pack(&mut more, b(0.0), usize::MAX);
    assert_eq!(more, all);
    for len in [0, 16, 18, 19, 34, 35] {
        let mut short = packed(2)[..len].to_vec();
        apply_saturation_to_pack(&mut short, b(0.0), 2000);
        let colored = if len < 19 { 16 } else if len < 35 { 32 } else { len };
        let end = colored.min(len);
        assert_eq!(short[..end], all[..end], "{len}");
        assert_eq!(short[end..], packed(2)[end..len], "{len}");
    }
    let many = pack_sdf_frame(&sample_clusters(), &orb_opts(9, 9), 9, 9, 3000, b(0.0));
    assert_eq!(many.len(), 16 + 16 * 3000);
}
