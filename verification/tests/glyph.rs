use orber::binary32::Binary32;
use orber::glyph::{
    build_glyph_path, can_fill, glyph_frame, glyph_sdf_size_for_radius, has_glyph, image_rgba_to_sdf,
    mask_to_sdf, outline_to_sdf, render_glyph_sdf, GlyphBox, OutlinePoint, OutlineStep,
    DEFAULT_GLYPH_SDF_SIZE,
};
use orber::picture::RgbaPicture;

fn b(x: f32) -> Binary32 {
    Binary32::from_bits(x.to_bits())
}

fn point(x: f32, y: f32) -> OutlinePoint {
    OutlinePoint { x: b(x), y: b(y) }
}

/// A font of one polygon for each of three characters: a star, a note and a heart.
fn font() -> Vec<u8> {
    let star: Vec<(i16, i16)> = (0..10)
        .map(|i| {
            let r = if i % 2 == 0 { 500.0 } else { 210.0 };
            let a = std::f64::consts::PI * (0.5 + i as f64 * 0.2);
            ((500.0 + r * a.cos()).round() as i16, (400.0 + r * a.sin()).round() as i16)
        })
        .rev()
        .collect();
    let note = vec![(0, 0), (0, 200), (180, 200), (180, 800), (420, 700), (420, 620), (260, 680), (260, 0)];
    let heart = vec![(400, 0), (0, 450), (0, 650), (180, 750), (400, 600), (620, 750), (800, 650), (800, 450)];
    make_font(&[(0x2606, star), (0x2665, heart), (0x266A, note)])
}

fn put16(v: &mut Vec<u8>, x: u16) {
    v.extend_from_slice(&x.to_be_bytes());
}

fn put32(v: &mut Vec<u8>, x: u32) {
    v.extend_from_slice(&x.to_be_bytes());
}

/// A TrueType font with an empty first glyph and one polygon for each character.
fn make_font(glyphs: &[(u16, Vec<(i16, i16)>)]) -> Vec<u8> {
    let mut glyf: Vec<u8> = Vec::new();
    let mut loca: Vec<u32> = vec![0, 0];
    for (_, pts) in glyphs {
        put16(&mut glyf, 1);
        let xs = pts.iter().map(|p| p.0);
        let ys = pts.iter().map(|p| p.1);
        put16(&mut glyf, xs.clone().min().unwrap() as u16);
        put16(&mut glyf, ys.clone().min().unwrap() as u16);
        put16(&mut glyf, xs.max().unwrap() as u16);
        put16(&mut glyf, ys.max().unwrap() as u16);
        put16(&mut glyf, pts.len() as u16 - 1);
        put16(&mut glyf, 0);
        for _ in pts {
            glyf.push(1);
        }
        let mut last = 0i16;
        for p in pts {
            put16(&mut glyf, (p.0 - last) as u16);
            last = p.0;
        }
        last = 0;
        for p in pts {
            put16(&mut glyf, (p.1 - last) as u16);
            last = p.1;
        }
        while glyf.len() % 4 != 0 {
            glyf.push(0);
        }
        loca.push(glyf.len() as u32);
    }
    let n = glyphs.len() as u16 + 1;
    let mut head: Vec<u8> = Vec::new();
    put32(&mut head, 0x0001_0000);
    put32(&mut head, 0x0001_0000);
    put32(&mut head, 0);
    put32(&mut head, 0x5F0F_3CF5);
    put16(&mut head, 0);
    put16(&mut head, 1000);
    head.extend_from_slice(&[0; 16]);
    for x in [0u16, 0, 1000, 1000, 0, 8, 2, 1, 0] {
        put16(&mut head, x);
    }
    let mut hhea: Vec<u8> = Vec::new();
    put32(&mut hhea, 0x0001_0000);
    put16(&mut hhea, 900);
    put16(&mut hhea, 0);
    hhea.extend_from_slice(&[0; 26]);
    put16(&mut hhea, 1);
    let mut maxp: Vec<u8> = Vec::new();
    put32(&mut maxp, 0x0000_5000);
    put16(&mut maxp, n);
    let mut hmtx: Vec<u8> = Vec::new();
    for _ in 0..n + 1 {
        put16(&mut hmtx, 1000);
    }
    let mut cmap: Vec<u8> = Vec::new();
    put16(&mut cmap, 0);
    put16(&mut cmap, 1);
    put16(&mut cmap, 3);
    put16(&mut cmap, 10);
    put32(&mut cmap, 12);
    put16(&mut cmap, 12);
    put16(&mut cmap, 0);
    put32(&mut cmap, 16 + 12 * glyphs.len() as u32);
    put32(&mut cmap, 0);
    put32(&mut cmap, glyphs.len() as u32);
    for (i, (ch, _)) in glyphs.iter().enumerate() {
        put32(&mut cmap, *ch as u32);
        put32(&mut cmap, *ch as u32);
        put32(&mut cmap, i as u32 + 1);
    }
    let mut loca_bytes: Vec<u8> = Vec::new();
    for x in loca {
        put32(&mut loca_bytes, x);
    }
    let tables: Vec<(&[u8; 4], Vec<u8>)> = vec![
        (b"cmap", cmap),
        (b"glyf", glyf),
        (b"head", head),
        (b"hhea", hhea),
        (b"hmtx", hmtx),
        (b"loca", loca_bytes),
        (b"maxp", maxp),
    ];
    let mut out: Vec<u8> = Vec::new();
    put32(&mut out, 0x0001_0000);
    for x in [tables.len() as u16, 64, 2, 48] {
        put16(&mut out, x);
    }
    let mut offset = 12 + 16 * tables.len();
    for (tag, data) in &tables {
        out.extend_from_slice(&tag[..]);
        put32(&mut out, 0);
        put32(&mut out, offset as u32);
        put32(&mut out, data.len() as u32);
        offset += (data.len() + 3) / 4 * 4;
    }
    for (_, data) in &tables {
        out.extend_from_slice(data);
        while out.len() % 4 != 0 {
            out.push(0);
        }
    }
    out
}

struct Recorder(Vec<OutlineStep>);

impl ttf_parser::OutlineBuilder for Recorder {
    fn move_to(&mut self, x: f32, y: f32) {
        self.0.push(OutlineStep::MoveTo(point(x, y)));
    }
    fn line_to(&mut self, x: f32, y: f32) {
        self.0.push(OutlineStep::LineTo(point(x, y)));
    }
    fn quad_to(&mut self, x1: f32, y1: f32, x: f32, y: f32) {
        self.0.push(OutlineStep::QuadTo(point(x1, y1), point(x, y)));
    }
    fn curve_to(&mut self, x1: f32, y1: f32, x2: f32, y2: f32, x: f32, y: f32) {
        self.0.push(OutlineStep::CurveTo(point(x1, y1), point(x2, y2), point(x, y)));
    }
    fn close(&mut self) {
        self.0.push(OutlineStep::Close);
    }
}

/// The outline of a character, in font units.
fn outline(font: &[u8], ch: char) -> Vec<OutlineStep> {
    let face = ttf_parser::Face::parse(font, 0).expect("the font must parse");
    let mut r = Recorder(Vec::new());
    if let Some(id) = face.glyph_index(ch) {
        let _ = face.outline_glyph(id, &mut r);
    }
    r.0
}

fn sdf(ch: char, size: u32) -> Vec<u8> {
    let f = font();
    render_glyph_sdf(&f, ch, &outline(&f, ch), size).expect("the outline is within reach")
}

#[test]
fn known_symbol_resolves_to_glyph() {
    let f = font();
    assert!(has_glyph(&f, '☆'));
    assert!(glyph_frame(&f, '☆').is_some());
    assert!(!has_glyph(&f, '\u{1F355}'));
    assert!(!has_glyph(&[], '☆'));
}

#[test]
fn unknown_glyph_returns_none_path() {
    let f = font();
    let frame = glyph_frame(&f, '\u{1F355}');
    let steps = outline(&f, '\u{1F355}');
    assert!(build_glyph_path(frame, &steps, point(32.0, 32.0), b(16.0)).is_none());
}

#[test]
fn build_glyph_path_returns_some_for_known_char() {
    let f = font();
    let path = build_glyph_path(
        glyph_frame(&f, '☆'),
        &outline(&f, '☆'),
        point(32.0, 32.0),
        b(16.0),
    );
    assert!(path.is_some(), "☆ outline should produce a non-empty path");
}

#[test]
fn build_glyph_path_refuses_what_cannot_be_drawn() {
    let frame = GlyphBox { x_min: 0, y_min: 0, x_max: 100, y_max: 50 };
    let steps = vec![OutlineStep::MoveTo(point(0.0, 0.0)), OutlineStep::Close];
    let c = point(10.0, 10.0);
    assert!(build_glyph_path(Some(frame), &steps, c, b(0.0)).is_none());
    assert!(build_glyph_path(Some(frame), &steps, c, b(-1.0)).is_none());
    assert!(build_glyph_path(None, &steps, c, b(5.0)).is_none());
    assert!(build_glyph_path(Some(frame), &vec![], c, b(5.0)).is_none());
    let flat = GlyphBox { x_min: 0, y_min: 7, x_max: 100, y_max: 7 };
    assert!(build_glyph_path(Some(flat), &steps, c, b(5.0)).is_none());
    let path = build_glyph_path(Some(frame), &steps, c, b(5.0)).expect("a path");
    // the corner of the frame comes to the left, and below as `y` turns round
    assert_eq!(path[0], OutlineStep::MoveTo(point(5.0, 12.5)));
    assert_eq!(path[1], OutlineStep::Close);
}

#[test]
fn glyph_sdf_size_matches_input() {
    for size in [16u32, 32, 64, 128, 256] {
        let bytes = sdf('☆', size);
        assert_eq!(
            bytes.len(),
            (size as usize) * (size as usize),
            "size={size} must produce {} bytes",
            (size as usize) * (size as usize)
        );
    }
}

#[test]
fn glyph_sdf_known_char_has_inside_pixels() {
    let bytes = sdf('☆', 64);
    let lit = bytes.iter().filter(|&&b| b > 127).count();
    assert!(
        lit >= 32,
        "rendering ☆ at 64x64 should produce >=32 inside pixels, got {lit}"
    );
    assert!(
        lit > 64 * 64 / 20,
        "rendering ☆ at 64x64 should produce >=5% inside pixels, got {lit}"
    );
}

#[test]
fn glyph_sdf_unknown_char_returns_empty_or_zero() {
    let bytes = sdf('\u{1F355}', 32);
    assert_eq!(bytes.len(), 32 * 32);
    assert!(
        bytes.iter().all(|&b| b == 0),
        "unknown char must produce all-zero sdf"
    );
}

#[test]
fn glyph_sdf_zeno_silhouette_is_non_degenerate() {
    let size = 256usize;
    let bytes = sdf('☆', size as u32);
    assert_eq!(bytes.len(), size * size);
    let total = size * size;

    let mut inside = 0usize;
    let mut sum_x = 0usize;
    let mut sum_y = 0usize;
    for y in 0..size {
        for x in 0..size {
            if bytes[y * size + x] > 128 {
                inside += 1;
                sum_x += x;
                sum_y += y;
            }
        }
    }
    assert!(
        inside > total / 50,
        "silhouette too sparse ({inside}/{total}); glyph likely shrank away or empty"
    );
    assert!(
        inside < total / 2,
        "silhouette must not fill the whole field (got {inside}/{total})"
    );
    let cx = sum_x / inside;
    let cy = sum_y / inside;
    let tol = size / 10;
    let center = size / 2;
    assert!(
        cx.abs_diff(center) <= tol && cy.abs_diff(center) <= tol,
        "glyph silhouette must be centered: centroid=({cx},{cy}), \
         expected near ({center},{center}) within ±{tol}px"
    );
}

#[test]
fn glyph_sdf_has_both_inside_and_outside_regions() {
    let bytes = sdf('☆', 64);
    assert!(bytes.iter().any(|&b| b < 120), "must contain outside samples");
    assert!(bytes.iter().any(|&b| b > 136), "must contain inside samples");
}

#[test]
fn glyph_sdf_size_scales_up_for_large_cpu_orbs() {
    assert_eq!(glyph_sdf_size_for_radius(b(8.0)), DEFAULT_GLYPH_SDF_SIZE);
    assert_eq!(glyph_sdf_size_for_radius(b(160.0)), 512);
    assert_eq!(glyph_sdf_size_for_radius(b(400.0)), 1024);
    assert_eq!(glyph_sdf_size_for_radius(b(0.0)), 256);
    assert_eq!(glyph_sdf_size_for_radius(b(f32::NAN)), 256);
}

#[test]
fn render_glyph_sdf_equals_mask_to_sdf_of_binary_mask() {
    let f = font();
    for ch in ['☆', '♪', '♥'] {
        for size in [16u32, 64, 256] {
            let steps = outline(&f, ch);
            let s = size as f32;
            let radius = s * 0.45 * std::f32::consts::FRAC_1_SQRT_2;
            let path = build_glyph_path(
                glyph_frame(&f, ch),
                &steps,
                point(s * 0.5, s * 0.5),
                b(radius),
            )
            .expect("a path");
            let v = |p: &OutlinePoint| {
                zeno::Point::new(f32::from_bits(p.x.bits), f32::from_bits(p.y.bits))
            };
            let cmds: Vec<zeno::Command> = path
                .iter()
                .map(|step| match step {
                    OutlineStep::MoveTo(a) => zeno::Command::MoveTo(v(a)),
                    OutlineStep::LineTo(a) => zeno::Command::LineTo(v(a)),
                    OutlineStep::QuadTo(a, c) => zeno::Command::QuadTo(v(a), v(c)),
                    OutlineStep::CurveTo(a, c, d) => zeno::Command::CurveTo(v(a), v(c), v(d)),
                    OutlineStep::Close => zeno::Command::Close,
                })
                .collect();
            let (mask, _) = zeno::Mask::new(&cmds).size(size, size).render();
            let via_mask = mask_to_sdf(&mask, size);
            let via_glyph = sdf(ch, size);
            assert_eq!(via_glyph, via_mask, "ch={ch:?} size={size}");
        }
    }
}

#[test]
fn outline_beyond_reach_is_refused() {
    let f = font();
    let far = vec![
        OutlineStep::MoveTo(point(0.0, 0.0)),
        OutlineStep::LineTo(point(1.0e9, 0.0)),
        OutlineStep::Close,
    ];
    assert!(render_glyph_sdf(&f, '☆', &far, 64).is_none());
    // without a glyph there is nothing to fill, however far the outline goes
    assert_eq!(render_glyph_sdf(&f, 'x', &far, 4), Some(vec![0; 16]));
    assert_eq!(outline_to_sdf(None, &far, 4), vec![0; 16]);
}

#[test]
fn mask_to_sdf_basic_inside_outside() {
    let size = 32u32;
    let s = size as usize;
    let mut mask = vec![0u8; s * s];
    for y in 12..20 {
        for x in 12..20 {
            mask[y * s + x] = 255;
        }
    }
    let sdf = mask_to_sdf(&mask, size);
    assert_eq!(sdf.len(), s * s);
    assert!(
        sdf[16 * s + 16] > 128,
        "center of inside block must be inside (>128)"
    );
    assert!(sdf[0] < 128, "far corner must be outside (<128)");
}

#[test]
fn mask_to_sdf_all_zero_is_all_zero() {
    let sdf = mask_to_sdf(&vec![0u8; 16 * 16], 16);
    assert!(sdf.iter().all(|&b| b == 0));
}

/// The field by brute force, in native single precision.
fn reference_sdf(mask: &[u8], size: u32) -> Vec<u8> {
    let s = size.max(1) as usize;
    let norm = (size as f32 * 0.06).max(1.0);
    let inside: Vec<bool> = mask.iter().take(s * s).map(|&b| b >= 128).collect();
    let mut out = Vec::new();
    for y in 0..s {
        for x in 0..s {
            let on = inside[y * s + x];
            let mut best = 1.0e12f32;
            for v in 0..s {
                for u in 0..s {
                    if inside[v * s + u] != on {
                        let (dx, dy) = (x as f32 - u as f32, y as f32 - v as f32);
                        best = best.min(dx * dx + dy * dy);
                    }
                }
            }
            let px = if on { best.sqrt() - 0.5 } else { 0.5 - best.sqrt() };
            let unit = (px / norm).clamp(-1.0, 1.0);
            out.push(((unit * 0.5 + 0.5) * 255.0).round().clamp(0.0, 255.0) as u8);
        }
    }
    out
}

#[test]
fn mask_to_sdf_is_the_distance_to_the_edge() {
    let mut x: u64 = 7;
    for size in [1u32, 2, 3, 5, 8, 13, 20, 33] {
        for density in [1u64, 3, 9] {
            let s = size as usize;
            let mut mask = Vec::new();
            for _ in 0..s * s {
                x = x.wrapping_mul(6364136223846793005).wrapping_add(1442695040888963407);
                mask.push(if (x >> 33) % 10 < density { 200u8 } else { 1 });
            }
            assert_eq!(mask_to_sdf(&mask, size), reference_sdf(&mask, size), "size {size}");
        }
    }
}

#[test]
fn mask_to_sdf_without_an_other_side() {
    assert_eq!(mask_to_sdf(&[255; 9], 3), vec![255; 9]);
    // faint pixels are drawn but outside, and no pixel is inside
    assert_eq!(mask_to_sdf(&[100; 9], 3), vec![0; 9]);
    // a size of zero counts as one pixel
    assert_eq!(mask_to_sdf(&[255], 0), vec![255]);
    assert_eq!(mask_to_sdf(&[], 0), vec![0]);
}

fn picture(w: u32, h: u32, px: [u8; 4]) -> RgbaPicture {
    let mut data = Vec::new();
    for _ in 0..w * h {
        data.extend_from_slice(&px);
    }
    RgbaPicture { width: w, height: h, data }
}

fn put(p: &mut RgbaPicture, x: u32, y: u32, px: [u8; 4]) {
    let i = ((y * p.width + x) * 4) as usize;
    p.data[i..i + 4].copy_from_slice(&px);
}

#[test]
fn image_rgba_to_sdf_transparent_alpha_path() {
    let mut img = picture(64, 64, [0, 0, 0, 0]);
    for y in 20..44 {
        for x in 20..44 {
            put(&mut img, x, y, [255, 255, 255, 255]);
        }
    }
    let sdf = image_rgba_to_sdf(&img, 256).expect("opaque block on transparent bg → Some");
    assert_eq!(sdf.len(), 256 * 256);
    assert!(sdf.iter().any(|&b| b > 128), "alpha path must yield inside (>128) samples");
    assert!(sdf.iter().any(|&b| b < 128), "alpha path must yield outside (<128) samples");
}

#[test]
fn image_rgba_to_sdf_opaque_luma_auto_polarity_dark_subject() {
    let mut img = picture(64, 64, [255, 255, 255, 255]);
    for y in 26..38 {
        for x in 26..38 {
            put(&mut img, x, y, [0, 0, 0, 255]);
        }
    }
    let sdf = image_rgba_to_sdf(&img, 256).expect("dark subject on white bg → Some (luma path)");
    assert!(sdf.iter().any(|&b| b > 128), "the minority (dark) subject must be inside");
    assert!(sdf.iter().any(|&b| b < 128), "must produce outside region too");
    assert!(sdf[128 * 256 + 128] > 128);
}

#[test]
fn image_rgba_to_sdf_opaque_luma_auto_polarity_light_subject() {
    let mut img = picture(64, 64, [0, 0, 0, 255]);
    for y in 26..38 {
        for x in 26..38 {
            put(&mut img, x, y, [255, 255, 255, 255]);
        }
    }
    let sdf = image_rgba_to_sdf(&img, 256).expect("light subject on black bg → Some (luma path)");
    assert!(sdf.iter().any(|&b| b > 128));
    assert!(sdf.iter().any(|&b| b < 128));
}

#[test]
fn image_rgba_to_sdf_no_contrast_returns_none() {
    let img = picture(64, 64, [128, 128, 128, 255]);
    assert!(
        image_rgba_to_sdf(&img, 256).is_none(),
        "flat solid color has no contrast → None"
    );
}

#[test]
fn image_rgba_to_sdf_non_square_input_ok() {
    let mut img = picture(120, 40, [0, 0, 0, 0]);
    for y in 10..30 {
        for x in 40..80 {
            put(&mut img, x, y, [255, 255, 255, 255]);
        }
    }
    let sdf = image_rgba_to_sdf(&img, 128).expect("non-square with shape → Some");
    assert_eq!(sdf.len(), 128 * 128);
}

fn alpha_threshold_probe(size: u32, transparent_px: usize) -> Option<Vec<u8>> {
    let mut img = picture(size, size, [200, 200, 200, 255]);
    for i in 0..transparent_px {
        let i = i as u32;
        put(&mut img, i % size, i / size, [200, 200, 200, 0]);
    }
    image_rgba_to_sdf(&img, size)
}

#[test]
fn image_rgba_to_sdf_alpha_threshold_boundary_minus_one_uses_luma() {
    assert!(alpha_threshold_probe(100, 99).is_none());
}

#[test]
fn image_rgba_to_sdf_alpha_threshold_boundary_exact_uses_alpha() {
    assert!(alpha_threshold_probe(100, 100).is_some());
}

#[test]
fn image_rgba_to_sdf_inside_is_dark_odd_drawncount_web_parity() {
    let s = 5u32;
    let mut img = picture(s, s, [255, 255, 255, 255]);
    for i in 0..12 {
        put(&mut img, i % s, i / s, [0, 0, 0, 255]);
    }
    let sdf = image_rgba_to_sdf(&img, s).expect("12 dark + 13 light → contrast → Some");
    let black = sdf[0];
    let white = sdf[(4 * s + 4) as usize];
    assert!(black > 128, "the minority dark pixel must be inside (>128), got {black}");
    assert!(white < 128, "the majority light pixel must be outside (<128), got {white}");
}

#[test]
fn image_rgba_to_sdf_avg_y_tie_pixel_is_outside() {
    let s = 4u32;
    let mut img = picture(s, s, [255, 255, 255, 255]);
    put(&mut img, 0, 0, [0, 0, 0, 255]);
    put(&mut img, 1, 0, [0, 0, 0, 255]);
    put(&mut img, 2, 0, [0, 0, 0, 255]);
    put(&mut img, 3, 3, [204, 204, 204, 255]);
    let sdf = image_rgba_to_sdf(&img, s).expect("dark subject → contrast → Some");
    let tie = sdf[(3 * s + 3) as usize];
    let dark = sdf[0];
    assert!(tie < 128, "a pixel with Y == avgY must be OUTSIDE, got {tie}");
    assert!(dark > 128, "the dark subject pixel must still be inside (>128), got {dark}");
}

#[test]
fn image_rgba_to_sdf_all_inside_one_px_diff_none_vs_some() {
    let s = 50u32;
    let build = |one_bg: bool| -> Option<Vec<u8>> {
        let mut img = picture(s, s, [180, 180, 180, 255]);
        for i in 0..60 {
            put(&mut img, i % s, i / s, [180, 180, 180, 200]);
        }
        if one_bg {
            put(&mut img, s - 1, s - 1, [180, 180, 180, 0]);
        }
        image_rgba_to_sdf(&img, s)
    };
    assert!(build(false).is_none(), "all inside must be None");
    assert!(build(true).is_some(), "one background pixel must be Some");
}

#[test]
fn image_rgba_to_sdf_letterbox_region_excluded_from_silhouette() {
    let size = 256u32;
    let mut img = picture(256, 16, [0, 0, 0, 255]);
    for y in 4..12 {
        for x in 100..140 {
            put(&mut img, x, y, [255, 255, 255, 255]);
        }
    }
    let sdf = image_rgba_to_sdf(&img, size).expect("white subject on black → Some");
    let mut inside_in_letterbox = 0usize;
    let mut inside_in_rect = 0usize;
    for y in 0..size {
        for x in 0..size {
            if sdf[(y * size + x) as usize] > 128 {
                if (120..136).contains(&y) {
                    inside_in_rect += 1;
                } else {
                    inside_in_letterbox += 1;
                }
            }
        }
    }
    let drawn_pixel_count = 256 * 16;
    assert_eq!(
        inside_in_letterbox, 0,
        "letterbox region must contain no inside pixels; got {inside_in_letterbox}"
    );
    assert!(
        inside_in_rect > 0,
        "subject silhouette must light some pixels inside the drawn rect, got 0"
    );
    assert!(
        inside_in_rect < drawn_pixel_count / 2,
        "silhouette must follow the small subject, not fill the drawn rect: \
         inside_in_rect={inside_in_rect} of drawn={drawn_pixel_count}"
    );
}

#[test]
fn a_byte_of_a_field_tells_its_side_of_the_edge() {
    for size in [1u32, 2, 7, 33, 100] {
        let n = (size * size) as usize;
        let mask: Vec<u8> = (0..n).map(|i| ((i * 89 + i / 7 * 31) % 256) as u8).collect();
        let field = mask_to_sdf(&mask, size);
        for i in 0..n {
            assert_eq!(field[i] >= 128, mask[i] >= 128 && mask.iter().any(|&m| m != 0), "{size} {i}");
            assert_ne!(field[i], 128, "{size} {i}");
        }
    }
}

#[test]
fn the_field_of_a_picture_is_its_subject() {
    let mut img = picture(40, 20, [0, 0, 0, 0]);
    for y in 5..11 {
        for x in 3..30 {
            put(&mut img, x, y, [9, 9, 9, 255]);
        }
    }
    let field = image_rgba_to_sdf(&img, 40).expect("a block on nothing");
    for y in 0..40 {
        for x in 0..40 {
            let inside = (3..30).contains(&x) && (15..21).contains(&y);
            assert_eq!(field[y * 40 + x] >= 128, inside, "{x} {y}");
        }
    }
}

#[test]
fn large_fields_can_be_filled() {
    let f = font();
    let steps = outline(&f, '\u{2606}');
    let frame = glyph_frame(&f, '\u{2606}');
    for size in [0u32, 1, 1024, 2049, 4096, 16384, 40000, 0xffff] {
        assert!(can_fill(frame, &steps, size), "{size}");
    }
    // a buffer of 2^32 bytes
    assert!(!can_fill(frame, &steps, 0x1_0000));
    // a line whose sides add up to 2^15 pixels
    let mut long = vec![OutlineStep::MoveTo(point(0.0, 0.0)), OutlineStep::LineTo(point(900.0, 800.0))];
    assert!(can_fill(frame, &long, 20000));
    assert!(!can_fill(frame, &long, 40000));
    long[1] = OutlineStep::LineTo(point(0.0, 800.0));
    assert!(can_fill(frame, &long, 40000));
    // some thousand steps about one place
    let mut loops = steps.clone();
    for i in 0..5000 {
        loops.push(OutlineStep::LineTo(point(500.0 + (i % 2) as f32, 400.0)));
    }
    assert!(!can_fill(frame, &loops, 64));
    // as many steps that go somewhere
    let mut far: Vec<OutlineStep> = vec![OutlineStep::MoveTo(point(0.0, 0.0))];
    for i in 0..5000 {
        far.push(OutlineStep::LineTo(point(((i * 137) % 900) as f32, ((i * 71) % 800) as f32)));
    }
    assert!(can_fill(frame, &far, 256));
}

#[test]
fn a_larger_shape_gives_no_smaller_byte() {
    let disc = |r: i32, size: u32| -> Vec<u8> {
        let n = size as i32;
        let far = |i: i32| (i % n - n / 2).pow(2) + (i / n - n / 3).pow(2);
        (0..n * n).map(|i| if far(i) < r * r { 200 } else { 90 }).collect()
    };
    let size = 48;
    for r in 0..30 {
        let few = mask_to_sdf(&disc(r, size), size);
        let many = mask_to_sdf(&disc(r + 1, size), size);
        assert!(few.iter().zip(&many).all(|(a, b)| a <= b), "{r}");
    }
    // a shape of nothing is below all
    assert!(mask_to_sdf(&disc(0, size), size).iter().all(|&v| v == 0));
}

#[test]
fn an_outline_within_its_frame_fills_every_field() {
    let frame = GlyphBox { x_min: -30, y_min: -200, x_max: 970, y_max: 650 };
    let mut steps = vec![OutlineStep::MoveTo(point(-30.0, -200.0))];
    for i in 0..500 {
        let at = |n: i32| point((n * 61 % 1001 - 30) as f32, (n * 43 % 851 - 200) as f32);
        steps.push(OutlineStep::LineTo(at(i)));
        steps.push(OutlineStep::QuadTo(at(i + 7), at(i + 400)));
        steps.push(OutlineStep::CurveTo(point(970.0, 650.0), point(-30.0, 650.0), at(3 * i)));
        steps.push(OutlineStep::Close);
    }
    for size in [0u32, 1, 2, 255, 1024, 2048, 4096, 8190] {
        assert!(can_fill(Some(frame), &steps, size), "{size}");
    }
}
