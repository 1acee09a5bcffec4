//! The texts of the shader: a template with markers, and what stands in their places.
//!
//! One template serves all shapes. For every pixel the distance from the shape of each
//! orb feeds the same falloff and the same straight-alpha composition; only the part
//! that computes the distance differs.

use vstd::prelude::*;

verus! {

/// The shader, with a marker at every place where the shapes differ.
pub const ORB_WGSL_TEMPLATE: &'static str = "struct Params {
    resolution: vec2<f32>,
    t: f32,
    base_radius: f32,
    bg: vec4<f32>,
    base_blur: f32,
    direction: f32,
    cycle: f32,
    n_orbs: f32,
    alpha_mul: f32,
    glyph_rotate: f32,
    edge_softness: f32,
    sdf_size: f32,
    shadow_strength: f32,
    aqua_bleed: f32,
    aqua_bloom: f32,
    aqua_offset: f32,
    aqua_halo: f32,
};

@group(0) @binding(0) var<uniform> params: Params;
@group(0) @binding(1) var orb_tex: texture_2d<f32>;
//!ORB_EXTRA_BINDINGS

const TAU: f32 = 6.28318530718;
const BREATH_RADIUS_AMP: f32 = 0.10;
const BREATH_BLUR_AMP: f32 = 0.15;
const BREATH_OPACITY_AMP: f32 = 0.05;
const BREATH_RADIUS_MAX_FACTOR: f32 = 1.10;
const WOBBLE_AMP: f32 = 0.010;
const WOBBLE_CYCLES: f32 = 1.0;
const HUE_PULSE_AMP: f32 = 0.25;
const HUE_PULSE_CYCLES: f32 = 1.0;
const GLYPH_SDF_CONTENT_SPAN: f32 = 0.70710678;

//!ORB_LOAD

fn clampf(x: f32, a: f32, b: f32) -> f32 {
    return min(max(x, a), b);
}

fn hash21(p: vec2<f32>) -> f32 {
    let h = dot(p, vec2<f32>(127.1, 311.7));
    return fract(sin(h) * 43758.5453123);
}

// Turns the hue by an angle, around the grey axis.
fn hue_rotate(rgb: vec3<f32>, angle: f32) -> vec3<f32> {
    let k = vec3<f32>(0.57735027);
    let c = cos(angle);
    let turned = rgb * c + cross(k, rgb) * sin(angle) + k * dot(k, rgb) * (1.0 - c);
    return clamp(turned, vec3<f32>(0.0), vec3<f32>(1.0));
}

//!ORB_HELPERS

// Opacity at a distance from the shape, and the factor of its colour: the outermost
// segment darkens by the strength of the shadow.
fn falloff_curve(style_bit: f32, r_in: f32, blur: f32, opacity: f32) -> vec2<f32> {
    if (opacity <= 0.0 || r_in >= 1.0) {
        return vec2<f32>(0.0, 0.0);
    }
    let r = max(r_in, 0.0);
    if (style_bit < 0.5) {
        let center_a = opacity;
        let mid_a = opacity * (80.0 / 255.0);
        let mid_stop = clampf(1.0 - blur * 0.8, 0.05, 0.95);
        if (r <= mid_stop) {
            let u = r / mid_stop;
            return vec2<f32>(mix(center_a, mid_a, u), 1.0);
        }
        let denom = max(1.0 - mid_stop, 1e-6);
        let u = (r - mid_stop) / denom;
        return vec2<f32>(mix(mid_a, 0.0, u), mix(1.0, 1.0 - u, params.shadow_strength));
    }
    let hold_stop = clampf(1.0 - blur, 0.05, 0.95);
    if (r <= hold_stop) {
        return vec2<f32>(opacity, 1.0);
    }
    let denom = max(1.0 - hold_stop, 1e-6);
    let u = (r - hold_stop) / denom;
    return vec2<f32>(mix(opacity, 0.0, u), mix(1.0, 1.0 - u, params.shadow_strength));
}

//!ORB_COVERAGE

//!ORB_AQUA_BLEED_SHARED

fn composite_straight(sample_px: vec2<f32>) -> vec4<f32> {
    var acc_rgb = params.bg.rgb;
    var acc_a = params.bg.a;
    let t_frac = fract(params.t);
    let width = params.resolution.x;
    let height = params.resolution.y;
    let horizontal = params.direction < 1.5;
    let progress_axis = select(height, width, horizontal);
    let n = u32(params.n_orbs);
    for (var i: u32 = 0u; i < n; i = i + 1u) {
        let o = load_orb(i);
        let weight_root = sqrt(max(o.color.a, 0.0));
        let phase = o.phase.x;
        let phi_radius = o.phase.y;
        let phi_blur = o.phase.z;
        let phi_opacity = o.phase.w;
        let cross_axis = o.misc.x;
        let style_bit = o.misc.y;
        let speed_mult = o.misc.z;

        // The way across the picture, with room for the orb on both sides.
        let r_norm = params.base_radius * weight_root * BREATH_RADIUS_MAX_FACTOR / progress_axis;
        let extent = 1.0 + 2.0 * r_norm;
        let raw = (phase + params.cycle * speed_mult * t_frac) * extent;
        let pos = (raw - extent * floor(raw / extent)) - r_norm;
        let wobble = WOBBLE_AMP * sin(TAU * (WOBBLE_CYCLES * t_frac + phase));
        var nx = pos;
        var ny = pos;
        if (horizontal) {
            ny = cross_axis + wobble;
            if (params.direction > 0.5) {
                nx = 1.0 - pos;
            }
        } else {
            nx = cross_axis + wobble;
            if (params.direction > 2.5) {
                ny = 1.0 - pos;
            }
        }
        let cx = nx * width;
        let cy = ny * height;

        // Radius, blur and opacity breathe, each in its own phase.
        let radius = params.base_radius * weight_root
            * (1.0 + BREATH_RADIUS_AMP * sin(TAU * t_frac + phi_radius));
        if (radius <= 0.0) {
            continue;
        }
        let blur = clampf(
            params.base_blur + BREATH_BLUR_AMP * sin(TAU * t_frac + phi_blur), 0.0, 1.0);
        let opacity = clampf(
            params.alpha_mul * (1.0 + BREATH_OPACITY_AMP * sin(TAU * t_frac + phi_opacity)),
            0.0, 1.0);
//!ORB_ANGLE

        var cov = vec2<f32>(0.0, 0.0);
        if (params.aqua_bleed > 0.0) {
            //!ORB_AQUA_BLEED_GEOM
            let blur_px = params.aqua_bleed * radius * aqua_blur_scale;
            let reach = radius * AQUA_REACH_RADIUS_FACTOR + blur_px * AQUA_REACH_BLUR_FACTOR
                + AQUA_CULL_SAFETY_PX;
            if (distance(sample_px, vec2<f32>(cx, cy)) > reach) {
                continue;
            }
            let bias_px = aqua_seed_dir(phase)
                * (params.aqua_offset * AQUA_OFFSET_BIAS * blur_px);
            cov = blurred_coverage(
                style_bit, sample_px, cx, cy, radius, blur, opacity, angle, blur_px, phase, bias_px);
        } else {
            cov = coverage_at(style_bit, sample_px, cx, cy, radius, blur, opacity, angle);
        }
        let alpha = cov.x;
        let rgb_scale = cov.y;
        if (alpha > 0.0) {
            var src_rgb = hue_rotate(
                o.color.rgb,
                HUE_PULSE_AMP * sin(TAU * (HUE_PULSE_CYCLES * t_frac + phi_opacity)));
            if (params.aqua_bleed > 0.0) {
                src_rgb = aqua_character(src_rgb, alpha, params.aqua_bloom, params.aqua_halo);
            }
            let one_minus_a = 1.0 - alpha;
            acc_rgb = src_rgb * rgb_scale * alpha + acc_rgb * one_minus_a;
            acc_a = alpha + acc_a * one_minus_a;
        }
    }
    return vec4<f32>(acc_rgb, acc_a);
}

@vertex
fn vs_main(@builtin(vertex_index) index: u32) -> @builtin(position) vec4<f32> {
    let x = f32(i32(index & 1u) * 4 - 1);
    let y = f32(i32(index >> 1u) * 4 - 1);
    return vec4<f32>(x, y, 0.0, 1.0);
}

@fragment
fn fs_main(@builtin(position) position: vec4<f32>) -> @location(0) vec4<f32> {
    return composite_straight(position.xy);
}
";

/// The scale of the blur of the watercolour layer.
pub const ORB_AQUA_BLEED_CONTINUOUS: &'static str = "let aqua_blur_scale = 1.0;";

/// A disc needs no more bindings.
pub const ORB_EXTRA_BINDINGS_NONE: &'static str = "";

/// A distance field needs its texture and a sampler.
pub const ORB_EXTRA_BINDINGS_SDF: &'static str = "@group(0) @binding(2) var sdf_tex: texture_2d<f32>;
@group(0) @binding(3) var sdf_samp: sampler;";

/// A disc reads three texels of each orb.
pub const ORB_LOAD_ORB: &'static str = "struct Orb {
    color: vec4<f32>, // (r, g, b, weight)
    phase: vec4<f32>, // (phase, phi_radius, phi_blur, phi_opacity)
    misc: vec4<f32>,  // (cross_axis, style_bit, speed_mult, _)
};

fn load_orb(i: u32) -> Orb {
    let row = i32(i);
    var o: Orb;
    o.color = textureLoad(orb_tex, vec2<i32>(0, row), 0);
    o.phase = textureLoad(orb_tex, vec2<i32>(1, row), 0);
    o.misc = textureLoad(orb_tex, vec2<i32>(2, row), 0);
    return o;
}";

/// A distance field turns, so it reads the fourth texel too.
pub const ORB_LOAD_ORB_WITH_ROT: &'static str = "struct Orb {
    color: vec4<f32>, // (r, g, b, weight)
    phase: vec4<f32>, // (phase, phi_radius, phi_blur, phi_opacity)
    misc: vec4<f32>,  // (cross_axis, style_bit, speed_mult, _)
    rot: vec4<f32>,   // (base_angle, rot_speed_signed, _, _)
};

fn load_orb(i: u32) -> Orb {
    let row = i32(i);
    var o: Orb;
    o.color = textureLoad(orb_tex, vec2<i32>(0, row), 0);
    o.phase = textureLoad(orb_tex, vec2<i32>(1, row), 0);
    o.misc = textureLoad(orb_tex, vec2<i32>(2, row), 0);
    o.rot = textureLoad(orb_tex, vec2<i32>(3, row), 0);
    return o;
}";

/// A disc needs no helper.
pub const ORB_HELPERS_NONE: &'static str = "";

/// The angle of a glyph: whole turns over the clip, so that it comes round.
pub const ORB_HELPERS_SDF: &'static str = "fn glyph_rotation_angle(base_angle: f32, rot_speed_signed: f32) -> f32 {
    if (params.glyph_rotate < 0.5) {
        return base_angle;
    }
    let x = params.cycle * rot_speed_signed * params.t;
    let turns = x - floor(x);
    return base_angle + turns * TAU;
}";

/// A disc has no angle.
pub const ORB_ANGLE_NONE: &'static str = "        let angle = 0.0;";

/// The angle of a glyph.
pub const ORB_ANGLE_SDF: &'static str = "        let angle = glyph_rotation_angle(o.rot.x, o.rot.y);";

/// The coverage of a disc.
pub const ORB_COVERAGE_CIRCLE: &'static str = "fn coverage_at(
    style_bit: f32,
    sp: vec2<f32>,
    cx: f32,
    cy: f32,
    radius: f32,
    blur: f32,
    opacity: f32,
    angle: f32,
) -> vec2<f32> {
    let r = distance(sp, vec2<f32>(cx, cy)) / radius;
    return falloff_curve(style_bit, r, blur, opacity);
}";

/// The coverage of a distance field, turned by the angle before it is sampled. Outside of
/// the field there is none.
pub const ORB_COVERAGE_SDF: &'static str = "fn coverage_at(
    style_bit: f32,
    sp: vec2<f32>,
    cx: f32,
    cy: f32,
    radius: f32,
    blur: f32,
    opacity: f32,
    angle: f32,
) -> vec2<f32> {
    let cos_a = cos(angle);
    let sin_a = sin(angle);
    let dx = sp.x - cx;
    let dy = sp.y - cy;
    let rx = cos_a * dx - sin_a * dy;
    let ry = sin_a * dx + cos_a * dy;
    let u = rx / (2.0 * radius) * GLYPH_SDF_CONTENT_SPAN + 0.5;
    let v = ry / (2.0 * radius) * GLYPH_SDF_CONTENT_SPAN + 0.5;
    if (u < 0.0 || u > 1.0 || v < 0.0 || v > 1.0) {
        return vec2<f32>(0.0, 0.0);
    }
    // The sampler blends at uv * size - 0.5; the field is meant to be read at u * (size - 1).
    let s = params.sdf_size;
    let uu = (clampf(u, 0.0, 1.0) * (s - 1.0) + 0.5) / s;
    let vv = (clampf(v, 0.0, 1.0) * (s - 1.0) + 0.5) / s;
    let sdf01 = textureSampleLevel(sdf_tex, sdf_samp, vec2<f32>(uu, vv), 0.0).r;
    let signed_unit = sdf01 * 2.0 - 1.0;
    let r = 1.0 - signed_unit;
    return falloff_curve(style_bit, r, blur, opacity);
}";

/// The watercolour text that `aquarelle` shares, behind the declaration of its number of
/// samples.
pub const AQUA_BLEED_REST: &'static str = "
// 黄金角（ラジアン）。disk 内に等密度でタップを撒くスパイラルに使う（規則格子を避ける）。
const AQUA_GOLDEN_ANGLE: f32 = 2.39996323;
// bloom の白へ寄せる上限（offset=1 でもこの比までしか白くしない）。控えめにして
// 強い白飛びを禁止する（kako-jun「控えめに」）。
const BLOOM_MAX: f32 = 0.45;
// halo の彩度ゲイン係数（halo=1・縁で luma 軸からの距離をこの倍まで伸ばす上限）。
const HALO_SAT_GAIN: f32 = 0.6;
// offset の disk 原点バイアス量（blur_px に対する比。offset=1 でこの比だけ seed 方向へ
// ずらす）。形は壊さず滲みを非対称にする程度に控えめ。
const AQUA_OFFSET_BIAS: f32 = 0.6;

// #239 ブラー経路の空間早期カル用の「シルエット最大到達」（radius 倍）。被覆が確実に 0 に
// なる距離の上限を **安全側に大きく** 取るための定数。出力は一切変えない（カルするのは
// もともと alpha=0 になる画素だけ）。両 variant の最大到達を包む保守値:
//   - orb variant   : r=distance/radius、coverage_at は r>=1 で 0 → 到達 = radius（係数 1.0）。
//   - SDF variant   : サンプル箱は半幅 radius/CONTENT_SPAN（CONTENT_SPAN=1/√2）の正方形。
//                     中心からの最遠点は角で radius/CONTENT_SPAN * √2 = radius*2 → 係数 2.0。
// 共有 composite_straight は両 variant に展開されるので、大きい方（2.0）を採る。
const AQUA_REACH_RADIUS_FACTOR: f32 = 2.0;
// タップが sample_px から離れうる最大比（blur_px 倍）。disk 半径 blur_px + offset bias
// （最大 AQUA_OFFSET_BIAS*blur_px=0.6*blur_px）→ 1.0 + 0.6 = 1.6。
const AQUA_REACH_BLUR_FACTOR: f32 = 1.6;
// カル境界に足す安全マージン（px）。丸め・補間の縁を確実に内側へ寄せ、寄与しうる画素を
// 絶対にカルしないための保険。出力は不変なのでいくら大きくても正しさは保たれる。
const AQUA_CULL_SAFETY_PX: f32 = 4.0;

// per-orb seed（phase 由来）から決定論的な単位方向ベクトルを作る。offset 軸が
// ブラーの disk 原点をこの向きへずらして滲みを左右非対称・有機的にするのに使う。
// hash で角度を散らすだけなので「形」は一切作らない（円へモーフしない）。
fn aqua_seed_dir(seed: f32) -> vec2<f32> {
    let a = hash21(vec2<f32>(seed * 12.9898, seed * 78.233 + 4.1)) * TAU;
    return vec2<f32>(cos(a), sin(a));
}

// 被覆 alpha を blur 半径 `blur_px` の disk 内で multi-tap 空間平均する（= ガウス近似ブラー）。
// `coverage_at` は variant ごとに差し替わる（orb=円距離 / SDF=サンプル距離）。返り値は
// plain と同じ (straight alpha, rgb_scale) の vec2。形は変えず被覆を空間平均するだけなので
// 星は星のままぼけ、強ブラーで自然に formless 化する（丸へモーフしない）。
// `seed` は per-orb（phase 由来）。スパイラルの初期角をずらして規則パターンを避ける。
//
// #239 offset 軸: `bias_px` は disk 原点（タップを撒く中心）に加える per-orb seed 方向の
// ずれ。**サンプル位置（cx,cy への距離評価）はそのまま**で、ブラーの“筆の置きどころ”だけ
// を seed 方向へ寄せるので、滲みが左右非対称になる。形（coverage_at の距離場）は不変＝
// 星は星のまま・円へモーフしない。bias_px=0（offset=0）で従来の対称ブラーと厳密に一致。
fn blurred_coverage(
    style_bit: f32,
    sample_px: vec2<f32>,
    cx: f32,
    cy: f32,
    radius: f32,
    blur: f32,
    opacity: f32,
    angle: f32,
    blur_px: f32,
    seed: f32,
    bias_px: vec2<f32>,
) -> vec2<f32> {
    // タップ 0 は中心。残りは黄金角スパイラルで disk(半径 blur_px) に等密度散布。
    var sum_a = 0.0;
    var sum_scaled = 0.0; // alpha * rgb_scale の総和（重み付き平均の分子）
    let n = AQUA_BLUR_TAPS;
    let nf = f32(n);
    // 初期角は per-orb seed に加え **per-pixel ハッシュ**でずらす。これで隣接画素が
    // 別のタップ位置を踏み、コヒーレントなスパイラルのトゲがディザされて滑らかになる。
    let ang0 = seed * AQUA_GOLDEN_ANGLE * 7.0 + hash21(sample_px) * TAU;
    // disk の中心を offset 軸の bias 分だけ seed 方向へずらす（offset=0 で bias_px=0）。
    let center = sample_px + bias_px;
    for (var k: u32 = 0u; k < n; k = k + 1u) {
        // r ∝ sqrt(k/n) で disk 内一様面積分布、角は黄金角で回す。
        let kf = f32(k);
        let rr = blur_px * sqrt((kf + 0.5) / nf);
        let th = ang0 + kf * AQUA_GOLDEN_ANGLE;
        let off = vec2<f32>(cos(th) * rr, sin(th) * rr);
        let sp = center + off;
        let cov = coverage_at(style_bit, sp, cx, cy, radius, blur, opacity, angle);
        sum_a = sum_a + cov.x;
        sum_scaled = sum_scaled + cov.x * cov.y;
    }
    let avg_a = sum_a / nf;
    var avg_scale = 1.0;
    if (sum_a > 0.0) {
        avg_scale = sum_scaled / sum_a; // alpha 重み付き平均の rgb_scale
    }
    return vec2<f32>(avg_a, avg_scale);
}

// #239 bloom/halo 軸（ブラー後の色味補正。各 coef=0 で恒等）。被覆 alpha `cov_a`
// （ブラー後）を中心度の代理にして、`color` を控えめに加工する:
//   - bloom: 内部（cov_a 高）で色を白へ寄せて柔らかい明るいコアにする。
//            t = bloom * smoothstep(0.18, 0.5, cov_a) を白との mix 比に使う（閾値は
//            ブラー後 alpha の実効レンジ基準。最大でも BLOOM_MAX=0.45 までしか白へ
//            寄せない＝強い白飛びを禁止）。
//   - halo : 外周の柔らかい縁（cov_a 低～中）で**彩度だけ**を上げる。枠（alpha）は作らない。
//            彩度ブースト量 = halo * edgeness。edgeness = smoothstep(0.45,0.05,cov_a) で
//            内部ほど 0、縁ほど 1。彩度は luma 軸からの距離を係数 (1+halo*k) 倍にする。
// 返り値は加工後の straight rgb。cov_a=0 の画素はそもそも合成側 `alpha>0` で弾かれる。
fn aqua_character(color: vec3<f32>, cov_a: f32, bloom: f32, halo: f32) -> vec3<f32> {
    var rgb = color;
    // ブラー後の被覆 alpha は orb の opacity（≈0.5 程度）で頭打ちになるため、中心度/縁度は
    // その実効レンジに合わせて閾値を取る（絶対 1.0 基準だと内部でもほぼ発火しない）。
    // --- halo: 外周の彩度ブースト（色味だけ。alpha リングは作らない）---
    if (halo > 0.0) {
        let edgeness = smoothstep(0.45, 0.05, cov_a); // 内部=0 → 縁=1
        let luma = dot(rgb, vec3<f32>(0.299, 0.587, 0.114));
        let sat_gain = 1.0 + halo * HALO_SAT_GAIN * edgeness; // 1.0 で恒等
        rgb = clamp(vec3<f32>(luma) + (rgb - vec3<f32>(luma)) * sat_gain, vec3<f32>(0.0), vec3<f32>(1.0));
    }
    // --- bloom: 中心の柔らかい明るいコア（控えめに白へ）---
    if (bloom > 0.0) {
        let centerness = smoothstep(0.18, 0.5, cov_a); // 縁=0 → 中心=1（実効レンジ基準）
        let t = bloom * BLOOM_MAX * centerness; // 最大 BLOOM_MAX までしか白へ寄せない
        rgb = mix(rgb, vec3<f32>(1.0), t);
    }
    return rgb;
}
";

} // verus!
