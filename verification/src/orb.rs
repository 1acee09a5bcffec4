//! Shapes and styles of orbs, and the saturation of their colours.

use crate::binary32::{Binary32, ONE};
use crate::glyph::GlyphFontId;
use crate::integers::{lemma_of_int_exact, of_int};
use crate::rounding::lemma_pow2_values;
use crate::style::SoftnessPreset;
use palette::{FromColor, Hsl, IntoColor, RgbHue, Srgb};
use vstd::arithmetic::power2::{lemma_pow2_adds, lemma_pow2_pos, pow2};
use vstd::prelude::*;

verus! {

/// How an orb fades out. Both styles mix within one frame.
#[derive(Clone, Copy, Debug, PartialEq, Eq, Structural)]
pub enum OrbStyle {
    /// A stop half way dims the orb and leaves a rim.
    Rim,
    /// A plain fade from the centre outwards.
    Soft,
}

impl Default for OrbStyle {
    fn default() -> (r: OrbStyle)
        ensures
            r == OrbStyle::Rim,
    {
        OrbStyle::Rim
    }
}

/// Strengths of the four watercolour elements, each within 0 to 1.
#[derive(Clone, Copy, Debug, PartialEq, Eq, Structural)]
pub struct AquarelleParams {
    pub bleed: Binary32,
    pub bloom: Binary32,
    pub offset: Binary32,
    pub halo: Binary32,
}

/// What is drawn at the place of each orb.
#[derive(Clone, Debug)]
pub enum OrbShape {
    /// A disc with a radial falloff.
    Orb,
    /// The watercolour texture set.
    Aquarelle(AquarelleParams),
    /// One character of a bundled font.
    Glyph { ch: char, font: GlyphFontId },
    /// The silhouette of a picture, as the `size` by `size` distance field that
    /// [`crate::glyph::mask_to_sdf`] makes.
    Image { sdf: Vec<u8>, size: u32 },
}

impl Default for OrbShape {
    fn default() -> (r: OrbShape)
        ensures
            r is Orb,
    {
        OrbShape::Orb
    }
}

impl OrbShape {
    /// Whether two shapes are of one form: watercolour strengths and the contents
    /// of a distance field do not count, character and font do.
    pub open spec fn same_form(&self, other: &OrbShape) -> bool {
        match (self, other) {
            (OrbShape::Orb, OrbShape::Orb) => true,
            (OrbShape::Aquarelle(_), OrbShape::Aquarelle(_)) => true,
            (OrbShape::Glyph { ch: a, font: f }, OrbShape::Glyph { ch: b, font: g }) => a == b
                && f == g,
            (OrbShape::Image { .. }, OrbShape::Image { .. }) => true,
            _ => false,
        }
    }
}

impl PartialEq for OrbShape {
    fn eq(&self, other: &OrbShape) -> (r: bool) {
        match (self, other) {
            (OrbShape::Orb, OrbShape::Orb) => true,
            (OrbShape::Aquarelle(_), OrbShape::Aquarelle(_)) => true,
            (OrbShape::Glyph { ch: a, font: f }, OrbShape::Glyph { ch: b, font: g }) => {
                *a == *b && *f == *g
            },
            (OrbShape::Image { .. }, OrbShape::Image { .. }) => true,
            _ => false,
        }
    }
}

impl vstd::std_specs::cmp::PartialEqSpecImpl for OrbShape {
    open spec fn obeys_eq_spec() -> bool {
        true
    }

    open spec fn eq_spec(&self, other: &OrbShape) -> bool {
        self.same_form(other)
    }
}

/// Whether a shape is as another: of the same form, with the same contents.
pub open spec fn same_shape(a: OrbShape, b: OrbShape) -> bool {
    match (a, b) {
        (OrbShape::Image { sdf: s, size: n }, OrbShape::Image { sdf: t, size: m }) => s@ == t@ && n
            == m,
        _ => a == b,
    }
}

/// A copy of a shape.
pub fn copy_shape(shape: &OrbShape) -> (r: OrbShape)
    ensures
        same_shape(r, *shape),
{
    match shape {
        OrbShape::Orb => OrbShape::Orb,
        OrbShape::Aquarelle(p) => OrbShape::Aquarelle(*p),
        OrbShape::Glyph { ch, font } => OrbShape::Glyph { ch: *ch, font: *font },
        OrbShape::Image { sdf, size } => {
            let mut copy: Vec<u8> = Vec::new();
            let mut i: usize = 0;
            while i < sdf.len()
                invariant
                    i <= sdf@.len(),
                    copy@ == sdf@.take(i as int),
                decreases sdf@.len() - i,
            {
                copy.push(sdf[i]);
                i = i + 1;
                proof {
                    assert(copy@ =~= sdf@.take(i as int));
                }
            }
            proof {
                assert(sdf@.take(sdf@.len() as int) =~= sdf@);
            }
            OrbShape::Image { sdf: copy, size: *size }
        },
    }
}

/// Resolution and layout of a picture.
#[derive(Clone, Debug)]
pub struct RenderOptions {
    pub width: u32,
    pub height: u32,
    /// Multiplies the size of every orb.
    pub orb_size: Binary32,
    /// 0 is sharp, 1 fully blurred.
    pub blur: Binary32,
    /// Multiplies the saturation of every colour.
    pub saturation: Binary32,
    /// Red, green, blue and alpha behind the orbs.
    pub background: [u8; 4],
    pub shape: OrbShape,
    pub softness: SoftnessPreset,
}

impl Default for RenderOptions {
    fn default() -> (r: RenderOptions)
        ensures
            r.width == 1080,
            r.height == 1920,
            r.orb_size.bits == 0x3f80_0000,
            r.blur.bits == 0x3f00_0000,
            r.saturation.bits == 0x3f80_0000,
            r.background@ == seq![0u8, 0, 0, 255],
            r.shape is Orb,
            r.softness == SoftnessPreset::Mid,
    {
        let r = RenderOptions {
            width: 1080,
            height: 1920,
            orb_size: Binary32 { bits: 0x3f80_0000 },
            blur: Binary32 { bits: 0x3f00_0000 },
            saturation: Binary32 { bits: 0x3f80_0000 },
            background: [0, 0, 0, 255],
            shape: OrbShape::Orb,
            softness: SoftnessPreset::Mid,
        };
        assert(r.background@ =~= seq![0u8, 0, 0, 255]);
        r
    }
}

/// Whether a number lies within 0 to 1.
pub open spec fn in_unit(x: Binary32) -> bool {
    (Binary32 { bits: 0 }).at_most(x) && x.at_most(Binary32 { bits: ONE })
}

/// What [`rgb_to_hsl`] returns.
pub uninterp spec fn hsl_of_rgb(red: Binary32, green: Binary32, blue: Binary32) -> (
    Binary32,
    Binary32,
    Binary32,
);

/// What [`hsl_to_rgb`] returns.
pub uninterp spec fn rgb_of_hsl(hue: Binary32, saturation: Binary32, lightness: Binary32) -> (
    Binary32,
    Binary32,
    Binary32,
);

/// `palette::Hsl::from_color` on an `Srgb` colour of single precision components within
/// 0 to 1: hue in degrees, saturation and lightness. The contract claims that the
/// components determine them, that the hue is finite and that the other two lie within
/// 0 to 1, to which `from_color` clamps them.
#[verifier::external_body]
fn rgb_to_hsl(red: Binary32, green: Binary32, blue: Binary32) -> (r: (
    Binary32,
    Binary32,
    Binary32,
))
    requires
        in_unit(red) && !red.negative(),
        in_unit(green) && !green.negative(),
        in_unit(blue) && !blue.negative(),
    ensures
        r == hsl_of_rgb(red, green, blue),
        r.0.finite(),
        in_unit(r.1),
        in_unit(r.2),
{
    let rgb: Srgb = Srgb::new(
        bytemuck::cast(red.bits),
        bytemuck::cast(green.bits),
        bytemuck::cast(blue.bits),
    );
    let hsl: Hsl = Hsl::from_color(rgb);
    (
        Binary32 { bits: hsl.hue.into_inner().to_bits() },
        Binary32 { bits: hsl.saturation.to_bits() },
        Binary32 { bits: hsl.lightness.to_bits() },
    )
}

/// `palette`'s `into_color` from an `Hsl` colour to `Srgb`, single precision components
/// on both sides. The contract claims that the components determine the result, and that
/// a saturation that is not a number comes out in all three components. Which pattern
/// such a component then has is left open.
#[verifier::external_body]
fn hsl_to_rgb(hue: Binary32, saturation: Binary32, lightness: Binary32) -> (r: (
    Binary32,
    Binary32,
    Binary32,
))
    requires
        hue.finite(),
        saturation.nan_pattern() || in_unit(saturation),
        in_unit(lightness),
    ensures
        !saturation.nan_pattern() ==> r == rgb_of_hsl(hue, saturation, lightness),
        saturation.nan_pattern() ==> r.0.nan_pattern() && r.1.nan_pattern()
            && r.2.nan_pattern(),
{
    let angle: RgbHue = RgbHue::from_degrees(bytemuck::cast(hue.bits));
    let hsl: Hsl = Hsl::new(
        angle,
        bytemuck::cast(saturation.bits),
        bytemuck::cast(lightness.bits),
    );
    let rgb: Srgb = hsl.into_color();
    (
        Binary32 { bits: rgb.red.to_bits() },
        Binary32 { bits: rgb.green.to_bits() },
        Binary32 { bits: rgb.blue.to_bits() },
    )
}

/// A colour channel as a number within 0 to 1.
pub open spec fn channel_number(c: u8) -> Binary32 {
    of_int(false, c as nat).over(Binary32 { bits: 0x437f_0000 })
}

/// A channel as a number lies within 0 to 1.
pub proof fn lemma_channel_in_unit(c: u8)
    ensures
        !channel_number(c).negative(),
        channel_number(c).at_most(Binary32 { bits: ONE }),
{
    reveal(Binary32::over);
    let big = Binary32 { bits: 0x437f_0000 };
    let one = Binary32 { bits: ONE };
    let n = of_int(false, c as nat);
    lemma_of_int_exact(false, c as nat);
    vstd::arithmetic::power2::lemma2_to64();
    lemma_pow2_adds(16, 133);
    assert(big.units() == 0xff_0000 * pow2(133));
    lemma_pow2_values();
    lemma_pow2_pos(149);
    lemma_pow2_adds(23, 126);
    assert(one.units() == pow2(149));
    let k = pow2(149);
    assert(n.units() * k <= one.units() * big.units()) by (nonlinear_arith)
        requires
            n.units() == c * k,
            one.units() == k,
            big.units() == 255 * k,
            c <= 255,
            k > 0,
    ;
    assert(0 * big.units() <= n.units() * k) by (nonlinear_arith);
    assert(big.units() > 0) by (nonlinear_arith)
        requires
            big.units() == 255 * k,
            k > 0,
    ;
    assert(crate::binary32::mag_units(0) == 0);
    crate::binary32_laws::lemma_round32_between(n.units() * k, big.units(), 0, ONE as nat);
}

/// A number within 0 to 1 as a colour channel.
pub open spec fn number_channel(x: Binary32) -> u8 {
    x.clamped(Binary32 { bits: 0 }, Binary32 { bits: ONE }).times(
        Binary32 { bits: 0x437f_0000 },
    ).rounded().as_unsigned(0xff) as u8
}

/// What is not a number becomes the channel 0.
proof fn lemma_channel_of_no_number(x: Binary32)
    requires
        x.nan_pattern(),
    ensures
        number_channel(x) == 0,
{
    reveal(Binary32::times);
    let y = x.clamped(Binary32 { bits: 0 }, Binary32 { bits: ONE });
    let z = y.times(Binary32 { bits: 0x437f_0000 });
    assert(y == x);
    assert(z.nan_pattern());
    assert(z.rounded().nan_pattern());
}

pub fn channel_to_number(c: u8) -> (r: Binary32)
    ensures
        r == channel_number(c),
{
    Binary32::from_u64(c as u64).div(Binary32 { bits: 0x437f_0000 })
}

pub fn number_to_channel(x: Binary32) -> (r: u8)
    ensures
        r == number_channel(x),
{
    x.clamp(Binary32 { bits: 0 }, Binary32 { bits: ONE }).mul(
        Binary32 { bits: 0x437f_0000 },
    ).round().to_u8()
}

/// Whether a factor is so near to 1 that a colour is left as it is.
pub open spec fn leaves_saturation(factor: Binary32) -> bool {
    factor.minus(Binary32 { bits: ONE }).absolute().less(Binary32 { bits: 0x38d1_b717 })
}

/// The saturation `factor` times as high, within 0 to 1.
pub open spec fn scaled_saturation(saturation: Binary32, factor: Binary32) -> Binary32 {
    saturation.times(factor).clamped(Binary32 { bits: 0 }, Binary32 { bits: ONE })
}

/// A colour with its saturation multiplied: black where the product is not a number.
pub open spec fn saturated(rgb: [u8; 3], factor: Binary32) -> Seq<u8> {
    let hsl = hsl_of_rgb(channel_number(rgb[0]), channel_number(rgb[1]), channel_number(rgb[2]));
    let saturation = scaled_saturation(hsl.1, factor);
    if leaves_saturation(factor) {
        rgb@
    } else if saturation.nan_pattern() {
        seq![0u8, 0, 0]
    } else {
        let out = rgb_of_hsl(hsl.0, saturation, hsl.2);
        seq![number_channel(out.0), number_channel(out.1), number_channel(out.2)]
    }
}

/// The saturation `factor` times as high, within 0 to 1.
pub fn scale_saturation(saturation: Binary32, factor: Binary32) -> (r: Binary32)
    ensures
        r == scaled_saturation(saturation, factor),
{
    saturation.mul(factor).clamp(Binary32 { bits: 0 }, Binary32 { bits: ONE })
}

/// Multiplies the saturation of a colour, by way of hue, saturation and lightness.
pub fn adjust_saturation_pub(rgb: [u8; 3], factor: Binary32) -> (r: [u8; 3])
    ensures
        r@ == saturated(rgb, factor),
        leaves_saturation(factor) ==> r == rgb,
{
    if factor.sub(Binary32 { bits: ONE }).abs().lt(Binary32 { bits: 0x38d1_b717 }) {
        return rgb;
    }
    proof {
        lemma_channel_in_unit(rgb[0]);
        lemma_channel_in_unit(rgb[1]);
        lemma_channel_in_unit(rgb[2]);
    }
    let (hue, saturation, lightness) = rgb_to_hsl(
        channel_to_number(rgb[0]),
        channel_to_number(rgb[1]),
        channel_to_number(rgb[2]),
    );
    let (red, green, blue) = hsl_to_rgb(hue, scale_saturation(saturation, factor), lightness);
    let r: [u8; 3] = [number_to_channel(red), number_to_channel(green), number_to_channel(blue)];
    proof {
        if scaled_saturation(saturation, factor).nan_pattern() {
            lemma_channel_of_no_number(red);
            lemma_channel_of_no_number(green);
            lemma_channel_of_no_number(blue);
        }
        assert(r@ =~= saturated(rgb, factor));
    }
    r
}

} // verus!
