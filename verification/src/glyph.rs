//! Silhouettes as distance fields.
//!
//! A glyph or a picture becomes a mask, and the mask a field of signed distances to
//! its edge, one byte for each pixel: 128 and more inside, less outside. Shapes are
//! then drawn from the field alone.

use crate::binary32::{Binary32, ONE};
use crate::distance::{edt_2d, is_nearest, marked, FAR};
use crate::integers::of_int;
use crate::picture::{resize_rgba, resized_rgba, RgbaPicture};
use crate::scaling::{lemma_scale_close, lemma_scaled_side_fits, scale_side, scaled_side};
use crate::rounding::above;
use vstd::prelude::*;
use zeno::{Command, Mask, Point};

verus! {

/// The bundled fonts.
#[derive(Clone, Copy, Debug, PartialEq, Eq, Hash, Structural)]
pub enum GlyphFontId {
    /// Noto Sans Symbols 2.
    NotoSymbols2,
}

impl Default for GlyphFontId {
    fn default() -> (r: GlyphFontId)
        ensures
            r == GlyphFontId::NotoSymbols2,
    {
        GlyphFontId::NotoSymbols2
    }
}

/// The side of a distance field where nothing asks for a larger one.
pub const DEFAULT_GLYPH_SDF_SIZE: u32 = 256;

/// The largest side of a distance field.
pub const MAX_GLYPH_SDF_SIZE: u32 = 1024;

/// The part of the side of a distance field that the shape may take: 1/√2, so that a
/// turned shape stays inside. The pattern of a single-precision number.
pub const GLYPH_SDF_CONTENT_SPAN_PUB: u32 = 0x3f35_04f3;

/// The side of the field for a size: at least one pixel.
pub open spec fn field_side(size: u32) -> nat {
    if size == 0 {
        1
    } else {
        size as nat
    }
}

/// The squared distance from a pixel to the nearest marked one.
pub open spec fn nearest(features: Seq<bool>, side: nat, x: int, y: int) -> int {
    choose|d: int| is_nearest(features, side, x, y, d)
}

/// There is only one distance to the nearest marked pixel.
pub proof fn lemma_nearest_unique(features: Seq<bool>, side: nat, x: int, y: int, d: int)
    requires
        is_nearest(features, side, x, y, d),
    ensures
        nearest(features, side, x, y) == d,
{
    let e = nearest(features, side, x, y);
    assert(is_nearest(features, side, x, y, e));
    if d < FAR {
        let (a, b) = choose|a: int, b: int|
            #[trigger] marked(features, side, a, b) && d == crate::distance::gap2(x, y, a, b);
        assert(marked(features, side, a, b));
    }
    if e < FAR {
        let (a, b) = choose|a: int, b: int|
            #[trigger] marked(features, side, a, b) && e == crate::distance::gap2(x, y, a, b);
        assert(marked(features, side, a, b));
    }
}

/// The width of the band round the edge that the field resolves: 6 percent of the
/// side, at least a pixel.
pub open spec fn edge_band(size: u32) -> Binary32 {
    of_int(false, size as nat).times(Binary32 { bits: 0x3d75_c28f }).larger(Binary32 { bits: ONE })
}

/// The signed distance from the edge, in bands, within -1 to 1: `d` is the squared
/// distance to the nearest pixel on the other side, half a pixel of which lies beyond
/// the edge.
pub open spec fn signed_unit(inside: bool, d: int, band: Binary32) -> Binary32 {
    let half = Binary32 { bits: 0x3f00_0000 };
    let minus_one = Binary32 { bits: 0xbf80_0000 };
    let one = Binary32 { bits: ONE };
    if d >= FAR {
        if inside {
            one
        } else {
            minus_one
        }
    } else {
        let root = of_int(false, d as nat).root();
        let px = if inside {
            root.minus(half)
        } else {
            half.minus(root)
        };
        px.over(band).clamped(minus_one, one)
    }
}

/// A number within -1 to 1 as a byte.
pub open spec fn unit_byte(unit: Binary32) -> u8 {
    let half = Binary32 { bits: 0x3f00_0000 };
    unit.times(half).plus(half).times(Binary32 { bits: 0x437f_0000 }).rounded().clamped(
        Binary32 { bits: 0 },
        Binary32 { bits: 0x437f_0000 },
    ).as_unsigned(0xff) as u8
}

/// Which pixels of a mask are inside.
pub open spec fn inside_of(mask: Seq<u8>, side: nat) -> Seq<bool> {
    Seq::new(side * side, |i: int| mask[i] >= 128)
}

/// Which pixels of a mask are outside.
pub open spec fn outside_of(mask: Seq<u8>, side: nat) -> Seq<bool> {
    Seq::new(side * side, |i: int| mask[i] < 128)
}

/// Whether the mask has no pixel that is drawn at all.
pub open spec fn mask_empty(mask: Seq<u8>, side: nat) -> bool {
    forall|i: int| 0 <= i < side * side && i < mask.len() ==> #[trigger] mask[i] == 0
}

/// The byte of the field in column `x` and row `y`.
pub open spec fn sdf_byte(mask: Seq<u8>, size: u32, x: int, y: int) -> u8 {
    let side = field_side(size);
    let inside = mask[y * side + x] >= 128;
    let d = if inside {
        nearest(outside_of(mask, side), side, x, y)
    } else {
        nearest(inside_of(mask, side), side, x, y)
    };
    unit_byte(signed_unit(inside, d, edge_band(size)))
}

/// The distance field of a mask; nothing but zeros where the mask is empty.
pub open spec fn sdf_of(mask: Seq<u8>, size: u32) -> Seq<u8> {
    let side = field_side(size);
    if mask_empty(mask, side) {
        Seq::new(side * side, |i: int| 0u8)
    } else {
        Seq::new(
            side * side,
            |i: int| sdf_byte(mask, size, i % (side as int), i / (side as int)),
        )
    }
}

/// The byte of a signed distance.
pub fn distance_byte(inside: bool, d: i128, band: Binary32) -> (r: u8)
    requires
        0 <= d <= FAR,
        d < FAR ==> d < 0x400_0000_0000_0000_0000_0000,
    ensures
        r == unit_byte(signed_unit(inside, d as int, band)),
{
    let half = Binary32 { bits: 0x3f00_0000 };
    let minus_one = Binary32 { bits: 0xbf80_0000 };
    let one = Binary32 { bits: ONE };
    let unit = if d >= FAR {
        if inside {
            one
        } else {
            minus_one
        }
    } else {
        let root = Binary32::from_u128(d as u128).sqrt();
        let px = if inside {
            root.sub(half)
        } else {
            half.sub(root)
        };
        px.div(band).clamp(minus_one, one)
    };
    unit.mul(half).add(half).mul(Binary32 { bits: 0x437f_0000 }).round().clamp(
        Binary32 { bits: 0 },
        Binary32 { bits: 0x437f_0000 },
    ).to_u8()
}

/// Whether nothing is drawn among the first `n` pixels.
fn all_zero(mask: &[u8], n: usize) -> (r: bool)
    ensures
        r == forall|i: int| 0 <= i < n && i < mask@.len() ==> #[trigger] mask@[i] == 0,
{
    let mut i: usize = 0;
    while i < n && i < mask.len()
        invariant
            i <= mask@.len(),
            forall|j: int| 0 <= j < i ==> #[trigger] mask@[j] == 0,
        decreases mask.len() - i,
    {
        if mask[i] != 0 {
            return false;
        }
        i = i + 1;
    }
    true
}

/// Turns a mask (128 and more is inside) into a field of signed distances to its edge.
pub fn mask_to_sdf(mask: &[u8], size: u32) -> (r: Vec<u8>)
    requires
        field_side(size) * field_side(size) <= usize::MAX,
        mask@.len() >= field_side(size) * field_side(size) || mask_empty(mask@, field_side(size)),
    ensures
        r@ == sdf_of(mask@, size),
{
    let side: usize = if size == 0 {
        1
    } else {
        size as usize
    };
    let n: usize = side * side;
    let mut out: Vec<u8> = Vec::new();
    if all_zero(mask, n) {
        let mut i: usize = 0;
        while i < n
            invariant
                i <= n,
                out@ == Seq::new(i as nat, |j: int| 0u8),
            decreases n - i,
        {
            out.push(0);
            i = i + 1;
            proof {
                assert(out@ =~= Seq::new(i as nat, |j: int| 0u8));
            }
        }
        return out;
    }
    let mut inside: Vec<bool> = Vec::new();
    let mut outside: Vec<bool> = Vec::new();
    let mut i: usize = 0;
    while i < n
        invariant
            i <= n <= mask@.len(),
            inside@ == Seq::new(i as nat, |j: int| mask@[j] >= 128),
            outside@ == Seq::new(i as nat, |j: int| mask@[j] < 128),
        decreases n - i,
    {
        inside.push(mask[i] >= 128);
        outside.push(mask[i] < 128);
        i = i + 1;
        proof {
            assert(inside@ =~= Seq::new(i as nat, |j: int| mask@[j] >= 128));
            assert(outside@ =~= Seq::new(i as nat, |j: int| mask@[j] < 128));
        }
    }
    let to_inside = edt_2d(&inside, side);
    let to_outside = edt_2d(&outside, side);
    let band = Binary32::from_u64(size as u64).mul(Binary32 { bits: 0x3d75_c28f }).max(
        Binary32 { bits: ONE },
    );
    let mut i: usize = 0;
    let ghost whole = sdf_of(mask@, size);
    while i < n
        invariant
            i <= n <= mask@.len(),
            n == side * side,
            side == field_side(size),
            side <= 0xffff_ffff,
            !mask_empty(mask@, side as nat),
            band == edge_band(size),
            whole == sdf_of(mask@, size),
            inside@ == inside_of(mask@, side as nat),
            outside@ == outside_of(mask@, side as nat),
            to_inside@.len() == n,
            to_outside@.len() == n,
            forall|x: int, y: int|
                0 <= x < side && 0 <= y < side ==> is_nearest(
                    inside@,
                    side as nat,
                    x,
                    y,
                    #[trigger] to_inside@[y * side + x] as int,
                ),
            forall|x: int, y: int|
                0 <= x < side && 0 <= y < side ==> is_nearest(
                    outside@,
                    side as nat,
                    x,
                    y,
                    #[trigger] to_outside@[y * side + x] as int,
                ),
            out@ == whole.take(i as int),
        decreases n - i,
    {
        let ghost x = i as int % (side as int);
        let ghost y = i as int / (side as int);
        let on: bool = inside[i];
        let d: i128 = if on {
            to_outside[i]
        } else {
            to_inside[i]
        };
        proof {
            lemma_cell_of(i as int, side as int);
            assert(is_nearest(inside@, side as nat, x, y, to_inside@[y * side + x] as int));
            assert(is_nearest(outside@, side as nat, x, y, to_outside@[y * side + x] as int));
            let features = if on {
                outside@
            } else {
                inside@
            };
            lemma_nearest_unique(features, side as nat, x, y, d as int);
            lemma_nearest_bound(features, side as nat, x, y, d as int);
        }
        out.push(distance_byte(on, d, band));
        proof {
            assert(whole[i as int] == sdf_byte(mask@, size, x, y));
            assert(out@ =~= whole.take(i + 1));
        }
        i = i + 1;
    }
    proof {
        assert(out@ =~= whole);
    }
    out
}

/// The column and row of a cell.
proof fn lemma_cell_of(i: int, side: int)
    requires
        0 <= i < side * side,
        side > 0,
    ensures
        0 <= i % side < side,
        0 <= i / side < side,
        (i / side) * side + i % side == i,
{
    vstd::arithmetic::div_mod::lemma_fundamental_div_mod(i, side);
    vstd::arithmetic::div_mod::lemma_mod_bound(i, side);
    assert(0 <= i / side < side) by (nonlinear_arith)
        requires
            i == side * (i / side) + i % side,
            0 <= i % side < side,
            0 <= i < side * side,
    ;
    assert((i / side) * side == side * (i / side)) by (nonlinear_arith);
}

/// A squared distance within a field is far below [`FAR`].
proof fn lemma_nearest_bound(features: Seq<bool>, side: nat, x: int, y: int, d: int)
    requires
        is_nearest(features, side, x, y, d),
        0 <= x < side,
        0 <= y < side,
        side <= 0xffff_ffff,
    ensures
        0 <= d <= FAR,
        d < FAR ==> d < 0x400_0000_0000_0000_0000_0000,
{
    if d < FAR {
        let (a, b) = choose|a: int, b: int|
            #[trigger] marked(features, side, a, b) && d == crate::distance::gap2(x, y, a, b);
        let u = x - a;
        let v = y - b;
        assert(0 <= u * u <= 0xffff_ffff * 0xffff_ffff) by (nonlinear_arith)
            requires
                -0xffff_ffff <= u <= 0xffff_ffff,
        ;
        assert(0 <= v * v <= 0xffff_ffff * 0xffff_ffff) by (nonlinear_arith)
            requires
                -0xffff_ffff <= v <= 0xffff_ffff,
        ;
    }
}

/// The luma of pixel `i`.
pub open spec fn luma(data: Seq<u8>, i: int) -> Binary32 {
    (Binary32 { bits: 0x3e99_1687 }).times(of_int(false, data[4 * i] as nat)).plus(
        (Binary32 { bits: 0x3f16_45a2 }).times(of_int(false, data[4 * i + 1] as nat)),
    ).plus((Binary32 { bits: 0x3de9_78d5 }).times(of_int(false, data[4 * i + 2] as nat)))
}

/// The sum of the lumas of the first `n` pixels, from the first on.
pub open spec fn luma_sum(data: Seq<u8>, n: nat) -> Binary32
    decreases n,
{
    if n == 0 {
        Binary32 { bits: 0 }
    } else {
        luma_sum(data, (n - 1) as nat).plus(luma(data, n - 1))
    }
}

/// The mean luma of `n` pixels.
pub open spec fn luma_mean(data: Seq<u8>, n: nat) -> Binary32 {
    luma_sum(data, n).over(of_int(false, n))
}

/// How many of the first `n` pixels are not opaque.
pub open spec fn translucent_count(data: Seq<u8>, n: nat) -> nat
    decreases n,
{
    if n == 0 {
        0
    } else {
        translucent_count(data, (n - 1) as nat) + if data[4 * (n - 1) + 3] < 255 {
            1nat
        } else {
            0
        }
    }
}

/// How many of the first `n` pixels are darker than `mean`.
pub open spec fn dark_count(data: Seq<u8>, mean: Binary32, n: nat) -> nat
    decreases n,
{
    if n == 0 {
        0
    } else {
        dark_count(data, mean, (n - 1) as nat) + if luma(data, n - 1).less(mean) {
            1nat
        } else {
            0
        }
    }
}

/// Whether alpha tells the subject from the ground: it does where at least one pixel
/// in a hundred is not opaque.
pub open spec fn alpha_tells(data: Seq<u8>, n: nat) -> bool {
    translucent_count(data, n) * 100 >= n
}

/// Whether pixel `i` of `n` belongs to the subject: by its alpha where that tells,
/// else by its luma against the mean, the rarer side being the subject.
pub open spec fn in_subject(data: Seq<u8>, n: nat, i: int) -> bool {
    let mean = luma_mean(data, n);
    if alpha_tells(data, n) {
        data[4 * i + 3] >= 128
    } else if 2 * dark_count(data, mean, n) < n {
        luma(data, i).less(mean)
    } else {
        mean.at_most(luma(data, i))
    }
}

/// How many of the first `k` pixels of `n` belong to the subject.
pub open spec fn subject_count(data: Seq<u8>, n: nat, k: nat) -> nat
    decreases k,
{
    if k == 0 {
        0
    } else {
        subject_count(data, n, (k - 1) as nat) + if in_subject(data, n, k - 1) {
            1nat
        } else {
            0
        }
    }
}

/// The mask of a picture of `w` by `h` pixels at `(dx, dy)` on a field: 255 where its
/// subject is, 0 elsewhere.
pub open spec fn subject_mask(
    data: Seq<u8>,
    w: nat,
    h: nat,
    dx: nat,
    dy: nat,
    side: nat,
) -> Seq<u8> {
    Seq::new(
        side * side,
        |c: int|
            {
                let x = c % (side as int) - dx;
                let y = c / (side as int) - dy;
                if 0 <= x < w && 0 <= y < h && in_subject(data, w * h, y * w + x) {
                    255u8
                } else {
                    0u8
                }
            },
    )
}

/// What a picture placed on a field becomes: nothing where it has no contrast.
pub open spec fn silhouette(
    data: Seq<u8>,
    w: nat,
    h: nat,
    dx: nat,
    dy: nat,
    size: u32,
) -> Option<Seq<u8>> {
    let count = subject_count(data, w * h, w * h);
    if count == 0 || count == w * h {
        None
    } else {
        Some(sdf_of(subject_mask(data, w, h, dx, dy, field_side(size)), size))
    }
}

fn pixel_luma(data: &Vec<u8>, i: usize) -> (r: Binary32)
    requires
        4 * i + 3 < data@.len(),
    ensures
        r == luma(data@, i as int),
{
    let len: usize = data.len();
    let j: usize = 4 * i;
    (Binary32 { bits: 0x3e99_1687 }).mul(Binary32::from_u64(data[j] as u64)).add(
        (Binary32 { bits: 0x3f16_45a2 }).mul(Binary32::from_u64(data[j + 1] as u64)),
    ).add((Binary32 { bits: 0x3de9_78d5 }).mul(Binary32::from_u64(data[j + 2] as u64)))
}

/// Which pixels belong to the subject, and how many.
fn find_subject(data: &Vec<u8>, n: usize) -> (r: (Vec<bool>, usize))
    requires
        data@.len() == 4 * n,
    ensures
        r.0@ == Seq::new(n as nat, |i: int| in_subject(data@, n as nat, i)),
        r.1 == subject_count(data@, n as nat, n as nat),
{
    let len: usize = data.len();
    let mut translucent: u128 = 0;
    let mut i: usize = 0;
    while i < n
        invariant
            i <= n,
            len == data@.len(),
            len == 4 * n,
            translucent == translucent_count(data@, i as nat),
            translucent <= i,
        decreases n - i,
    {
        if data[4 * i + 3] < 255 {
            translucent = translucent + 1;
        }
        i = i + 1;
    }
    let by_alpha: bool = translucent * 100 >= n as u128;
    let mut subject: Vec<bool> = Vec::new();
    let mut count: usize = 0;
    if by_alpha {
        let mut i: usize = 0;
        while i < n
            invariant
                i <= n,
                len == data@.len(),
                len == 4 * n,
                alpha_tells(data@, n as nat),
                subject@ == Seq::new(i as nat, |j: int| in_subject(data@, n as nat, j)),
                count == subject_count(data@, n as nat, i as nat),
                count <= i,
            decreases n - i,
        {
            let on: bool = data[4 * i + 3] >= 128;
            subject.push(on);
            if on {
                count = count + 1;
            }
            i = i + 1;
            proof {
                assert(subject@ =~= Seq::new(i as nat, |j: int| in_subject(data@, n as nat, j)));
            }
        }
        return (subject, count);
    }
    let mut lumas: Vec<Binary32> = Vec::new();
    let mut sum = Binary32 { bits: 0 };
    let mut i: usize = 0;
    while i < n
        invariant
            i <= n,
            len == data@.len(),
            len == 4 * n,
            lumas@ == Seq::new(i as nat, |j: int| luma(data@, j)),
            sum == luma_sum(data@, i as nat),
        decreases n - i,
    {
        let y = pixel_luma(data, i);
        lumas.push(y);
        sum = sum.add(y);
        i = i + 1;
        proof {
            assert(lumas@ =~= Seq::new(i as nat, |j: int| luma(data@, j)));
        }
    }
    let mean = sum.div(Binary32::from_u64(n as u64));
    let mut dark: u128 = 0;
    let mut i: usize = 0;
    while i < n
        invariant
            i <= n,
            lumas@ == Seq::new(n as nat, |j: int| luma(data@, j)),
            dark == dark_count(data@, mean, i as nat),
            dark <= i,
        decreases n - i,
    {
        if lumas[i].lt(mean) {
            dark = dark + 1;
        }
        i = i + 1;
    }
    let subject_is_dark: bool = 2 * dark < n as u128;
    let mut i: usize = 0;
    while i < n
        invariant
            i <= n,
            lumas@ == Seq::new(n as nat, |j: int| luma(data@, j)),
            mean == luma_mean(data@, n as nat),
            !alpha_tells(data@, n as nat),
            subject_is_dark == (2 * dark_count(data@, mean, n as nat) < n),
            subject@ == Seq::new(i as nat, |j: int| in_subject(data@, n as nat, j)),
            count == subject_count(data@, n as nat, i as nat),
            count <= i,
        decreases n - i,
    {
        let on: bool = if subject_is_dark {
            lumas[i].lt(mean)
        } else {
            mean.le(lumas[i])
        };
        subject.push(on);
        if on {
            count = count + 1;
        }
        i = i + 1;
        proof {
            assert(subject@ =~= Seq::new(i as nat, |j: int| in_subject(data@, n as nat, j)));
        }
    }
    (subject, count)
}

/// Turns a picture that lies at `(dx, dy)` on a field into a distance field: its
/// subject by alpha or luma, and `None` where it has no contrast.
pub fn silhouette_to_sdf(img: &RgbaPicture, dx: u32, dy: u32, size: u32) -> (r: Option<Vec<u8>>)
    requires
        img.wf(),
        dx + img.width <= field_side(size),
        dy + img.height <= field_side(size),
        field_side(size) * field_side(size) <= usize::MAX,
    ensures
        match r {
            Some(field) => silhouette(
                img.data@,
                img.width as nat,
                img.height as nat,
                dx as nat,
                dy as nat,
                size,
            ) == Some(field@),
            None => silhouette(
                img.data@,
                img.width as nat,
                img.height as nat,
                dx as nat,
                dy as nat,
                size,
            ) is None,
        },
{
    let side: usize = if size == 0 {
        1
    } else {
        size as usize
    };
    let w: usize = img.width as usize;
    let h: usize = img.height as usize;
    let total: usize = img.data.len();
    proof {
        assert(4 * img.width * img.height == 4 * (img.width * img.height)) by (nonlinear_arith);
        assert(w * h <= total) by (nonlinear_arith)
            requires
                total == 4 * (w * h),
                w >= 0,
                h >= 0,
        ;
    }
    let n: usize = w * h;
    let (subject, count) = find_subject(&img.data, n);
    if count == 0 || count == n {
        return None;
    }
    let cells: usize = side * side;
    let mut mask: Vec<u8> = Vec::new();
    let ghost whole = subject_mask(
        img.data@,
        w as nat,
        h as nat,
        dx as nat,
        dy as nat,
        side as nat,
    );
    let mut c: usize = 0;
    while c < cells
        invariant
            c <= cells,
            cells == side * side,
            side > 0,
            side <= 0xffff_ffff,
            n == w * h,
            dx + w <= side,
            dy + h <= side,
            subject@ == Seq::new(n as nat, |i: int| in_subject(img.data@, n as nat, i)),
            whole == subject_mask(
                img.data@,
                w as nat,
                h as nat,
                dx as nat,
                dy as nat,
                side as nat,
            ),
            mask@ == whole.take(c as int),
        decreases cells - c,
    {
        let x: usize = c % side;
        let y: usize = c / side;
        proof {
            lemma_cell_of(c as int, side as int);
        }
        let left: usize = dx as usize;
        let top: usize = dy as usize;
        let mut on: bool = false;
        if left <= x && x < left + w && top <= y && y < top + h {
            let px: usize = x - left;
            let py: usize = y - top;
            proof {
                assert(py * w + px < w * h) by (nonlinear_arith)
                    requires
                        0 <= px < w,
                        0 <= py < h,
                ;
                assert(0 <= py * w) by (nonlinear_arith)
                    requires
                        0 <= py,
                        0 <= w,
                ;
            }
            on = subject[py * w + px];
        }
        mask.push(
            if on {
                255
            } else {
                0
            },
        );
        proof {
            assert(mask@ =~= whole.take(c + 1));
        }
        c = c + 1;
    }
    proof {
        assert(mask@ =~= whole);
    }
    Some(mask_to_sdf(mask.as_slice(), size))
}

/// One side as it counts for the scale: at least a pixel.
pub open spec fn counted_side(side: u32) -> u32 {
    if side == 0 {
        1
    } else {
        side
    }
}

/// The scale at which a picture fits a field.
pub open spec fn contain_scale(width: u32, height: u32, size: u32) -> Binary32 {
    of_int(false, field_side(size)).over(of_int(false, counted_side(width) as nat)).smaller(
        of_int(false, field_side(size)).over(of_int(false, counted_side(height) as nat)),
    )
}

/// A side of the picture on the field.
pub open spec fn contained_side(side: u32, scale: Binary32) -> u32 {
    let n = scaled_side(counted_side(side), scale);
    if n == 0 {
        1
    } else {
        n as u32
    }
}

/// The margin that centres a side on the field, rounded up.
pub open spec fn margin(side: nat, n: u32) -> nat {
    ((side - n + 1) / 2) as nat
}

/// What [`image_rgba_to_sdf`] returns.
pub open spec fn image_sdf(data: Seq<u8>, width: u32, height: u32, size: u32) -> Option<Seq<u8>> {
    let side = field_side(size);
    let scale = contain_scale(width, height, size);
    let w = contained_side(width, scale);
    let h = contained_side(height, scale);
    silhouette(
        resized_rgba(data, width, height, w, h),
        w as nat,
        h as nat,
        margin(side, w),
        margin(side, h),
        size,
    )
}

/// A picture that is scaled to fit a field does.
pub proof fn lemma_contained_fits(width: u32, height: u32, size: u32)
    requires
        size <= 0x10_0000,
    ensures
        scaled_side(counted_side(width), contain_scale(width, height, size)) <= field_side(size),
        scaled_side(counted_side(height), contain_scale(width, height, size)) <= field_side(size),
        0 < contained_side(width, contain_scale(width, height, size)) <= field_side(size),
        0 < contained_side(height, contain_scale(width, height, size)) <= field_side(size),
{
    let side = field_side(size) as u32;
    let (w, h) = (counted_side(width), counted_side(height));
    lemma_scale_close(w, side);
    lemma_scale_close(h, side);
    let scale = contain_scale(width, height, size);
    lemma_scaled_side_fits(w, w, side, scale);
    lemma_scaled_side_fits(h, h, side, scale);
}

/// Turns the silhouette of a picture into a distance field: the picture is scaled to
/// fit the field and centred on it.
pub fn image_rgba_to_sdf(rgba: &RgbaPicture, size: u32) -> (r: Option<Vec<u8>>)
    requires
        rgba.wf(),
        size <= 0x10_0000,
        field_side(size) * field_side(size) <= usize::MAX,
    ensures
        match r {
            Some(field) => image_sdf(rgba.data@, rgba.width, rgba.height, size) == Some(field@),
            None => image_sdf(rgba.data@, rgba.width, rgba.height, size) is None,
        },
{
    let side: u32 = if size == 0 {
        1
    } else {
        size
    };
    let bw: u32 = if rgba.width == 0 {
        1
    } else {
        rgba.width
    };
    let bh: u32 = if rgba.height == 0 {
        1
    } else {
        rgba.height
    };
    let target = Binary32::from_u64(side as u64);
    let scale = target.div(Binary32::from_u64(bw as u64)).min(
        target.div(Binary32::from_u64(bh as u64)),
    );
    proof {
        lemma_contained_fits(rgba.width, rgba.height, size);
    }
    let dw: u32 = scale_side(bw, scale);
    let dh: u32 = scale_side(bh, scale);
    let dw: u32 = if dw == 0 {
        1
    } else {
        dw
    };
    let dh: u32 = if dh == 0 {
        1
    } else {
        dh
    };
    let dx: u32 = (side - dw + 1) / 2;
    let dy: u32 = (side - dh + 1) / 2;
    let resized = resize_rgba(rgba, dw, dh);
    silhouette_to_sdf(&resized, dx, dy, size)
}

/// The frame of a glyph, in font units.
#[derive(Clone, Copy, Debug, PartialEq, Eq, Structural)]
pub struct GlyphBox {
    pub x_min: i16,
    pub y_min: i16,
    pub x_max: i16,
    pub y_max: i16,
}

/// A point of an outline.
#[derive(Clone, Copy, Debug, PartialEq, Eq, Structural)]
pub struct OutlinePoint {
    pub x: Binary32,
    pub y: Binary32,
}

/// One step of an outline.
#[derive(Clone, Copy, Debug, PartialEq, Eq, Structural)]
pub enum OutlineStep {
    MoveTo(OutlinePoint),
    LineTo(OutlinePoint),
    QuadTo(OutlinePoint, OutlinePoint),
    CurveTo(OutlinePoint, OutlinePoint, OutlinePoint),
    Close,
}

/// What [`find_glyph`] returns.
pub uninterp spec fn font_glyph(font: Seq<u8>, ch: char) -> Option<u16>;

/// What [`find_glyph_box`] returns.
pub uninterp spec fn font_glyph_box(font: Seq<u8>, glyph: u16) -> Option<GlyphBox>;

/// The bytes, width and height of what [`rasterize`] returns.
pub uninterp spec fn raster(path: Seq<OutlineStep>, side: u32) -> (Seq<u8>, u32, u32);

/// `ttf_parser::Face::parse` on the first face of a font, then `glyph_index`: the glyph
/// of a character, none where the font cannot be read or lacks it. Nothing is claimed
/// but that font and character determine it.
#[verifier::external_body]
fn find_glyph(font: &[u8], ch: char) -> (r: Option<u16>)
    ensures
        r == font_glyph(font@, ch),
{
    let face = ttf_parser::Face::parse(font, 0).ok()?;
    face.glyph_index(ch).map(|g| g.0)
}

/// `ttf_parser::Face::parse` on the first face of a font, then `glyph_bounding_box`: the
/// frame of a glyph, none where it has no outline. Nothing is claimed but that font and
/// glyph determine it.
#[verifier::external_body]
fn find_glyph_box(font: &[u8], glyph: u16) -> (r: Option<GlyphBox>)
    ensures
        r == font_glyph_box(font@, glyph),
{
    let face = ttf_parser::Face::parse(font, 0).ok()?;
    let b = face.glyph_bounding_box(ttf_parser::GlyphId(glyph))?;
    Some(GlyphBox { x_min: b.x_min, y_min: b.y_min, x_max: b.x_max, y_max: b.y_max })
}

/// `zeno::Mask` with an explicit size and the default non-zero fill, rendered: coverage
/// bytes and their width and height, determined by path and size. The rasteriser counts in
/// 24.8 fixed point on 32 bits: it overflows on a line whose sides add up to `2^15` pixels,
/// and on the area of one pixel where some 5460 curves in a row stay inside of it; the size
/// of the buffer overflows beyond `2^16 - 1` pixels a side. The bounds leave that out: a
/// stretch of steps inside one pixel belongs to at most two places, each of at most 2700
/// steps.
#[verifier::external_body]
fn rasterize(path: &Vec<OutlineStep>, side: u32) -> (r: (Vec<u8>, u32, u32))
    requires
        0 < side <= 0xffff,
        path_short(path@),
        path_moves(path@),
    ensures
        r.0@ == raster(path@, side).0,
        r.1 == raster(path@, side).1,
        r.2 == raster(path@, side).2,
{
    let p = |q: &OutlinePoint| Point::new(bytemuck::cast(q.x.bits), bytemuck::cast(q.y.bits));
    let commands: Vec<Command> = path.iter().map(
        |step|
            match step {
                OutlineStep::MoveTo(a) => Command::MoveTo(p(a)),
                OutlineStep::LineTo(a) => Command::LineTo(p(a)),
                OutlineStep::QuadTo(a, b) => Command::QuadTo(p(a), p(b)),
                OutlineStep::CurveTo(a, b, c) => Command::CurveTo(p(a), p(b), p(c)),
                OutlineStep::Close => Command::Close,
            },
    ).collect();
    let (coverage, placement) = Mask::new(&commands).size(side, side).render();
    (coverage, placement.width, placement.height)
}

/// Whether a font has a glyph for a character.
pub fn has_glyph(font: &[u8], ch: char) -> (r: bool)
    ensures
        r == font_glyph(font@, ch) is Some,
{
    find_glyph(font, ch).is_some()
}

/// The frame of a character's glyph in a font.
pub open spec fn char_box(font: Seq<u8>, ch: char) -> Option<GlyphBox> {
    match font_glyph(font, ch) {
        Some(glyph) => font_glyph_box(font, glyph),
        None => None,
    }
}

/// The frame of a character's glyph in a font, none where there is nothing to draw.
pub fn glyph_frame(font: &[u8], ch: char) -> (r: Option<GlyphBox>)
    ensures
        r == char_box(font@, ch),
{
    match find_glyph(font, ch) {
        Some(glyph) => find_glyph_box(font, glyph),
        None => None,
    }
}

/// `n` as a number.
pub open spec fn number(n: int) -> Binary32 {
    of_int(n < 0, above(n) + above(-n))
}

impl GlyphBox {
    pub open spec fn width(self) -> int {
        self.x_max - self.x_min
    }

    pub open spec fn height(self) -> int {
        self.y_max - self.y_min
    }

    /// Pixels for each font unit, so that the longer side spans the diameter.
    pub open spec fn scale(self, radius: Binary32) -> Binary32 {
        (Binary32 { bits: 0x4000_0000 }).times(radius).over(
            number(self.width()).larger(number(self.height())),
        )
    }

    /// The middle of the frame.
    pub open spec fn middle(low: i16, high: i16) -> Binary32 {
        number(low as int).plus(number(high as int)).times(Binary32 { bits: 0x3f00_0000 })
    }
}

/// A point in font units, with `y` upwards, as a pixel, with `y` downwards: the middle
/// of the frame comes to the centre.
pub open spec fn pixel_point(
    frame: GlyphBox,
    center: OutlinePoint,
    radius: Binary32,
    p: OutlinePoint,
) -> OutlinePoint {
    let scale = frame.scale(radius);
    OutlinePoint {
        x: center.x.plus(
            p.x.plus(GlyphBox::middle(frame.x_min, frame.x_max).opposite()).times(scale),
        ),
        y: center.y.minus(
            p.y.plus(GlyphBox::middle(frame.y_min, frame.y_max).opposite()).times(scale),
        ),
    }
}

pub open spec fn pixel_step(
    frame: GlyphBox,
    center: OutlinePoint,
    radius: Binary32,
    step: OutlineStep,
) -> OutlineStep {
    match step {
        OutlineStep::MoveTo(a) => OutlineStep::MoveTo(pixel_point(frame, center, radius, a)),
        OutlineStep::LineTo(a) => OutlineStep::LineTo(pixel_point(frame, center, radius, a)),
        OutlineStep::QuadTo(a, b) => OutlineStep::QuadTo(
            pixel_point(frame, center, radius, a),
            pixel_point(frame, center, radius, b),
        ),
        OutlineStep::CurveTo(a, b, c) => OutlineStep::CurveTo(
            pixel_point(frame, center, radius, a),
            pixel_point(frame, center, radius, b),
            pixel_point(frame, center, radius, c),
        ),
        OutlineStep::Close => OutlineStep::Close,
    }
}

/// The path of a glyph: none for a radius that is not positive, without a frame, with a
/// frame without area and without an outline.
pub open spec fn glyph_path(
    frame: Option<GlyphBox>,
    steps: Seq<OutlineStep>,
    center: OutlinePoint,
    radius: Binary32,
) -> Option<Seq<OutlineStep>> {
    if radius.at_most(Binary32 { bits: 0 }) {
        None
    } else {
        match frame {
            None => None,
            Some(f) => if f.width() <= 0 || f.height() <= 0 || steps.len() == 0 {
                None
            } else {
                Some(Seq::new(steps.len(), |i: int| pixel_step(f, center, radius, steps[i])))
            },
        }
    }
}

/// Moves points from font units to pixels.
struct GlyphPathBuilder {
    scale: Binary32,
    offset_x: Binary32,
    offset_y: Binary32,
    center: OutlinePoint,
}

impl GlyphPathBuilder {
    spec fn fits(self, frame: GlyphBox, radius: Binary32) -> bool {
        &&& self.scale == frame.scale(radius)
        &&& self.offset_x == GlyphBox::middle(frame.x_min, frame.x_max).opposite()
        &&& self.offset_y == GlyphBox::middle(frame.y_min, frame.y_max).opposite()
    }

    fn map(
        &self,
        p: OutlinePoint,
        Ghost(frame): Ghost<GlyphBox>,
        Ghost(radius): Ghost<Binary32>,
    ) -> (r: OutlinePoint)
        requires
            self.fits(frame, radius),
        ensures
            r == pixel_point(frame, self.center, radius, p),
    {
        OutlinePoint {
            x: self.center.x.add(p.x.add(self.offset_x).mul(self.scale)),
            y: self.center.y.sub(p.y.add(self.offset_y).mul(self.scale)),
        }
    }
}

fn middle_of(low: i16, high: i16) -> (r: Binary32)
    ensures
        r == GlyphBox::middle(low, high),
{
    Binary32::from_i64(low as i64).add(Binary32::from_i64(high as i64)).mul(
        Binary32 { bits: 0x3f00_0000 },
    )
}

/// Places the outline of a glyph, given in font units, round a centre so that its frame
/// fits the square of twice the radius.
pub fn build_glyph_path(
    frame: Option<GlyphBox>,
    steps: &Vec<OutlineStep>,
    center: OutlinePoint,
    radius: Binary32,
) -> (r: Option<Vec<OutlineStep>>)
    ensures
        match r {
            Some(path) => glyph_path(frame, steps@, center, radius) == Some(path@),
            None => glyph_path(frame, steps@, center, radius) is None,
        },
{
    if radius.le(Binary32 { bits: 0 }) {
        return None;
    }
    let f: GlyphBox = match frame {
        Some(f) => f,
        None => {
            return None;
        },
    };
    let w: i64 = f.x_max as i64 - f.x_min as i64;
    let h: i64 = f.y_max as i64 - f.y_min as i64;
    if w <= 0 || h <= 0 || steps.len() == 0 {
        return None;
    }
    let builder = GlyphPathBuilder {
        scale: (Binary32 { bits: 0x4000_0000 }).mul(radius).div(
            Binary32::from_i64(w).max(Binary32::from_i64(h)),
        ),
        offset_x: middle_of(f.x_min, f.x_max).neg(),
        offset_y: middle_of(f.y_min, f.y_max).neg(),
        center,
    };
    let mut path: Vec<OutlineStep> = Vec::new();
    let mut i: usize = 0;
    while i < steps.len()
        invariant
            i <= steps@.len(),
            builder.fits(f, radius),
            builder.center == center,
            path@ == Seq::new(i as nat, |j: int| pixel_step(f, center, radius, steps@[j])),
        decreases steps.len() - i,
    {
        let step = match steps[i] {
            OutlineStep::MoveTo(a) => OutlineStep::MoveTo(
                builder.map(a, Ghost(f), Ghost(radius)),
            ),
            OutlineStep::LineTo(a) => OutlineStep::LineTo(
                builder.map(a, Ghost(f), Ghost(radius)),
            ),
            OutlineStep::QuadTo(a, b) => OutlineStep::QuadTo(
                builder.map(a, Ghost(f), Ghost(radius)),
                builder.map(b, Ghost(f), Ghost(radius)),
            ),
            OutlineStep::CurveTo(a, b, c) => OutlineStep::CurveTo(
                builder.map(a, Ghost(f), Ghost(radius)),
                builder.map(b, Ghost(f), Ghost(radius)),
                builder.map(c, Ghost(f), Ghost(radius)),
            ),
            OutlineStep::Close => OutlineStep::Close,
        };
        path.push(step);
        i = i + 1;
        proof {
            assert(path@ =~= Seq::new(
                i as nat,
                |j: int| pixel_step(f, center, radius, steps@[j]),
            ));
        }
    }
    Some(path)
}

/// Within `2^17` pixels of the origin.
pub open spec fn near(p: OutlinePoint) -> bool {
    let limit = Binary32 { bits: 0x4800_0000 };
    p.x.absolute().at_most(limit) && p.y.absolute().at_most(limit)
}

/// How far two points are apart, along the sides.
pub open spec fn side_sum(p: OutlinePoint, q: OutlinePoint) -> Binary32 {
    p.x.minus(q.x).absolute().plus(p.y.minus(q.y).absolute())
}

/// A line that can be drawn: its sides add up to less than `2^15` pixels.
pub open spec fn short(p: OutlinePoint, q: OutlinePoint) -> bool {
    side_sum(p, q).at_most(Binary32 { bits: 0x46ff_f000 })
}

/// Half as short, so that what lies between several points can be drawn.
pub open spec fn tight(p: OutlinePoint, q: OutlinePoint) -> bool {
    side_sum(p, q).at_most(Binary32 { bits: 0x467f_f000 })
}

/// Where the contour started and where the pen is, after the first `n` steps.
pub open spec fn pen(path: Seq<OutlineStep>, n: nat) -> (OutlinePoint, OutlinePoint)
    decreases n,
{
    if n == 0 {
        let origin = OutlinePoint { x: Binary32 { bits: 0 }, y: Binary32 { bits: 0 } };
        (origin, origin)
    } else {
        let (start, at) = pen(path, (n - 1) as nat);
        match path[n - 1] {
            OutlineStep::MoveTo(a) => (a, a),
            OutlineStep::LineTo(a) => (start, a),
            OutlineStep::QuadTo(_, b) => (start, b),
            OutlineStep::CurveTo(_, _, c) => (start, c),
            OutlineStep::Close => (start, start),
        }
    }
}

/// Whether a step can be drawn from where the pen is. A new contour closes the one before.
#[verifier::opaque]
pub open spec fn step_short(start: OutlinePoint, at: OutlinePoint, step: OutlineStep) -> bool {
    match step {
        OutlineStep::MoveTo(a) => near(a) && short(at, start),
        OutlineStep::LineTo(a) => near(a) && short(at, a),
        OutlineStep::QuadTo(a, b) => {
            near(a) && near(b) && tight(at, a) && tight(at, b) && tight(a, b)
        },
        OutlineStep::CurveTo(a, b, c) => {
            &&& near(a) && near(b) && near(c)
            &&& tight(at, a) && tight(at, b) && tight(at, c)
            &&& tight(a, b) && tight(a, c) && tight(b, c)
        },
        OutlineStep::Close => short(at, start),
    }
}

/// Whether every line and every curve of a path can be drawn, what closes it too.
pub open spec fn path_short(path: Seq<OutlineStep>) -> bool {
    &&& forall|i: int|
        0 <= i < path.len() ==> step_short(
            pen(path, i as nat).0,
            pen(path, i as nat).1,
            #[trigger] path[i],
        )
    &&& short(pen(path, path.len()).1, pen(path, path.len()).0)
}

/// Where a step ends; none where it closes.
pub open spec fn step_end(step: OutlineStep) -> Option<OutlinePoint> {
    match step {
        OutlineStep::MoveTo(a) => Some(a),
        OutlineStep::LineTo(a) => Some(a),
        OutlineStep::QuadTo(_, b) => Some(b),
        OutlineStep::CurveTo(_, _, c) => Some(c),
        OutlineStep::Close => None,
    }
}

/// At least two pixels apart, in one direction or the other.
pub open spec fn apart(p: OutlinePoint, q: OutlinePoint) -> bool {
    let two = Binary32 { bits: 0x4000_0000 };
    two.at_most(p.x.minus(q.x).absolute()) || two.at_most(p.y.minus(q.y).absolute())
}

/// Where a path was when it last moved apart, after its first `n` steps, and how many steps
/// it has taken there.
pub open spec fn dwelling(path: Seq<OutlineStep>, n: nat) -> (Option<OutlinePoint>, nat)
    decreases n,
{
    if n == 0 {
        (None, 0)
    } else {
        let (place, count) = dwelling(path, (n - 1) as nat);
        match (step_end(path[n - 1]), place) {
            (Some(p), Some(q)) => if apart(p, q) {
                (Some(p), 1)
            } else {
                (place, count + 1)
            },
            (Some(p), None) => (Some(p), count + 1),
            (None, _) => (place, count + 1),
        }
    }
}

/// Whether a path takes at most 2700 steps in a row about one place.
pub open spec fn path_moves(path: Seq<OutlineStep>) -> bool {
    forall|n: nat| n <= path.len() ==> (#[trigger] dwelling(path, n)).1 <= 2700
}

fn is_near(p: OutlinePoint) -> (r: bool)
    ensures
        r == near(p),
{
    let limit = Binary32 { bits: 0x4800_0000 };
    p.x.abs().le(limit) && p.y.abs().le(limit)
}

fn add_sides(p: OutlinePoint, q: OutlinePoint) -> (r: Binary32)
    ensures
        r == side_sum(p, q),
{
    p.x.sub(q.x).abs().add(p.y.sub(q.y).abs())
}

fn is_short(p: OutlinePoint, q: OutlinePoint) -> (r: bool)
    ensures
        r == short(p, q),
{
    add_sides(p, q).le(Binary32 { bits: 0x46ff_f000 })
}

fn is_tight(p: OutlinePoint, q: OutlinePoint) -> (r: bool)
    ensures
        r == tight(p, q),
{
    add_sides(p, q).le(Binary32 { bits: 0x467f_f000 })
}

fn is_apart(p: OutlinePoint, q: OutlinePoint) -> (r: bool)
    ensures
        r == apart(p, q),
{
    let two = Binary32 { bits: 0x4000_0000 };
    two.le(p.x.sub(q.x).abs()) || two.le(p.y.sub(q.y).abs())
}

/// Whether a step can be drawn from where the pen is, and where the contour started and the
/// pen is then.
fn draw_step(start: OutlinePoint, at: OutlinePoint, step: OutlineStep) -> (r: (
    bool,
    OutlinePoint,
    OutlinePoint,
))
    ensures
        r.0 == step_short(start, at, step),
        (r.1, r.2) == (match step {
            OutlineStep::MoveTo(a) => (a, a),
            OutlineStep::LineTo(a) => (start, a),
            OutlineStep::QuadTo(_, b) => (start, b),
            OutlineStep::CurveTo(_, _, c) => (start, c),
            OutlineStep::Close => (start, start),
        }),
{
    proof {
        reveal(step_short);
    }
    match step {
        OutlineStep::MoveTo(a) => (is_near(a) && is_short(at, start), a, a),
        OutlineStep::LineTo(a) => (is_near(a) && is_short(at, a), start, a),
        OutlineStep::QuadTo(a, b) => {
            let ok: bool = is_near(a) && is_near(b) && is_tight(at, a) && is_tight(at, b)
                && is_tight(a, b);
            (ok, start, b)
        },
        OutlineStep::CurveTo(a, b, c) => {
            let ok: bool = is_near(a) && is_near(b) && is_near(c) && is_tight(at, a) && is_tight(
                at,
                b,
            ) && is_tight(at, c) && is_tight(a, b) && is_tight(a, c) && is_tight(b, c);
            (ok, start, c)
        },
        OutlineStep::Close => (is_short(at, start), start, start),
    }
}

/// Whether every line and every curve of a path can be drawn.
fn stays_short(path: &Vec<OutlineStep>) -> (r: bool)
    ensures
        r == path_short(path@),
{
    let mut start = OutlinePoint { x: Binary32 { bits: 0 }, y: Binary32 { bits: 0 } };
    let mut at = start;
    let mut i: usize = 0;
    while i < path.len()
        invariant
            i <= path@.len(),
            pen(path@, i as nat) == (start, at),
            forall|j: int|
                0 <= j < i ==> step_short(
                    pen(path@, j as nat).0,
                    pen(path@, j as nat).1,
                    #[trigger] path@[j],
                ),
        decreases path.len() - i,
    {
        let (ok, next_start, next_at) = draw_step(start, at, path[i]);
        if !ok {
            assert(!step_short(start, at, path@[i as int]));
            return false;
        }
        start = next_start;
        at = next_at;
        i = i + 1;
        assert(pen(path@, i as nat) == (start, at));
    }
    is_short(at, start)
}

/// Whether a path takes at most 2700 steps in a row about one place.
fn keeps_moving(path: &Vec<OutlineStep>) -> (r: bool)
    ensures
        r == path_moves(path@),
{
    let mut place: Option<OutlinePoint> = None;
    let mut count: usize = 0;
    let mut i: usize = 0;
    while i < path.len()
        invariant
            i <= path@.len(),
            count <= 2700,
            dwelling(path@, i as nat) == (place, count as nat),
            forall|n: nat| n <= i ==> (#[trigger] dwelling(path@, n)).1 <= 2700,
        decreases path.len() - i,
    {
        let end: Option<OutlinePoint> = match path[i] {
            OutlineStep::MoveTo(a) => Some(a),
            OutlineStep::LineTo(a) => Some(a),
            OutlineStep::QuadTo(_, b) => Some(b),
            OutlineStep::CurveTo(_, _, c) => Some(c),
            OutlineStep::Close => None,
        };
        match (end, place) {
            (Some(p), Some(q)) => {
                if is_apart(p, q) {
                    place = Some(p);
                    count = 1;
                } else {
                    count = count + 1;
                }
            },
            (Some(p), None) => {
                place = Some(p);
                count = count + 1;
            },
            (None, _) => {
                count = count + 1;
            },
        }
        i = i + 1;
        assert(dwelling(path@, i as nat) == (place, count as nat));
        if count > 2700 {
            return false;
        }
    }
    true
}

/// Whether a path can be filled.
pub fn path_in_reach(path: &Vec<OutlineStep>) -> (r: bool)
    ensures
        r == (path_short(path@) && path_moves(path@)),
{
    stays_short(path) && keeps_moving(path)
}

/// The middle of a field.
pub open spec fn field_center(size: u32) -> OutlinePoint {
    let c = of_int(false, field_side(size)).times(Binary32 { bits: 0x3f00_0000 });
    OutlinePoint { x: c, y: c }
}

/// The radius of a glyph on a field: 45 percent of the side, over the root of 2, so that
/// it stays on the field when it turns.
pub open spec fn field_radius(size: u32) -> Binary32 {
    of_int(false, field_side(size)).times(Binary32 { bits: 0x3ee6_6666 }).times(
        Binary32 { bits: GLYPH_SDF_CONTENT_SPAN_PUB },
    )
}

/// The path of a glyph on a field.
pub open spec fn field_path(frame: Option<GlyphBox>, steps: Seq<OutlineStep>, size: u32) -> Option<
    Seq<OutlineStep>,
> {
    glyph_path(frame, steps, field_center(size), field_radius(size))
}

/// Whether a glyph can be filled on a field: nothing to fill, or a path and a field
/// within the reach of the rasteriser.
pub open spec fn fillable(frame: Option<GlyphBox>, steps: Seq<OutlineStep>, size: u32) -> bool {
    field_path(frame, steps, size) matches Some(path) ==> {
        &&& size <= 0xffff
        &&& path_short(path)
        &&& path_moves(path)
    }
}

/// The coverage of a glyph on a field: zeros where there is nothing to fill, or where
/// the rasteriser gave another size than it was asked for.
pub open spec fn glyph_mask(frame: Option<GlyphBox>, steps: Seq<OutlineStep>, size: u32) -> Seq<
    u8,
> {
    let side = field_side(size);
    let zeros = Seq::new(side * side, |i: int| 0u8);
    match field_path(frame, steps, size) {
        None => zeros,
        Some(path) => {
            let (bytes, w, h) = raster(path, side as u32);
            if w == side && h == side && bytes.len() == side * side {
                bytes
            } else {
                zeros
            }
        },
    }
}

/// Fills a glyph on a field.
fn render_glyph_binary_mask(frame: Option<GlyphBox>, steps: &Vec<OutlineStep>, size: u32) -> (r: Vec<
    u8,
>)
    requires
        fillable(frame, steps@, size),
        field_side(size) * field_side(size) <= usize::MAX,
    ensures
        r@ == glyph_mask(frame, steps@, size),
        r@.len() == field_side(size) * field_side(size),
{
    let side: u32 = if size == 0 {
        1
    } else {
        size
    };
    let n: usize = side as usize * side as usize;
    let number = Binary32::from_u64(side as u64);
    let c = number.mul(Binary32 { bits: 0x3f00_0000 });
    let radius = number.mul(Binary32 { bits: 0x3ee6_6666 }).mul(Binary32 { bits: GLYPH_SDF_CONTENT_SPAN_PUB });
    if let Some(path) = build_glyph_path(frame, steps, OutlinePoint { x: c, y: c }, radius) {
        let (bytes, w, h) = rasterize(&path, side);
        if w == side && h == side && bytes.len() == n {
            return bytes;
        }
    }
    let mut zeros: Vec<u8> = Vec::new();
    let mut i: usize = 0;
    while i < n
        invariant
            i <= n,
            zeros@ == Seq::new(i as nat, |j: int| 0u8),
        decreases n - i,
    {
        zeros.push(0);
        i = i + 1;
        proof {
            assert(zeros@ =~= Seq::new(i as nat, |j: int| 0u8));
        }
    }
    zeros
}

/// Whether a glyph can be filled on a field.
pub fn can_fill(frame: Option<GlyphBox>, steps: &Vec<OutlineStep>, size: u32) -> (r: bool)
    ensures
        r == fillable(frame, steps@, size),
{
    let side: u32 = if size == 0 {
        1
    } else {
        size
    };
    let number = Binary32::from_u64(side as u64);
    let c = number.mul(Binary32 { bits: 0x3f00_0000 });
    let radius = number.mul(Binary32 { bits: 0x3ee6_6666 }).mul(Binary32 { bits: GLYPH_SDF_CONTENT_SPAN_PUB });
    match build_glyph_path(frame, steps, OutlinePoint { x: c, y: c }, radius) {
        Some(path) => size <= 0xffff && path_in_reach(&path),
        None => true,
    }
}

/// The distance field of a glyph with a given frame and outline.
pub fn outline_to_sdf(frame: Option<GlyphBox>, steps: &Vec<OutlineStep>, size: u32) -> (r: Vec<u8>)
    requires
        fillable(frame, steps@, size),
        field_side(size) * field_side(size) <= usize::MAX,
    ensures
        r@ == sdf_of(glyph_mask(frame, steps@, size), size),
{
    let mask = render_glyph_binary_mask(frame, steps, size);
    mask_to_sdf(mask.as_slice(), size)
}

/// The distance field of a character of a font, given the outline of its glyph in font
/// units. `None` where the outline lies beyond what can be filled.
pub fn render_glyph_sdf(font: &[u8], ch: char, steps: &Vec<OutlineStep>, size: u32) -> (r: Option<
    Vec<u8>,
>)
    requires
        field_side(size) * field_side(size) <= usize::MAX,
    ensures
        match r {
            Some(field) => fillable(char_box(font@, ch), steps@, size) && field@ == sdf_of(
                glyph_mask(char_box(font@, ch), steps@, size),
                size,
            ),
            None => !fillable(char_box(font@, ch), steps@, size),
        },
{
    let frame = glyph_frame(font, ch);
    if can_fill(frame, steps, size) {
        Some(outline_to_sdf(frame, steps, size))
    } else {
        None
    }
}

/// A character that the font lacks can always be filled, and leaves its field blank.
pub proof fn lemma_no_glyph_is_blank(font: Seq<u8>, ch: char, steps: Seq<OutlineStep>, size: u32)
    requires
        font_glyph(font, ch) is None,
    ensures
        fillable(char_box(font, ch), steps, size),
        sdf_of(glyph_mask(char_box(font, ch), steps, size), size) == Seq::new(
            field_side(size) * field_side(size),
            |i: int| 0u8,
        ),
{
}

/// The side of the field for an orb of a radius: a power of two that holds 2.25 radii,
/// within [`DEFAULT_GLYPH_SDF_SIZE`] and [`MAX_GLYPH_SDF_SIZE`].
pub open spec fn field_size_for(radius: Binary32) -> u32 {
    let wanted = wanted_size(radius);
    if radius.at_most(Binary32 { bits: 0 }) || wanted <= 256 {
        256
    } else if wanted <= 512 {
        512
    } else {
        1024
    }
}

/// How many pixels a radius asks for.
pub open spec fn wanted_size(radius: Binary32) -> nat {
    radius.times(Binary32 { bits: 0x4010_0000 }).ceiled().larger(
        Binary32 { bits: 0x4380_0000 },
    ).as_unsigned(0xffff_ffff)
}

/// The side of the field for an orb of a radius.
pub fn glyph_sdf_size_for_radius(radius: Binary32) -> (r: u32)
    requires
        radius.at_most(Binary32 { bits: 0 }) || wanted_size(radius) <= 0x8000_0000,
    ensures
        r == field_size_for(radius),
{
    if radius.le(Binary32 { bits: 0 }) {
        return DEFAULT_GLYPH_SDF_SIZE;
    }
    let wanted: u32 = radius.mul(Binary32 { bits: 0x4010_0000 }).ceil().max(
        Binary32 { bits: 0x4380_0000 },
    ).to_u32();
    if wanted <= 256 {
        256
    } else if wanted <= 512 {
        512
    } else {
        MAX_GLYPH_SDF_SIZE
    }
}

} // verus!
