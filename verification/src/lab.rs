//! How far two colours lie apart in the CIE L*a*b* space (D65, 2 degrees).

use crate::binary32::Binary32;
use crate::cluster::LabColor;
use crate::orb::{channel_number, channel_to_number};
use vstd::prelude::*;

verus! {

/// Whether `r` is an outcome of [`power`].
pub uninterp spec fn power_outcome(base: Binary32, exponent: Binary32, r: Binary32) -> bool;

/// Whether `r` is an outcome of [`cube_root`].
pub uninterp spec fn cube_root_outcome(x: Binary32, r: Binary32) -> bool;

/// The single precision `powf` of std. Its last digits rest on the machine, so the
/// contract claims no more than that what came back is an outcome for these numbers.
#[verifier::external_body]
fn power(base: Binary32, exponent: Binary32) -> (r: Binary32)
    ensures
        power_outcome(base, exponent, r),
{
    let v = zeno::Vector::new(bytemuck::cast(base.bits), bytemuck::cast(exponent.bits));
    Binary32 { bits: v.x.powf(v.y).to_bits() }
}

/// The single precision `cbrt` of std. Its last digits rest on the machine, so the
/// contract claims no more than that what came back is an outcome for this number.
#[verifier::external_body]
fn cube_root(x: Binary32) -> (r: Binary32)
    ensures
        cube_root_outcome(x, r),
{
    let v = zeno::Vector::new(bytemuck::cast(x.bits), bytemuck::cast(0u32));
    Binary32 { bits: v.x.cbrt().to_bits() }
}

/// Whether `r` is what a channel comes to without its gamma.
pub open spec fn linear_outcome(channel: u8, r: Binary32) -> bool {
    let c = channel_number(channel);
    if c.at_most(Binary32 { bits: 0x3d25_aee6 }) {
        r == c.over(Binary32 { bits: 0x414e_b852 })
    } else {
        power_outcome(
            c.plus(Binary32 { bits: 0x3d61_47ae }).over(Binary32 { bits: 0x3f87_0a3d }),
            Binary32 { bits: 0x4019_999a },
            r,
        )
    }
}

/// A channel without its gamma.
fn srgb_to_linear(channel: u8) -> (r: Binary32)
    ensures
        linear_outcome(channel, r),
{
    let c = channel_to_number(channel);
    if c.le(Binary32 { bits: 0x3d25_aee6 }) {
        c.div(Binary32 { bits: 0x414e_b852 })
    } else {
        power(
            c.add(Binary32 { bits: 0x3d61_47ae }).div(Binary32 { bits: 0x3f87_0a3d }),
            Binary32 { bits: 0x4019_999a },
        )
    }
}

/// The sum of three numbers with their weights.
pub open spec fn weighted(
    a: Binary32,
    b: Binary32,
    c: Binary32,
    wa: u32,
    wb: u32,
    wc: u32,
) -> Binary32 {
    a.times(Binary32 { bits: wa }).plus(b.times(Binary32 { bits: wb })).plus(
        c.times(Binary32 { bits: wc }),
    )
}

fn weigh(a: Binary32, b: Binary32, c: Binary32, wa: u32, wb: u32, wc: u32) -> (r: Binary32)
    ensures
        r == weighted(a, b, c, wa, wb, wc),
{
    a.mul(Binary32 { bits: wa }).add(b.mul(Binary32 { bits: wb })).add(
        c.mul(Binary32 { bits: wc }),
    )
}

/// The coordinates X, Y and Z of linear channels, each by that of the reference white.
pub open spec fn white_ratios(r: Binary32, g: Binary32, b: Binary32) -> (
    Binary32,
    Binary32,
    Binary32,
) {
    (
        weighted(r, g, b, 0x3ed3_2d7c, 0x3eb7_1437, 0x3e38_c49c).over(
            Binary32 { bits: 0x3f73_5200 },
        ),
        weighted(r, g, b, 0x3e59_c6ed, 0x3f37_1437, 0x3d93_d07d).over(
            Binary32 { bits: 0x3f80_0000 },
        ),
        weighted(r, g, b, 0x3c9e_6221, 0x3df4_1aef, 0x3f73_4721).over(
            Binary32 { bits: 0x3f8b_5ec8 },
        ),
    )
}

/// The coordinates X, Y and Z of linear channels, each by that of the reference white.
pub fn linear_to_ratios(r: Binary32, g: Binary32, b: Binary32) -> (s: (
    Binary32,
    Binary32,
    Binary32,
))
    ensures
        s == white_ratios(r, g, b),
{
    (
        weigh(r, g, b, 0x3ed3_2d7c, 0x3eb7_1437, 0x3e38_c49c).div(Binary32 { bits: 0x3f73_5200 }),
        weigh(r, g, b, 0x3e59_c6ed, 0x3f37_1437, 0x3d93_d07d).div(Binary32 { bits: 0x3f80_0000 }),
        weigh(r, g, b, 0x3c9e_6221, 0x3df4_1aef, 0x3f73_4721).div(Binary32 { bits: 0x3f8b_5ec8 }),
    )
}

/// Whether `r` is what a ratio comes to: its cube root, or a line near zero.
pub open spec fn lab_f_outcome(t: Binary32, r: Binary32) -> bool {
    if (Binary32 { bits: 0x3c11_1aa7 }).less(t) {
        cube_root_outcome(t, r)
    } else {
        r == t.over(Binary32 { bits: 0x3e03_8028 }).plus(Binary32 { bits: 0x3e0d_3dcb })
    }
}

fn lab_f(t: Binary32) -> (r: Binary32)
    ensures
        lab_f_outcome(t, r),
{
    if (Binary32 { bits: 0x3c11_1aa7 }).lt(t) {
        cube_root(t)
    } else {
        t.div(Binary32 { bits: 0x3e03_8028 }).add(Binary32 { bits: 0x3e0d_3dcb })
    }
}

/// The colour of three roots.
pub open spec fn lab_of_roots(fx: Binary32, fy: Binary32, fz: Binary32) -> LabColor {
    LabColor {
        l: (Binary32 { bits: 0x42e8_0000 }).times(fy).minus(Binary32 { bits: 0x4180_0000 }),
        a: (Binary32 { bits: 0x43fa_0000 }).times(fx.minus(fy)),
        b: (Binary32 { bits: 0x4348_0000 }).times(fy.minus(fz)),
    }
}

/// The colour of three roots.
pub fn roots_to_lab(fx: Binary32, fy: Binary32, fz: Binary32) -> (r: LabColor)
    ensures
        r == lab_of_roots(fx, fy, fz),
{
    LabColor {
        l: (Binary32 { bits: 0x42e8_0000 }).mul(fy).sub(Binary32 { bits: 0x4180_0000 }),
        a: (Binary32 { bits: 0x43fa_0000 }).mul(fx.sub(fy)),
        b: (Binary32 { bits: 0x4348_0000 }).mul(fy.sub(fz)),
    }
}

/// Whether these are the linear channels of a colour.
pub open spec fn linear_color(color: [u8; 3], linear: (Binary32, Binary32, Binary32)) -> bool {
    &&& linear_outcome(color[0], linear.0)
    &&& linear_outcome(color[1], linear.1)
    &&& linear_outcome(color[2], linear.2)
}

/// Whether these are the roots of linear channels.
pub open spec fn linear_roots(
    linear: (Binary32, Binary32, Binary32),
    roots: (Binary32, Binary32, Binary32),
) -> bool {
    let ratios = white_ratios(linear.0, linear.1, linear.2);
    &&& lab_f_outcome(ratios.0, roots.0)
    &&& lab_f_outcome(ratios.1, roots.1)
    &&& lab_f_outcome(ratios.2, roots.2)
}

/// Whether `lab` is a colour of bytes in CIE L*a*b*.
pub open spec fn lab_of_color(color: [u8; 3], lab: LabColor) -> bool {
    exists|linear: (Binary32, Binary32, Binary32), roots: (Binary32, Binary32, Binary32)|
        {
            &&& #[trigger] linear_color(color, linear)
            &&& #[trigger] linear_roots(linear, roots)
            &&& lab == lab_of_roots(roots.0, roots.1, roots.2)
        }
}

/// A colour of bytes in CIE L*a*b*.
fn color_to_lab(color: [u8; 3]) -> (r: LabColor)
    ensures
        lab_of_color(color, r),
{
    let linear = (srgb_to_linear(color[0]), srgb_to_linear(color[1]), srgb_to_linear(color[2]));
    let ratios = linear_to_ratios(linear.0, linear.1, linear.2);
    let roots = (lab_f(ratios.0), lab_f(ratios.1), lab_f(ratios.2));
    assert(linear_color(color, linear));
    assert(linear_roots(linear, roots));
    roots_to_lab(roots.0, roots.1, roots.2)
}

/// How far two colours lie apart, in a straight line.
pub open spec fn lab_span(a: LabColor, b: LabColor) -> Binary32 {
    let l = a.l.minus(b.l);
    let u = a.a.minus(b.a);
    let v = a.b.minus(b.b);
    l.times(l).plus(u.times(u)).plus(v.times(v)).root()
}

/// How far two colours lie apart, in a straight line.
pub fn lab_distance(a: LabColor, b: LabColor) -> (r: Binary32)
    ensures
        r == lab_span(a, b),
{
    let l = a.l.sub(b.l);
    let u = a.a.sub(b.a);
    let v = a.b.sub(b.b);
    l.mul(l).add(u.mul(u)).add(v.mul(v)).sqrt()
}

/// Whether `d` is the distance of two colours of bytes.
pub open spec fn distance_outcome(a: [u8; 3], b: [u8; 3], d: Binary32) -> bool {
    exists|x: LabColor, y: LabColor|
        #[trigger] lab_of_color(a, x) && #[trigger] lab_of_color(b, y) && d == lab_span(x, y)
}

/// The distance of two colours of bytes.
pub fn lab_distance_rgb(a: [u8; 3], b: [u8; 3]) -> (r: Binary32)
    ensures
        distance_outcome(a, b, r),
{
    let x = color_to_lab(a);
    let y = color_to_lab(b);
    lab_distance(x, y)
}

/// A colour is at no distance from itself.
pub proof fn lemma_no_distance_to_itself(c: LabColor)
    requires
        c.l.finite(),
        c.a.finite(),
        c.b.finite(),
    ensures
        lab_span(c, c).mag() == 0,
{
    crate::binary32_laws::lemma_minus_self(c.l);
    crate::binary32_laws::lemma_minus_self(c.a);
    crate::binary32_laws::lemma_minus_self(c.b);
    let zero = Binary32 { bits: 0 };
    crate::binary32_laws::lemma_times_zero(zero, zero);
    let square = zero.times(zero);
    crate::binary32_laws::lemma_plus_zero(square, square);
    crate::binary32_laws::lemma_plus_zero(square.plus(square), square);
    reveal(Binary32::root);
}

} // verus!
