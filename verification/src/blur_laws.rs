//! How the softness changes the blur.

use crate::animate::AnimateOptions;
use crate::binary32::{mag_units, Binary32, ONE};
use crate::binary32_laws::{lemma_one_units, lemma_units_order};
use crate::cluster::{within_unit, Cluster};
use crate::frame_laws::lemma_header_of_frame;
use crate::gpu::{frame_header, is_frame};
use crate::placing_laws::lemma_power_units;
use crate::style::{unit_clamped, SoftnessPreset, StyleOptions};
use crate::wandering_laws::lemma_small_sum;
use vstd::arithmetic::power2::{lemma2_to64, lemma_pow2_adds, lemma_pow2_pos, pow2};
use vstd::prelude::*;

verus! {

/// Whether `got` is `blur` with what the softness adds: a quarter less at the low one, a
/// quarter more at the high one, and nothing at the middle one, within 0 to 1.
pub open spec fn softened(got: Binary32, blur: Binary32, softness: SoftnessPreset) -> bool {
    let k = pow2(149) as int;
    let want = 4 * blur.value() + match softness {
        SoftnessPreset::Low => -k,
        SoftnessPreset::Mid => 0,
        SoftnessPreset::High => k,
    };
    &&& want <= 0 ==> got.value() == 0
    &&& want >= 4 * k ==> got.value() == k
    &&& 0 <= want <= 4 * k ==> -k <= (4 * got.value() - want) * 0x10_0000 <= k
}

/// The blur with the offset of a softness.
#[verifier::rlimit(40)]
proof fn lemma_softened(blur: Binary32, softness: SoftnessPreset)
    requires
        within_unit(blur),
    ensures
        softened(unit_clamped(blur.plus(softness.offset())), blur, softness),
{
    let k = pow2(149) as int;
    let o = softness.offset();
    lemma_one_units();
    lemma_pow2_pos(149);
    lemma_units_order(blur.mag(), ONE as nat);
    lemma_power_units(0x3e80_0000, 147);
    lemma2_to64();
    lemma_pow2_adds(147, 2);
    assert(mag_units(0) == 0);
    assert(4 * o.value() == match softness {
        SoftnessPreset::Low => -k,
        SoftnessPreset::Mid => 0,
        SoftnessPreset::High => k,
    });
    let r = blur.plus(o);
    lemma_small_sum(blur, o);
    lemma_sum_sides(blur, o);
    lemma_units_order(r.mag(), ONE as nat);
    lemma_units_order(ONE as nat, r.mag());
    if r.mag() == 0 {
        assert(r.units() == 0);
    }
}

/// On which side of 0 and of 1 a sum lies.
#[verifier::rlimit(40)]
proof fn lemma_sum_sides(a: Binary32, b: Binary32)
    requires
        within_unit(a),
        b.finite(),
        -(2 * pow2(149)) <= a.value() + b.value() <= 2 * pow2(149),
    ensures
        ({
            let k = pow2(149) as int;
            let (v, r) = (a.value() + b.value(), a.plus(b));
            &&& v <= 0 ==> r.value() <= 0
            &&& v >= 0 ==> r.value() >= 0
            &&& v >= k ==> r.value() >= k
            &&& v <= k ==> r.value() <= k
        }),
{
    let k = pow2(149) as int;
    let v = a.value() + b.value();
    let n = crate::rounding::above(v) + crate::rounding::above(-v);
    lemma_one_units();
    assert(mag_units(0) == 0);
    crate::binary32_laws::lemma_round32_exact(ONE as nat);
    if v >= k {
        crate::binary32_laws::lemma_round32_monotone(mag_units(ONE as nat), 1, n, 1);
        lemma_units_order(ONE as nat, crate::binary32::round32(n, 1));
    }
    if 0 <= v <= k {
        crate::binary32_laws::lemma_round32_monotone(n, 1, mag_units(ONE as nat), 1);
        lemma_units_order(crate::binary32::round32(n, 1), ONE as nat);
    }
    reveal(Binary32::plus);
}

/// The blur of a frame is that of its options, changed by the softness.
pub proof fn lemma_softness_changes_the_blur(
    clusters: Seq<Cluster>,
    opts: AnimateOptions,
    width: u32,
    height: u32,
    n_orbs: nat,
    t: Binary32,
    field: bool,
    pack: Seq<Binary32>,
)
    requires
        is_frame(clusters, opts, width, height, n_orbs, t, field, pack),
        within_unit(opts.blur),
    ensures
        softened(pack[5], opts.blur, opts.softness),
{
    lemma_header_of_frame(clusters, opts, width, height, n_orbs, t, field, pack);
    lemma_softened(opts.blur, opts.softness);
    lemma_header_blur(opts, width, height, field);
}

proof fn lemma_header_blur(opts: AnimateOptions, width: u32, height: u32, field: bool)
    ensures
        frame_header(opts, width, height, field).base_blur == unit_clamped(
            opts.blur.plus(opts.softness.offset()),
        ),
{
}

/// The blur of the text formats is changed in the same way.
pub proof fn lemma_softness_changes_the_blur_of_a_style(opts: StyleOptions)
    requires
        within_unit(opts.blur),
    ensures
        softened(opts.soft_blur(), opts.blur, opts.softness),
{
    lemma_softened(opts.blur, opts.softness);
}

} // verus!
