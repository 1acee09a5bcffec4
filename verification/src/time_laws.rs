//! When frames are shown and samples are taken, and how glyphs turn.

use crate::animate::{hash_unit, orb_of, splitmix, OrbDraws};
use crate::binary32::{mag_units, Binary32, ONE};
use crate::binary32_laws::{lemma_one_units, lemma_round32_between, lemma_times_number};
use crate::integers::{lemma_of_int_exact, of_int};
use crate::nearness::{lemma_near_scaled, lemma_over_near, near_by};
use crate::video::frame_time;
use crate::video_input::sample_time;
use vstd::arithmetic::power2::{lemma2_to64, lemma_pow2_adds, lemma_pow2_pos, pow2};
use vstd::prelude::*;

verus! {

/// A quotient of whole numbers.
#[verifier::rlimit(40)]
proof fn lemma_ratio_near(i: nat, n: nat)
    requires
        i <= n,
        0 < n < 0x100_0000,
    ensures
        ({
            let q = of_int(false, i).over(of_int(false, n));
            near_by(q.value() * n, (i * pow2(149)) as int, 0x100_0000)
        }),
{
    let k = pow2(149);
    let (a, b) = (of_int(false, i), of_int(false, n));
    lemma_pow2_pos(149);
    lemma_of_int_exact(false, i);
    lemma_of_int_exact(false, n);
    let (u, v) = (a.units(), b.units());
    assert(v >= k && u <= v) by (nonlinear_arith)
        requires
            u == i * k,
            v == n * k,
            i <= n,
            n >= 1,
            k > 0,
    ;
    lemma2_to64();
    lemma_pow2_adds(64, 85);
    lemma_pow2_pos(85);
    assert(k >= 0x1_0000_0000_0000_0000) by (nonlinear_arith)
        requires
            k == pow2(64) * pow2(85),
            pow2(64) == 0x1_0000_0000_0000_0000,
            pow2(85) >= 1,
    ;
    assert(u == 0 || u * k >= 0x80_0000 * v) by (nonlinear_arith)
        requires
            u == i * k,
            v == n * k,
            n < 0x100_0000,
            k >= 0x1_0000_0000_0000_0000,
    {
        if i >= 1 {
            assert(u >= k);
            assert(u * k >= k * k);
            assert(k * k >= (0x80_0000 * 0x100_0000) * k);
            assert(v <= 0x100_0000 * k);
        } else {
            assert(u == 0);
        }
    }
    assert(mag_units(0) == 0);
    assert(b.mag() > 0);
    lemma_one_units();
    assert(0 * v <= u * k <= k * v) by (nonlinear_arith)
        requires
            0 <= u <= v,
            k >= 0,
    ;
    lemma_round32_between(u * k, v, 0, ONE as nat);
    let q = a.over(b);
    assert(q.finite() && !q.negative()) by {
        reveal(Binary32::over);
    }
    lemma_over_near(a, b);
    let qn = q.units() * n;
    assert(q.units() * v == qn * k) by (nonlinear_arith)
        requires
            v == n * k,
            qn == q.units() * n,
    ;
    lemma_near_scaled(qn as int, u as int, 0x100_0000, k as int);
}

/// The frames of a video are spread evenly over its time: the first stands at 0, and each
/// follows the one before by one part of as many as there are frames.
pub proof fn lemma_frames_are_spread_evenly(i: nat, total: nat)
    requires
        i < total < 0x100_0000,
    ensures
        near_by(frame_time(i, total).value() * total, (i * pow2(149)) as int, 0x100_0000),
{
    lemma_ratio_near(i, total);
}

/// The samples of a video are spread evenly over its time, from its beginning to its end.
pub proof fn lemma_samples_are_spread_evenly(i: nat, n: nat)
    requires
        i < n,
        2 <= n < 0x100_0000,
    ensures
        near_by(sample_time(i, n).value() * (n - 1), (i * pow2(149)) as int, 0x100_0000),
{
    lemma_ratio_near(i, (n - 1) as nat);
}

/// The glyph of an orb starts at an angle and turns a way that rest on the seed and the number
/// of the orb alone: a hash of both is the part of a full turn, and the last bit of a hash of
/// that tells the way. It turns as often as its orb crosses the picture.
#[verifier::rlimit(40)]
pub proof fn lemma_turning_of_an_orb(
    seed: u64,
    weights: Seq<Binary32>,
    total: Binary32,
    i: u64,
    d: OrbDraws,
)
    requires
        0 < d.speed_mult < 0x100_0000,
    ensures
        ({
            let p = orb_of(seed, weights, total, i, d);
            let hash = splitmix(seed ^ i.wrapping_mul(0x9E37_79B9_7F4A_7C15));
            &&& p.base_angle == hash_unit(hash).times(Binary32 { bits: 0x40c9_0fdb })
            &&& p.rot_speed_signed.negative() <==> splitmix(hash ^ 0xD1B5_4A32_D192_ED03) & 1 != 0
        }),
{
    let hash = splitmix(seed ^ i.wrapping_mul(0x9E37_79B9_7F4A_7C15));
    lemma_of_int_exact(false, d.speed_mult as nat);
    let sign = if splitmix(hash ^ 0xD1B5_4A32_D192_ED03) & 1 == 0 {
        Binary32 { bits: ONE }
    } else {
        Binary32 { bits: 0xbf80_0000 }
    };
    lemma_times_number(of_int(false, d.speed_mult as nat), sign);
}

} // verus!
