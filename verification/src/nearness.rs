//! How near the results of single precision arithmetic lie to the exact ones.

use crate::binary32::{lemma_round32_zero, mag_units, round32, Binary32, INF_MAG};
use crate::binary32_laws::lemma_round32_exact;
use crate::scaling::lemma_round32_close;
use vstd::arithmetic::div_mod::lemma_fundamental_div_mod;
use vstd::arithmetic::power2::{lemma_pow2_pos, pow2};
use vstd::prelude::*;

verus! {

/// Whether `got` is off from `want` by at most one part in `parts`.
pub open spec fn near_by(got: int, want: int, parts: int) -> bool {
    -want <= (got - want) * parts <= want
}

/// Rounding changes a number by at most one part in `2^24`.
pub(crate) proof fn lemma_round32_near(n: nat, d: nat)
    requires
        d > 0,
        n == 0 || n >= 0x80_0000 * d || d == 1,
        round32(n, d) < INF_MAG,
    ensures
        near_by((mag_units(round32(n, d)) * d) as int, n as int, 0x100_0000),
{
    let u = mag_units(round32(n, d));
    let ud = u * d;
    assert(mag_units(0) == 0);
    if n == 0 {
        lemma_round32_zero(d);
        assert(0 * d == 0) by (nonlinear_arith);
    } else if n >= 0x80_0000 * d {
        lemma_round32_close(n, d);
        assert((ud - n) * 0x100_0000 == ud * 0x100_0000 - n * 0x100_0000);
    } else {
        assert(n / 0x80_0000 == 0 && n % 0x80_0000 == n);
        assert(mag_units(n) == n);
        lemma_round32_exact(n);
        assert(u * 1 == u) by (nonlinear_arith);
    }
}

/// A rounded product.
pub(crate) proof fn lemma_times_near(a: Binary32, b: Binary32)
    requires
        a.finite(),
        b.finite(),
        !a.negative(),
        !b.negative(),
        a.units() * b.units() == 0 || a.units() * b.units() >= 0x80_0000 * pow2(149),
        a.times(b).finite(),
    ensures
        !a.times(b).negative(),
        near_by(
            (a.times(b).units() * pow2(149)) as int,
            (a.units() * b.units()) as int,
            0x100_0000,
        ),
{
    lemma_pow2_pos(149);
    reveal(Binary32::times);
    lemma_product_bounded(a, b);
    lemma_round32_near(a.units() * b.units(), pow2(149));
}

/// A magnitude is an infinity at most.
proof fn lemma_product_bounded(a: Binary32, b: Binary32)
    ensures
        round32(a.units() * b.units(), pow2(149)) <= INF_MAG,
{
}

/// A rounded quotient.
pub(crate) proof fn lemma_over_near(a: Binary32, b: Binary32)
    requires
        a.finite(),
        b.finite(),
        !a.negative(),
        !b.negative(),
        b.mag() > 0,
        b.units() > 0,
        a.units() == 0 || a.units() * pow2(149) >= 0x80_0000 * b.units(),
        a.over(b).finite(),
    ensures
        !a.over(b).negative(),
        near_by(
            (a.over(b).units() * b.units()) as int,
            (a.units() * pow2(149)) as int,
            0x100_0000,
        ),
{
    let n = a.units() * pow2(149);
    assert(0 * pow2(149) == 0) by (nonlinear_arith);
    assert(round32(n, b.units()) <= INF_MAG);
    reveal(Binary32::over);
    lemma_round32_near(n, b.units());
}

/// A rounded sum.
pub(crate) proof fn lemma_plus_near(a: Binary32, b: Binary32)
    requires
        a.finite(),
        b.finite(),
        !a.negative(),
        !b.negative(),
        a.plus(b).finite(),
    ensures
        !a.plus(b).negative(),
        near_by(a.plus(b).units() as int, (a.units() + b.units()) as int, 0x100_0000),
{
    let n = a.units() + b.units();
    crate::binary32_laws::lemma_sum_units(a, b);
    assert(round32(n, 1) <= INF_MAG);
    lemma_round32_near(n, 1);
    assert(a.plus(b).units() * 1 == a.plus(b).units());
}

/// The nearest integer is off by at most a half.
pub(crate) proof fn lemma_whole_near(x: Binary32)
    ensures
        -(pow2(149) as int) <= 2 * (x.whole_near() * pow2(149) - x.units()) <= pow2(149),
{
    let k = pow2(149);
    lemma_pow2_pos(149);
    lemma_fundamental_div_mod(x.units() as int, k as int);
    let (w, r) = (x.whole(), x.rest());
    assert(k * w == w * k && (w + 1) * k == w * k + k) by (nonlinear_arith);
}

/// Two roundings after each other.
pub(crate) proof fn lemma_near_chain(x: int, y: int, z: int)
    requires
        near_by(x, y, 0x100_0000),
        near_by(y, z, 0x100_0000),
    ensures
        near_by(x, z, 0x40_0000),
{
}

/// A common factor does not matter.
pub(crate) proof fn lemma_near_scaled(x: int, y: int, parts: int, c: int)
    requires
        c > 0,
    ensures
        near_by(x, y, parts) <==> near_by(x * c, y * c, parts),
{
    let d = (x - y) * parts;
    assert((x * c - y * c) * parts == d * c && -(y * c) == (-y) * c) by (nonlinear_arith)
        requires
            d == (x - y) * parts,
    ;
    assert(d <= y <==> d * c <= y * c) by (nonlinear_arith)
        requires
            c > 0,
    ;
    assert(-y <= d <==> (-y) * c <= d * c) by (nonlinear_arith)
        requires
            c > 0,
    ;
}

} // verus!
