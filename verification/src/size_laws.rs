//! How large an orb is drawn: its area follows its weight.

use crate::binary32::{Binary32, INF_MAG, ONE};
use crate::binary32_laws::{
    lemma_mag_units_increases, lemma_round32_between, lemma_ulp_shift_bounds, lemma_units_order,
};
use crate::integers::{isqrt, lemma_isqrt, lemma_root_place, root_shift};
use crate::nearness::{lemma_near_scaled, lemma_times_near, near_by};
use crate::placing_laws::lemma_power_units;
use crate::rounding::{lemma_pow2_values, ulp_shift};
use vstd::arithmetic::div_mod::lemma_fundamental_div_mod;
use vstd::arithmetic::power2::{
    lemma2_to64, lemma_pow2_adds, lemma_pow2_pos, lemma_pow2_strictly_increases, pow2,
};
use vstd::prelude::*;

verus! {

/// The steps of a root that is not too small.
#[verifier::rlimit(40)]
proof fn lemma_root_steps(x: Binary32)
    requires
        x.finite(),
        !x.negative(),
        x.mag() >= 0x1f80_0000,
    ensures
        ({
            let v = x.units() * pow2(149);
            let s = root_shift(v);
            let r = isqrt(v / pow2((2 * (s - 1)) as nat));
            &&& s >= 1
            &&& s <= 189
            &&& 0x100_0000 <= r < 0x200_0000
            &&& !x.root().negative()
            &&& x.root().mag() == s * 0x80_0000 + (r + 1) / 2
        }),
{
    reveal(Binary32::root);
    let k = pow2(149);
    let v = x.units() * k;
    let t = ulp_shift(48, v, 1);
    let s = root_shift(v);
    lemma_pow2_values();
    lemma_pow2_pos(149);
    lemma_power_units(0x1f80_0000, 85);
    lemma_units_order(0x1f80_0000, x.mag());
    lemma_mag_units_increases(x.mag(), INF_MAG as nat);
    lemma_power_units(INF_MAG as nat, 277);
    lemma_pow2_adds(85, 149);
    lemma_pow2_adds(277, 149);
    lemma_pow2_pos(85);
    assert(pow2(234) <= v < pow2(426)) by (nonlinear_arith)
        requires
            pow2(85) <= x.units() < pow2(277),
            v == x.units() * k,
            k > 0,
            pow2(234) == pow2(85) * k,
            pow2(426) == pow2(277) * k,
    ;
    lemma_ulp_shift_bounds(48, v, 1);
    lemma_pow2_adds(48, t);
    if t < 187 {
        if t < 186 {
            lemma_pow2_strictly_increases(48 + t, 234);
        }
        assert(false);
    }
    lemma_pow2_adds(48, (t - 1) as nat);
    if t > 378 {
        if t > 379 {
            lemma_pow2_strictly_increases(426, 48 + (t - 1) as nat);
        }
        assert(false);
    }
    lemma_root_place(v, t, s, (2 * (s - 1)) as nat);
}

/// The square of a root is the number again, off by at most one part in `2^22`.
#[verifier::rlimit(40)]
pub proof fn lemma_root_squared(x: Binary32)
    requires
        x.finite(),
        !x.negative(),
        x.mag() >= 0x1f80_0000,
    ensures
        x.root().finite(),
        !x.root().negative(),
        near_by(
            (x.root().units() * x.root().units()) as int,
            (x.units() * pow2(149)) as int,
            0x40_0000,
        ),
{
    let v = x.units() * pow2(149);
    let s = root_shift(v);
    let g = (2 * (s - 1)) as nat;
    let c = pow2(g);
    let w = v / c;
    let r = isqrt(w);
    lemma_root_steps(x);
    lemma_isqrt(w);
    lemma_pow2_pos(g);
    lemma_fundamental_div_mod(v as int, c as int);
    let m = (r + 1) / 2;
    let h = pow2((s - 1) as nat);
    lemma_pow2_adds((s - 1) as nat, (s - 1) as nat);
    lemma_pow2_adds(1, (s - 1) as nat);
    lemma_pow2_adds(1, s);
    lemma2_to64();
    let mag = s * 0x80_0000 + m;
    let u = x.root().units();
    assert(u == (2 * m) * h) by {
        if m == 0x100_0000 {
            assert(mag / 0x80_0000 == s + 2 && mag % 0x80_0000 == 0);
            assert(0x80_0000 * (2 * (2 * h)) == (2 * 0x100_0000) * h) by (nonlinear_arith);
        } else {
            assert(mag / 0x80_0000 == s + 1 && mag % 0x80_0000 == m - 0x80_0000);
            assert(m * (2 * h) == (2 * m) * h) by (nonlinear_arith);
        }
    }
    let e = 2 * m;
    assert(e == r || e == r + 1);
    lemma_squares_near(v as int, r as int, e as int, c as int, h as int, u as int, w as int);
}

#[verifier::rlimit(40)]
proof fn lemma_squares_near(v: int, r: int, e: int, c: int, h: int, u: int, w: int)
    requires
        c == h * h,
        c > 0,
        u == e * h,
        e == r || e == r + 1,
        r >= 0x100_0000,
        r * r <= w < (r + 1) * (r + 1),
        c * w <= v < c * w + c,
    ensures
        near_by(u * u, v, 0x40_0000),
{
    let rr = r * r;
    let rc = r * c;
    let rrc = rr * c;
    assert(u * u == (e * e) * c) by (nonlinear_arith)
        requires
            u == e * h,
            c == h * h,
    ;
    assert((r + 1) * (r + 1) == rr + 2 * r + 1) by (nonlinear_arith)
        requires
            rr == r * r,
    ;
    assert(e * e == rr || e * e == rr + 2 * r + 1);
    assert((rr + 2 * r + 1) * c == rrc + 2 * rc + c) by (nonlinear_arith)
        requires
            rrc == rr * c,
            rc == r * c,
    ;
    assert(rrc <= v < rrc + 2 * rc + c) by (nonlinear_arith)
        requires
            rr <= w <= rr + 2 * r,
            c * w <= v < c * w + c,
            rrc == rr * c,
            rc == r * c,
            c > 0,
    ;
    assert(rrc >= 0x100_0000 * rc && rc >= 0x100_0000 * c) by (nonlinear_arith)
        requires
            rrc == rr * c,
            rr == r * r,
            rc == r * c,
            r >= 0x100_0000,
            c > 0,
    {
        assert(rrc == r * rc);
    }
}

/// Products of near numbers are near.
#[verifier::rlimit(40)]
proof fn lemma_near_product(a: int, b: int, c: int, d: int, p: int)
    requires
        near_by(a, b, 4 * p),
        near_by(c, d, 4 * p),
        b >= 0,
        d >= 0,
        p >= 4,
    ensures
        near_by(a * c, b * d, p),
{
    let (x, y) = (a - b, c - d);
    let (bd, xd, by, xy) = (b * d, x * d, b * y, x * y);
    assert(a * c - bd == xd + by + xy) by (nonlinear_arith)
        requires
            x == a - b,
            y == c - d,
            bd == b * d,
            xd == x * d,
            by == b * y,
            xy == x * y,
    ;
    let q = 4 * p;
    assert(bd >= 0) by (nonlinear_arith)
        requires
            bd == b * d,
            b >= 0,
            d >= 0,
    ;
    assert(-bd <= xd * q <= bd) by (nonlinear_arith)
        requires
            -b <= x * q <= b,
            xd == x * d,
            bd == b * d,
            d >= 0,
    {
        assert((x * q) * d <= b * d && (x * q) * d >= (-b) * d);
        assert((x * q) * d == xd * q);
    }
    assert(-bd <= by * q <= bd) by (nonlinear_arith)
        requires
            -d <= y * q <= d,
            by == b * y,
            bd == b * d,
            b >= 0,
    {
        assert(b * (y * q) <= b * d && b * (y * q) >= b * (-d));
        assert(b * (y * q) == by * q);
    }
    crate::placing_laws::lemma_product_within(x * q, y * q, b, d);
    assert((x * q) * (y * q) == (xy * q) * q) by (nonlinear_arith)
        requires
            xy == x * y,
    ;
    let z = xy * q;
    assert(-bd <= z <= bd) by (nonlinear_arith)
        requires
            -bd <= z * q <= bd,
            q >= 1,
            bd >= 0,
    {
        if z > bd {
            assert(z * q >= z);
        }
        if z < -bd {
            assert(z * q <= z);
        }
    }
    let t = xd + by + xy;
    assert(t * q == xd * q + by * q + xy * q) by (nonlinear_arith)
        requires
            t == xd + by + xy,
    ;
    assert(-(3 * bd) <= t * q <= 3 * bd);
    assert(t * q == 4 * (t * p)) by (nonlinear_arith)
        requires
            q == 4 * p,
    ;
}

/// A length times a size, times the root of a weight: what an orb of that weight spans.
pub open spec fn spans(length: Binary32, size: Binary32, weight: Binary32) -> Binary32 {
    length.times(size).times(weight.root())
}

/// The square of what an orb spans follows its weight: it is the square of the length and the
/// size, times the weight, off by at most one part in `2^18`.
#[verifier::rlimit(40)]
pub proof fn lemma_span_squared(length: Binary32, n: nat, size: Binary32, weight: Binary32)
    requires
        !length.negative(),
        length.finite(),
        length.units() == n * pow2(149),
        1 <= n <= 0x1000,
        (Binary32 { bits: 0x3580_0000 }).at_most(size),
        size.at_most(Binary32 { bits: 0x4980_0000 }),
        !weight.negative(),
        0x1f80_0000 <= weight.mag() <= ONE,
    ensures
        ({
            let r = spans(length, size, weight);
            let (s, w, k) = (size.units() as int, weight.units() as int, pow2(149) as int);
            &&& r.finite()
            &&& !r.negative()
            &&& r.mag() <= 0x5080_0000
            &&& r.mag() > 0
            &&& near_by(r.units() * r.units() * k, (n * s) * (n * s) * w, 0x4_0000)
        }),
{
    let k = pow2(149);
    lemma_pow2_pos(149);
    let (s, w) = (size.units(), weight.units());
    let a = length.times(size);
    lemma_span_length(length, n, size);
    let p = weight.root();
    lemma_root_squared(weight);
    lemma_root_bounds(weight);
    let r = a.times(p);
    lemma_span_root(a, p);
    let (ru, au, pu) = (r.units() as int, a.units() as int, p.units() as int);
    let ns = (n * s) as int;
    let wk = (w * k) as int;
    lemma_square_near(au, ns);
    assert(wk >= 0) by (nonlinear_arith)
        requires
            wk == w * k,
            w >= 0,
            k >= 0,
    ;
    assert(ns * ns >= 0) by (nonlinear_arith);
    lemma_span_chain(ru, au, pu, ns * ns, wk, k as int);
    let (got, want) = (ru * ru * k, ns * ns * w);
    assert(want * k == (ns * ns) * wk) by (nonlinear_arith)
        requires
            want == ns * ns * w,
            wk == w * k,
    ;
    lemma_near_scaled(got, want, 0x4_0000, k as int);
}

/// A square of near numbers.
proof fn lemma_square_near(a: int, b: int)
    requires
        near_by(a, b, 0x100_0000),
        b >= 0,
    ensures
        near_by(a * a, b * b, 0x40_0000),
{
    lemma_near_product(a, b, a, b, 0x40_0000);
}

/// The square of a product whose factors' squares are known.
#[verifier::rlimit(40)]
proof fn lemma_span_chain(r: int, a: int, b: int, x: int, y: int, k: int)
    requires
        near_by(r * k, a * b, 0x100_0000),
        near_by(a * a, x, 0x40_0000),
        near_by(b * b, y, 0x40_0000),
        a >= 0,
        b >= 0,
        x >= 0,
        y >= 0,
        k > 0,
    ensures
        near_by((r * r * k) * k, x * y, 0x4_0000),
{
    let (rk, ab) = (r * k, a * b);
    assert(ab >= 0) by (nonlinear_arith)
        requires
            ab == a * b,
            a >= 0,
            b >= 0,
    ;
    lemma_square_near(rk, ab);
    let (aa, bb) = (a * a, b * b);
    lemma_near_product(aa, x, bb, y, 0x10_0000);
    let (p, q, z) = (rk * rk, ab * ab, x * y);
    assert(aa * bb == q) by (nonlinear_arith)
        requires
            aa == a * a,
            bb == b * b,
            q == ab * ab,
            ab == a * b,
    ;
    assert(z >= 0) by (nonlinear_arith)
        requires
            z == x * y,
            x >= 0,
            y >= 0,
    ;
    assert((r * r * k) * k == p) by (nonlinear_arith)
        requires
            p == rk * rk,
            rk == r * k,
    ;
    assert((p - q) * 0x40_0000 <= q && (p - q) * 0x40_0000 >= -q);
    assert((q - z) * 0x10_0000 <= z && (q - z) * 0x10_0000 >= -z);
}

/// The length times the size.
#[verifier::rlimit(40)]
proof fn lemma_span_length(length: Binary32, n: nat, size: Binary32)
    requires
        !length.negative(),
        length.finite(),
        length.units() == n * pow2(149),
        1 <= n <= 0x1000,
        (Binary32 { bits: 0x3580_0000 }).at_most(size),
        size.at_most(Binary32 { bits: 0x4980_0000 }),
    ensures
        ({
            let a = length.times(size);
            &&& a.finite()
            &&& !a.negative()
            &&& pow2(128) <= a.units() <= pow2(181)
            &&& near_by(a.units() as int, (n * size.units()) as int, 0x100_0000)
        }),
{
    let k = pow2(149);
    let (u, s) = (length.units(), size.units());
    lemma_pow2_pos(149);
    lemma_power_units(0x3580_0000, 129);
    lemma_power_units(0x4980_0000, 169);
    lemma_power_units(0x3500_0000, 128);
    lemma_power_units(0x4f80_0000, 181);
    lemma_units_order(0x3580_0000, size.mag());
    lemma_units_order(size.mag(), 0x4980_0000);
    lemma2_to64();
    lemma_pow2_adds(169, 12);
    lemma_pow2_adds(128, 1);
    lemma_pow2_adds(64, 64);
    let ns = n * s;
    assert(u * s == ns * k) by (nonlinear_arith)
        requires
            u == n * k,
            ns == n * s,
    ;
    assert(pow2(128) <= ns <= pow2(181)) by (nonlinear_arith)
        requires
            ns == n * s,
            1 <= n <= 0x1000,
            pow2(129) <= s <= pow2(169),
            pow2(129) == pow2(128) * 2,
            pow2(181) == pow2(169) * 0x1000,
    ;
    assert(pow2(128) * k <= ns * k <= pow2(181) * k && ns * k >= 0x80_0000 * k)
        by (nonlinear_arith)
        requires
            pow2(128) <= ns <= pow2(181),
            pow2(128) == pow2(64) * pow2(64),
            pow2(64) == 0x1_0000_0000_0000_0000,
            k > 0,
    {
        assert(pow2(64) * pow2(64) >= 0x80_0000);
    }
    lemma_round32_between(ns * k, k, 0x3500_0000, 0x4f80_0000);
    let a = length.times(size);
    assert(0x3500_0000 <= a.mag() <= 0x4f80_0000 && !a.negative()) by {
        reveal(Binary32::times);
    }
    lemma_units_order(0x3500_0000, a.mag());
    lemma_units_order(a.mag(), 0x4f80_0000);
    lemma_times_near(length, size);
    lemma_near_scaled(a.units() as int, ns as int, 0x100_0000, k as int);
}

/// The root of a weight is not too small.
#[verifier::rlimit(40)]
proof fn lemma_root_bounds(weight: Binary32)
    requires
        !weight.negative(),
        0x1f80_0000 <= weight.mag() <= ONE,
    ensures
        pow2(116) <= weight.root().units() <= pow2(150),
{
    let (u, w) = (weight.root().units(), weight.units());
    let k = pow2(149);
    lemma_root_squared(weight);
    lemma_power_units(0x1f80_0000, 85);
    lemma_power_units(ONE as nat, 149);
    lemma_units_order(0x1f80_0000, weight.mag());
    lemma_units_order(weight.mag(), ONE as nat);
    lemma2_to64();
    lemma_pow2_adds(85, 149);
    lemma_pow2_adds(116, 116);
    lemma_pow2_adds(232, 2);
    lemma_pow2_adds(149, 1);
    let (uu, wk) = (u * u, w * k);
    assert(pow2(234) <= wk <= k * k) by (nonlinear_arith)
        requires
            wk == w * k,
            pow2(85) <= w <= k,
            pow2(234) == pow2(85) * k,
    ;
    assert(uu >= pow2(232) && uu <= 2 * (k * k));
    assert(u >= pow2(116)) by (nonlinear_arith)
        requires
            u * u >= pow2(116) * pow2(116),
            u >= 0,
    ;
    assert(u <= 2 * k) by (nonlinear_arith)
        requires
            u * u <= 2 * (k * k),
            u >= 0,
            k >= 0,
    ;
}

/// The product with the root.
#[verifier::rlimit(40)]
proof fn lemma_span_root(a: Binary32, p: Binary32)
    requires
        a.finite(),
        !a.negative(),
        p.finite(),
        !p.negative(),
        pow2(128) <= a.units() <= pow2(181),
        pow2(116) <= p.units() <= pow2(150),
    ensures
        ({
            let r = a.times(p);
            &&& r.finite()
            &&& !r.negative()
            &&& r.mag() <= 0x5080_0000
            &&& r.mag() > 0
            &&& near_by(
                (r.units() * pow2(149)) as int,
                (a.units() * p.units()) as int,
                0x100_0000,
            )
        }),
{
    let k = pow2(149);
    let (u, v) = (a.units(), p.units());
    lemma_pow2_pos(149);
    lemma_power_units(0x2400_0000, 94);
    lemma_power_units(0x5080_0000, 183);
    lemma2_to64();
    lemma_pow2_adds(128, 116);
    lemma_pow2_adds(94, 149);
    lemma_pow2_adds(243, 1);
    lemma_pow2_adds(181, 150);
    lemma_pow2_adds(182, 149);
    lemma_pow2_adds(182, 1);
    lemma_pow2_adds(64, 30);
    let uv = u * v;
    assert(pow2(94) * k <= uv <= pow2(183) * k) by (nonlinear_arith)
        requires
            uv == u * v,
            pow2(128) <= u <= pow2(181),
            pow2(116) <= v <= pow2(150),
            pow2(128) * pow2(116) == 2 * (pow2(94) * k),
            pow2(181) * pow2(150) == pow2(182) * k,
            pow2(183) == 2 * pow2(182),
            k > 0,
    {
        assert(uv >= pow2(128) * pow2(116));
        assert(uv <= pow2(181) * pow2(150));
        assert(pow2(94) * k >= 0);
        assert(pow2(182) * k >= 0);
    }
    assert(uv >= 0x80_0000 * k) by (nonlinear_arith)
        requires
            uv >= pow2(94) * k,
            pow2(94) == pow2(64) * pow2(30),
            pow2(64) == 0x1_0000_0000_0000_0000,
            pow2(30) == 0x4000_0000,
            k > 0,
    ;
    lemma_round32_between(uv, k, 0x2400_0000, 0x5080_0000);
    let r = a.times(p);
    assert(0x2400_0000 <= r.mag() <= 0x5080_0000 && !r.negative()) by {
        reveal(Binary32::times);
    }
    lemma_times_near(a, p);
}

/// The same where the root is scaled first: a root times a length, times a size.
pub open spec fn spans_from_root(length: Binary32, size: Binary32, weight: Binary32) -> Binary32 {
    weight.root().times(length).times(size)
}

/// What [`spans_from_root`] gives follows the weight as well.
#[verifier::rlimit(40)]
pub proof fn lemma_root_span_squared(length: Binary32, n: nat, size: Binary32, weight: Binary32)
    requires
        !length.negative(),
        length.finite(),
        length.units() == n * pow2(149),
        1 <= n <= 0x1000,
        (Binary32 { bits: 0x3580_0000 }).at_most(size),
        size.at_most(Binary32 { bits: 0x4980_0000 }),
        !weight.negative(),
        0x1f80_0000 <= weight.mag() <= ONE,
    ensures
        ({
            let r = spans_from_root(length, size, weight);
            let (s, w, k) = (size.units() as int, weight.units() as int, pow2(149) as int);
            &&& r.finite()
            &&& !r.negative()
            &&& near_by(r.units() * r.units() * k, (n * s) * (n * s) * w, 0x2_0000)
        }),
{
    let k = pow2(149);
    lemma_pow2_pos(149);
    let (s, w) = (size.units(), weight.units());
    let p = weight.root();
    lemma_root_squared(weight);
    lemma_root_bounds(weight);
    let b = p.times(length);
    lemma_root_length(p, length, n);
    lemma_power_units(0x3580_0000, 129);
    lemma_power_units(0x4980_0000, 169);
    lemma_units_order(0x3580_0000, size.mag());
    lemma_units_order(size.mag(), 0x4980_0000);
    let r = b.times(size);
    lemma_root_size(b, size);
    let (ru, bu, pu, si) = (r.units() as int, b.units() as int, p.units() as int, s as int);
    let np = n * pu;
    assert(np >= 0) by (nonlinear_arith)
        requires
            np == n * pu,
            n >= 0,
            pu >= 0,
    ;
    lemma_square_near(bu, np);
    let (wk, nn) = ((w * k) as int, (n * n) as int);
    let (pp, z) = (pu * pu, nn * wk);
    assert(nn > 0 && wk >= 0) by (nonlinear_arith)
        requires
            nn == n * n,
            n >= 1,
            wk == w * k,
            w >= 0,
            k >= 0,
    ;
    lemma_near_scaled(pp, wk, 0x40_0000, nn);
    assert(np * np == pp * nn && wk * nn == z) by (nonlinear_arith)
        requires
            np == n * pu,
            pp == pu * pu,
            nn == n * n,
            z == nn * wk,
    ;
    let bb = bu * bu;
    assert(z >= 0) by (nonlinear_arith)
        requires
            z == nn * wk,
            nn > 0,
            wk >= 0,
    ;
    assert(near_by(bb, z, 0x10_0000)) by {
        let y = np * np;
        assert((bb - y) * 0x40_0000 <= y && (bb - y) * 0x40_0000 >= -y);
        assert((y - z) * 0x40_0000 <= z && (y - z) * 0x40_0000 >= -z);
    }
    lemma_root_chain(ru, bu, si, z, k as int);
    let (got, want) = (ru * ru * k, (n * s) * (n * s) * w);
    assert(want * k == z * (si * si)) by (nonlinear_arith)
        requires
            want == (n * s) * (n * s) * w,
            z == nn * wk,
            nn == n * n,
            wk == w * k,
            si == s,
    ;
    lemma_near_scaled(got, want as int, 0x2_0000, k as int);
}

#[verifier::rlimit(40)]
proof fn lemma_root_chain(r: int, b: int, s: int, z: int, k: int)
    requires
        near_by(r * k, b * s, 0x100_0000),
        near_by(b * b, z, 0x10_0000),
        b >= 0,
        s >= 0,
        z >= 0,
        k > 0,
    ensures
        near_by((r * r * k) * k, z * (s * s), 0x2_0000),
{
    let (rk, bs) = (r * k, b * s);
    assert(bs >= 0) by (nonlinear_arith)
        requires
            bs == b * s,
            b >= 0,
            s >= 0,
    ;
    lemma_square_near(rk, bs);
    let (bb, ss) = (b * b, s * s);
    let (p, q, x) = (rk * rk, bs * bs, z * ss);
    assert(ss >= 0) by (nonlinear_arith)
        requires
            ss == s * s,
    ;
    assert(x >= 0) by (nonlinear_arith)
        requires
            x == z * ss,
            z >= 0,
            ss >= 0,
    ;
    lemma_near_product(bb, z, ss, ss, 0x4_0000);
    assert(bb * ss == q) by (nonlinear_arith)
        requires
            bb == b * b,
            ss == s * s,
            q == bs * bs,
            bs == b * s,
    ;
    assert((r * r * k) * k == p) by (nonlinear_arith)
        requires
            p == rk * rk,
            rk == r * k,
    ;
    assert((p - q) * 0x40_0000 <= q && (p - q) * 0x40_0000 >= -q);
    assert((q - x) * 0x4_0000 <= x && (q - x) * 0x4_0000 >= -x);
}

/// The root times a length.
#[verifier::rlimit(40)]
proof fn lemma_root_length(p: Binary32, length: Binary32, n: nat)
    requires
        p.finite(),
        !p.negative(),
        pow2(116) <= p.units() <= pow2(150),
        !length.negative(),
        length.finite(),
        length.units() == n * pow2(149),
        1 <= n <= 0x1000,
    ensures
        ({
            let b = p.times(length);
            &&& b.finite()
            &&& !b.negative()
            &&& pow2(116) <= b.units() <= pow2(162)
            &&& near_by(b.units() as int, (n * p.units()) as int, 0x100_0000)
        }),
{
    let k = pow2(149);
    let (u, v) = (p.units(), length.units());
    lemma_pow2_pos(149);
    lemma_power_units(0x2f00_0000, 116);
    lemma_power_units(0x4600_0000, 162);
    lemma2_to64();
    lemma_pow2_adds(150, 12);
    lemma_pow2_adds(64, 52);
    lemma_pow2_pos(52);
    let nu = n * u;
    assert(u * v == nu * k) by (nonlinear_arith)
        requires
            v == n * k,
            nu == n * u,
    ;
    assert(pow2(116) <= nu <= pow2(162)) by (nonlinear_arith)
        requires
            nu == n * u,
            1 <= n <= 0x1000,
            pow2(116) <= u <= pow2(150),
            pow2(162) == pow2(150) * 0x1000,
    ;
    assert(pow2(116) * k <= nu * k <= pow2(162) * k && nu * k >= 0x80_0000 * k)
        by (nonlinear_arith)
        requires
            pow2(116) <= nu <= pow2(162),
            pow2(116) == pow2(64) * pow2(52),
            pow2(64) == 0x1_0000_0000_0000_0000,
            pow2(52) >= 1,
            k > 0,
    {
        assert(pow2(64) * pow2(52) >= 0x80_0000);
    }
    lemma_round32_between(nu * k, k, 0x2f00_0000, 0x4600_0000);
    let b = p.times(length);
    assert(0x2f00_0000 <= b.mag() <= 0x4600_0000 && !b.negative()) by {
        reveal(Binary32::times);
    }
    lemma_units_order(0x2f00_0000, b.mag());
    lemma_units_order(b.mag(), 0x4600_0000);
    lemma_times_near(p, length);
    lemma_near_scaled(b.units() as int, nu as int, 0x100_0000, k as int);
}

/// The product with the size.
#[verifier::rlimit(40)]
proof fn lemma_root_size(b: Binary32, size: Binary32)
    requires
        b.finite(),
        !b.negative(),
        size.finite(),
        !size.negative(),
        pow2(116) <= b.units() <= pow2(162),
        pow2(129) <= size.units() <= pow2(169),
    ensures
        ({
            let r = b.times(size);
            &&& r.finite()
            &&& !r.negative()
            &&& near_by(
                (r.units() * pow2(149)) as int,
                (b.units() * size.units()) as int,
                0x100_0000,
            )
        }),
{
    let k = pow2(149);
    let (u, v) = (b.units(), size.units());
    lemma_pow2_pos(149);
    lemma_power_units(0x2500_0000, 96);
    lemma_power_units(0x5000_0000, 182);
    lemma2_to64();
    lemma_pow2_adds(116, 129);
    lemma_pow2_adds(96, 149);
    lemma_pow2_adds(162, 169);
    lemma_pow2_adds(182, 149);
    lemma_pow2_adds(64, 32);
    let uv = u * v;
    assert(pow2(96) * k <= uv <= pow2(182) * k) by (nonlinear_arith)
        requires
            uv == u * v,
            pow2(116) <= u <= pow2(162),
            pow2(129) <= v <= pow2(169),
            pow2(116) * pow2(129) == pow2(96) * k,
            pow2(162) * pow2(169) == pow2(182) * k,
    {
        assert(uv >= pow2(116) * pow2(129));
        assert(uv <= pow2(162) * pow2(169));
    }
    assert(uv >= 0x80_0000 * k) by (nonlinear_arith)
        requires
            uv >= pow2(96) * k,
            pow2(96) == pow2(64) * pow2(32),
            pow2(64) == 0x1_0000_0000_0000_0000,
            pow2(32) == 0x1_0000_0000,
            k > 0,
    ;
    lemma_round32_between(uv, k, 0x2500_0000, 0x5000_0000);
    let r = b.times(size);
    assert(0x2500_0000 <= r.mag() <= 0x5000_0000 && !r.negative()) by {
        reveal(Binary32::times);
    }
    lemma_times_near(b, size);
}

} // verus!
