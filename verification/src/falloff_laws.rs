//! The opacity of an orb between its stops.

use crate::binary32::{mag_units, round32, Binary32, ONE};
use crate::binary32_laws::{
    lemma_difference_units, lemma_one_units, lemma_ratio_rises, lemma_round32_between,
    lemma_round32_monotone, lemma_units_order,
};
use crate::cluster::within_unit;
use crate::placing_laws::{
    lemma_product_off, lemma_product_within, lemma_round32_off, lemma_sum_off,
};
use crate::style::{
    falloff, hold_stop, lemma_stops_within, outer_part, rim_stop, unit_clamped, FalloffProfile,
};
use crate::wandering_laws::{
    lemma_large_one, lemma_small_sum, lemma_time_left, lemma_unit_product,
};
use vstd::arithmetic::power2::{lemma2_to64, lemma_pow2_adds, lemma_pow2_pos, pow2};
use vstd::prelude::*;

verus! {

/// The stops are more than `1/32` from both ends.
proof fn lemma_stop_units(stop: Binary32)
    requires
        0x3d4c_cccd <= stop.mag() <= 0x3f73_3333,
    ensures
        32 * stop.units() >= pow2(149),
        32 * stop.units() <= 31 * pow2(149),
{
    lemma2_to64();
    lemma_pow2_adds(121, 28);
    lemma_pow2_adds(125, 24);
    lemma_units_order(0x3d4c_cccd, stop.mag());
    lemma_units_order(stop.mag(), 0x3f73_3333);
    assert(0x3d4c_cccdnat / 0x80_0000 == 122 && 0x3d4c_cccdnat % 0x80_0000 == 0x4c_cccd);
    assert(0x3f73_3333nat / 0x80_0000 == 126 && 0x3f73_3333nat % 0x80_0000 == 0x73_3333);
    assert(mag_units(0x3d4c_cccd) == 0xcc_cccd * pow2(121));
    assert(mag_units(0x3f73_3333) == 0xf3_3333 * pow2(125));
}

/// A quotient of a number by one that is no smaller.
#[verifier::rlimit(40)]
proof fn lemma_quotient_off(x: Binary32, d: Binary32)
    requires
        x.finite(),
        d.finite(),
        !x.negative(),
        !d.negative(),
        d.mag() > 0,
        x.units() <= d.units(),
    ensures
        ({
            let u = x.over(d);
            let k = pow2(149) as int;
            let slack = x.value() * k + 0x80_0000 * d.value();
            &&& within_unit(u)
            &&& -slack <= (u.value() * d.value() - x.value() * k) * 0x100_0000 <= slack
        }),
{
    lemma_ratio_rises(x, x, d);
    let u = x.over(d);
    let n = x.units() * pow2(149);
    assert(mag_units(0) == 0);
    if d.units() == 0 {
        lemma_units_order(d.mag(), 0);
    }
    assert(u.mag() == round32(n, d.units())) by {
        reveal(Binary32::over);
    }
    lemma_round32_off(n, d.units());
}

/// How far a place and the edge lie behind a stop.
#[verifier::rlimit(40)]
proof fn lemma_outer_gaps(r: Binary32, stop: Binary32)
    requires
        within_unit(r),
        !stop.negative(),
        0x3d4c_cccd <= stop.mag() <= 0x3f73_3333,
        stop.mag() <= r.mag(),
    ensures
        ({
            let one = Binary32 { bits: ONE };
            let (x, d) = (r.minus(stop), one.minus(stop));
            let k = pow2(149) as int;
            let (a, b) = (r.value() - stop.value(), k - stop.value());
            &&& within_unit(x)
            &&& within_unit(d)
            &&& x.units() <= d.units()
            &&& 64 * d.units() >= k
            &&& -a <= (x.value() - a) * 0x100_0000 <= a
            &&& -b <= (d.value() - b) * 0x100_0000 <= b
        }),
{
    let one = Binary32 { bits: ONE };
    lemma_one_units();
    lemma_stop_units(stop);
    lemma_units_order(stop.mag(), r.mag());
    lemma_units_order(r.mag(), ONE as nat);
    let (x, d) = (r.minus(stop), one.minus(stop));
    lemma_difference_units(r, stop);
    lemma_difference_units(one, stop);
    assert(mag_units(0) == 0);
    lemma_round32_between((one.units() - stop.units()) as nat, 1, 0, ONE as nat);
    lemma_round32_monotone(
        (r.units() - stop.units()) as nat,
        1,
        (one.units() - stop.units()) as nat,
        1,
    );
    lemma_units_order(x.mag(), d.mag());
    let o = stop.opposite();
    assert(o.value() == -stop.value() && o.finite());
    assert(x == r.plus(o) && d == one.plus(o));
    lemma_sum_off(r, o);
    lemma_sum_off(one, o);
}

/// The opacity behind a stop.
#[verifier::rlimit(40)]
proof fn lemma_outer_off(r: Binary32, stop: Binary32, full: Binary32)
    requires
        within_unit(r),
        within_unit(full),
        !stop.negative(),
        0x3d4c_cccd <= stop.mag() <= 0x3f73_3333,
        stop.mag() <= r.mag() < ONE,
    ensures
        ({
            let v = full.times((Binary32 { bits: ONE }).minus(outer_part(r, stop)));
            let k = pow2(149) as int;
            let off = v.value() * (k - stop.value()) - full.value() * (k - r.value());
            &&& within_unit(v)
            &&& -(k * k) <= off * 0x20_0000 <= k * k
        }),
{
    let one = Binary32 { bits: ONE };
    let tiny = Binary32 { bits: 0x3586_37bd };
    let k = pow2(149) as int;
    lemma_outer_gaps(r, stop);
    let (x, d) = (r.minus(stop), one.minus(stop));
    lemma_gap(d, tiny);
    assert(d.larger(tiny) == d);
    let u = x.over(d);
    assert(outer_part(r, stop) == u);
    lemma_outer_steps(r, stop, full, x, d, u);
}

#[verifier::rlimit(40)]
proof fn lemma_outer_steps(
    r: Binary32,
    stop: Binary32,
    full: Binary32,
    x: Binary32,
    d: Binary32,
    u: Binary32,
)
    requires
        within_unit(r),
        within_unit(full),
        !stop.negative(),
        stop.mag() <= r.mag() < ONE,
        within_unit(x),
        within_unit(d),
        d.mag() > 0,
        x.units() <= d.units(),
        u == x.over(d),
        ({
            let a = r.value() - stop.value();
            -a <= (x.value() - a) * 0x100_0000 <= a
        }),
        ({
            let b = pow2(149) - stop.value();
            -b <= (d.value() - b) * 0x100_0000 <= b
        }),
    ensures
        ({
            let v = full.times((Binary32 { bits: ONE }).minus(u));
            let k = pow2(149) as int;
            let off = v.value() * (k - stop.value()) - full.value() * (k - r.value());
            &&& within_unit(v)
            &&& -(k * k) <= off * 0x20_0000 <= k * k
        }),
{
    let one = Binary32 { bits: ONE };
    let k = pow2(149) as int;
    lemma_one_units();
    lemma_large_one();
    lemma_quotient_off(x, d);
    let g = one.minus(u);
    lemma_time_left(u);
    let v = full.times(g);
    lemma_unit_product(full, g);
    lemma_units_order(stop.mag(), r.mag());
    lemma_units_order(r.mag(), ONE as nat);
    lemma_units_order(full.mag(), ONE as nat);
    lemma_units_order(d.mag(), ONE as nat);
    lemma_units_order(u.mag(), ONE as nat);
    lemma_outer_total(
        r.value(),
        stop.value(),
        full.value(),
        x.value(),
        d.value(),
        u.value(),
        g.value(),
        v.value(),
        k,
    );
}

/// A gap of a 64th or more is larger than a millionth.
proof fn lemma_gap(d: Binary32, tiny: Binary32)
    requires
        !d.negative(),
        d.finite(),
        tiny.bits == 0x3586_37bd,
        64 * d.units() >= pow2(149),
    ensures
        tiny.less(d),
        d.mag() > 0,
{
    lemma2_to64();
    lemma_pow2_adds(106, 43);
    lemma_pow2_pos(106);
    assert(0x3586_37bdnat / 0x80_0000 == 107 && 0x3586_37bdnat % 0x80_0000 == 0x6_37bd);
    assert(tiny.units() == 0x86_37bd * pow2(106));
    assert(pow2(43) == 0x800_0000_0000) by {
        lemma_pow2_adds(32, 11);
    }
    lemma_units_order(d.mag(), tiny.mag());
}

#[verifier::rlimit(40)]
proof fn lemma_outer_total(
    r: int,
    s: int,
    f: int,
    x: int,
    d: int,
    u: int,
    g: int,
    v: int,
    k: int,
)
    requires
        0 <= s <= r <= k,
        0 <= f <= k,
        0 <= u <= k,
        0 <= x <= d <= k,
        -(r - s) <= (x - (r - s)) * 0x100_0000 <= r - s,
        -(k - s) <= (d - (k - s)) * 0x100_0000 <= k - s,
        -(x * k + 0x80_0000 * d) <= (u * d - x * k) * 0x100_0000 <= x * k + 0x80_0000 * d,
        -k <= (g - (k - u)) * 0x100_0000 <= k,
        -(2 * k * k) <= (v * k - f * g) * 0x100_0000 <= 2 * k * k,
        k >= 0x100_0000,
    ensures
        -(k * k) <= (v * (k - s) - f * (k - r)) * 0x20_0000 <= k * k,
{
    let kk = k * k;
    let kkk = kk * k;
    let t = k - s;
    // the product
    let a = v * k - f * g;
    let at = a * t;
    assert(2 * k * k == 2 * kk) by (nonlinear_arith)
        requires
            kk == k * k,
    ;
    lemma_product_within(a * 0x100_0000, t, 2 * kk, k);
    assert((a * 0x100_0000) * t == at * 0x100_0000 && (2 * kk) * k == 2 * kkk) by (nonlinear_arith)
        requires
            at == a * t,
            kkk == kk * k,
    ;
    // what is left
    let b = g - (k - u);
    let ft = f * t;
    let fbt = ft * b;
    lemma_product_within(f, t, k, k);
    lemma_product_within(ft, b * 0x100_0000, kk, k);
    assert(ft * (b * 0x100_0000) == fbt * 0x100_0000) by (nonlinear_arith)
        requires
            fbt == ft * b,
    ;
    // the gap
    let c = d - t;
    let fu = f * u;
    let fuc = fu * c;
    lemma_product_within(f, u, k, k);
    lemma_product_within(fu, c * 0x100_0000, kk, k);
    assert(fu * (c * 0x100_0000) == fuc * 0x100_0000) by (nonlinear_arith)
        requires
            fuc == fu * c,
    ;
    // the quotient
    let e = u * d - x * k;
    let fe = f * e;
    assert(0 <= x * k <= kk && 0x80_0000 * d <= kk) by (nonlinear_arith)
        requires
            0 <= x <= k,
            0 <= d <= k,
            kk == k * k,
            k >= 0x100_0000,
    ;
    lemma_product_within(f, e * 0x100_0000, k, 2 * kk);
    assert(f * (e * 0x100_0000) == fe * 0x100_0000 && k * (2 * kk) == 2 * kkk) by (nonlinear_arith)
        requires
            fe == f * e,
            kkk == kk * k,
    ;
    // the distance
    let h = x - (r - s);
    let fk = f * k;
    let fkh = fk * h;
    lemma_product_within(f, k, k, k);
    lemma_product_within(fk, h * 0x100_0000, kk, k);
    assert(fk * (h * 0x100_0000) == fkh * 0x100_0000) by (nonlinear_arith)
        requires
            fkh == fk * h,
    ;
    let got = v * t - f * (k - r);
    let gk = got * k;
    let (vt, fg, fud, fxk) = (v * t, f * g, fu * d, fk * x);
    assert(vt * k == at + fg * t) by (nonlinear_arith)
        requires
            vt == v * t,
            at == a * t,
            a == v * k - fg,
    ;
    assert(fg * t == fbt + ft * k - ft * u) by (nonlinear_arith)
        requires
            fg == f * g,
            fbt == ft * b,
            ft == f * t,
            b == g - (k - u),
    ;
    assert(ft * u == fud - fuc) by (nonlinear_arith)
        requires
            ft == f * t,
            fud == fu * d,
            fuc == fu * c,
            fu == f * u,
            c == d - t,
    ;
    assert(fud == fe + fxk) by (nonlinear_arith)
        requires
            fud == fu * d,
            fu == f * u,
            fe == f * e,
            e == u * d - x * k,
            fxk == fk * x,
            fk == f * k,
    ;
    assert(fxk == fkh + fk * (r - s)) by (nonlinear_arith)
        requires
            fxk == fk * x,
            fkh == fk * h,
            h == x - (r - s),
    ;
    assert(ft * k - fk * (r - s) == (f * (k - r)) * k) by (nonlinear_arith)
        requires
            ft == f * t,
            fk == f * k,
            t == k - s,
    ;
    assert(gk == vt * k - (f * (k - r)) * k) by (nonlinear_arith)
        requires
            gk == got * k,
            got == vt - f * (k - r),
    ;
    assert(kkk >= 0) by (nonlinear_arith)
        requires
            kkk == kk * k,
            kk == k * k,
            k >= 0,
    ;
    assert(-(8 * kkk) <= gk * 0x100_0000 <= 8 * kkk);
    assert(-kk <= got * 0x20_0000 <= kk) by (nonlinear_arith)
        requires
            -(8 * kkk) <= gk * 0x100_0000 <= 8 * kkk,
            gk == got * k,
            kkk == kk * k,
            k > 0,
    ;
}

/// 80 of 255 parts.
proof fn lemma_rim_part()
    ensures
        ({
            let c = 255 * (Binary32 { bits: 0x3ea0_a0a1 }).value() - 80 * pow2(149);
            -pow2(149) <= c * 0x4_0000 <= pow2(149)
        }),
{
    let p = pow2(124);
    lemma2_to64();
    lemma_pow2_adds(124, 25);
    lemma_pow2_pos(124);
    assert(0x3ea0_a0a1nat / 0x80_0000 == 125 && 0x3ea0_a0a1nat % 0x80_0000 == 0x20_a0a1);
    assert((Binary32 { bits: 0x3ea0_a0a1 }).value() == 0xa0_a0a1 * p);
    assert(pow2(149) == p * 0x200_0000);
}

/// The middle opacity of a rim: 80 of 255 parts.
#[verifier::rlimit(40)]
proof fn lemma_rim_middle(full: Binary32)
    requires
        within_unit(full),
    ensures
        ({
            let mid = full.times(Binary32 { bits: 0x3ea0_a0a1 });
            let k = pow2(149) as int;
            &&& within_unit(mid)
            &&& mid.value() <= full.value()
            &&& -k <= (255 * mid.value() - 80 * full.value()) * 0x4000 <= k
        }),
{
    let part = Binary32 { bits: 0x3ea0_a0a1 };
    let one = Binary32 { bits: ONE };
    let k = pow2(149) as int;
    lemma_one_units();
    lemma_pow2_pos(149);
    lemma_large_one();
    lemma_units_order(full.mag(), ONE as nat);
    lemma_units_order(part.mag(), ONE as nat);
    let mid = full.times(part);
    lemma_unit_product(full, part);
    crate::binary32_laws::lemma_times_rises(part, one, full);
    crate::binary32_laws::lemma_times_one(full);
    lemma_units_order(mid.mag(), full.mag());
    lemma_rim_part();
    let (f, p, m) = (full.value(), part.value(), mid.value());
    let c = 255 * p - 80 * k;
    let fc = f * c;
    lemma_product_within(f, c * 0x4_0000, k, k);
    assert(f * (c * 0x4_0000) == fc * 0x4_0000 && 255 * (f * p) == fc + 80 * (f * k) && 2 * k * k
        == 2 * (k * k)) by (nonlinear_arith)
        requires
            fc == f * c,
            c == 255 * p - 80 * k,
    ;
    let e = 255 * m - 80 * f;
    let kk = k * k;
    assert(e * k == 255 * (m * k) - 80 * (f * k)) by (nonlinear_arith)
        requires
            e == 255 * m - 80 * f,
    ;
    assert(-kk <= (e * k) * 0x4000 <= kk);
    assert(-k <= e * 0x4000 <= k) by (nonlinear_arith)
        requires
            -kk <= (e * k) * 0x4000 <= kk,
            kk == k * k,
            k > 0,
    ;
}

/// The opacity before the stop of a rim.
#[verifier::rlimit(40)]
proof fn lemma_inner_off(r: Binary32, stop: Binary32, full: Binary32, mid: Binary32)
    requires
        within_unit(r),
        within_unit(full),
        within_unit(mid),
        mid.value() <= full.value(),
        !stop.negative(),
        0x3d4c_cccd <= stop.mag() <= 0x3f73_3333,
        r.mag() <= stop.mag(),
    ensures
        ({
            let v = full.plus(mid.minus(full).times(r.over(stop)));
            let k = pow2(149) as int;
            let off = v.value() * stop.value() - (full.value() * stop.value() + (mid.value()
                - full.value()) * r.value());
            -(k * k) <= off * 0x20_0000 <= k * k
        }),
{
    let k = pow2(149) as int;
    lemma_one_units();
    lemma_pow2_pos(149);
    lemma_large_one();
    lemma_stop_units(stop);
    lemma_units_order(r.mag(), stop.mag());
    lemma_units_order(full.mag(), ONE as nat);
    lemma_units_order(mid.mag(), ONE as nat);
    lemma_units_order(stop.mag(), ONE as nat);
    let u = r.over(stop);
    lemma_quotient_off(r, stop);
    lemma_units_order(u.mag(), ONE as nat);
    let o = full.opposite();
    assert(o.value() == -full.value() && o.finite());
    let m = mid.minus(full);
    assert(m == mid.plus(o));
    crate::glyph_laws::lemma_sum_within(mid, o, ONE as nat);
    lemma_sum_off(mid, o);
    lemma_units_order(m.mag(), ONE as nat);
    let w = m.times(u);
    lemma_signed_product(m, u);
    lemma_units_order(w.mag(), ONE as nat);
    let v = full.plus(w);
    lemma_small_sum(full, w);
    lemma_inner_total(
        r.value(),
        stop.value(),
        full.value(),
        mid.value(),
        u.value(),
        m.value(),
        w.value(),
        v.value(),
        k,
    );
}

/// A product of numbers within -1 to 1.
#[verifier::rlimit(40)]
proof fn lemma_signed_product(a: Binary32, b: Binary32)
    requires
        a.mag() <= ONE,
        b.mag() <= ONE,
    ensures
        ({
            let k = pow2(149) as int;
            let r = a.times(b);
            &&& r.mag() <= ONE
            &&& -(2 * k * k) <= (r.value() * k - a.value() * b.value()) * 0x100_0000 <= 2 * k * k
        }),
{
    let k = pow2(149) as int;
    lemma_one_units();
    lemma_pow2_pos(149);
    lemma_large_one();
    lemma_units_order(a.mag(), ONE as nat);
    lemma_units_order(b.mag(), ONE as nat);
    let (x, y) = (a.units(), b.units());
    assert(0 * k <= x * y <= k * k) by (nonlinear_arith)
        requires
            0 <= x <= k,
            0 <= y <= k,
    ;
    assert(mag_units(0) == 0);
    lemma_round32_between(x * y, k as nat, 0, ONE as nat);
    assert(a.times(b).mag() == round32(x * y, k as nat)) by {
        reveal(Binary32::times);
    }
    lemma_product_off(a, b);
    lemma_product_within(a.value(), b.value(), k, k);
    assert(0x80_0000 * k <= k * k && 2 * k * k == 2 * (k * k)) by (nonlinear_arith)
        requires
            k >= 0x100_0000,
    ;
}

#[verifier::rlimit(40)]
proof fn lemma_inner_total(
    r: int,
    s: int,
    f: int,
    mid: int,
    u: int,
    m: int,
    w: int,
    v: int,
    k: int,
)
    requires
        0 <= r <= s <= k,
        0 <= mid <= f <= k,
        0 <= u <= k,
        -k <= m <= k,
        -(r * k + 0x80_0000 * s) <= (u * s - r * k) * 0x100_0000 <= r * k + 0x80_0000 * s,
        -(f - mid) <= (m - (mid - f)) * 0x100_0000 <= f - mid,
        -(2 * k * k) <= (w * k - m * u) * 0x100_0000 <= 2 * k * k,
        -(2 * k) <= (v - (f + w)) * 0x100_0000 <= 2 * k,
        k >= 0x100_0000,
    ensures
        -(k * k) <= (v * s - (f * s + (mid - f) * r)) * 0x20_0000 <= k * k,
{
    let kk = k * k;
    let kkk = kk * k;
    assert(2 * k * k == 2 * kk) by (nonlinear_arith)
        requires
            kk == k * k,
    ;
    // the sum
    let a = v - (f + w);
    let sk = s * k;
    let ask = a * sk;
    lemma_product_within(s, k, k, k);
    lemma_product_within(a * 0x100_0000, sk, 2 * k, kk);
    assert((a * 0x100_0000) * sk == ask * 0x100_0000 && (2 * k) * kk == 2 * kkk)
        by (nonlinear_arith)
        requires
            ask == a * sk,
            kkk == kk * k,
    ;
    // the product
    let b = w * k - m * u;
    let bs = b * s;
    lemma_product_within(b * 0x100_0000, s, 2 * kk, k);
    assert((b * 0x100_0000) * s == bs * 0x100_0000 && (2 * kk) * k == 2 * kkk) by (nonlinear_arith)
        requires
            bs == b * s,
            kkk == kk * k,
    ;
    // the quotient
    let c = u * s - r * k;
    let mc = m * c;
    assert(0 <= r * k <= kk && 0x80_0000 * s <= kk) by (nonlinear_arith)
        requires
            0 <= r <= k,
            0 <= s <= k,
            kk == k * k,
            k >= 0x100_0000,
    ;
    lemma_product_within(m, c * 0x100_0000, k, 2 * kk);
    assert(m * (c * 0x100_0000) == mc * 0x100_0000 && k * (2 * kk) == 2 * kkk) by (nonlinear_arith)
        requires
            mc == m * c,
            kkk == kk * k,
    ;
    // the difference
    let d = m - (mid - f);
    let rk = r * k;
    let drk = d * rk;
    lemma_product_within(r, k, k, k);
    lemma_product_within(d * 0x100_0000, rk, k, kk);
    assert((d * 0x100_0000) * rk == drk * 0x100_0000 && k * kk == kkk) by (nonlinear_arith)
        requires
            drk == d * rk,
            kkk == kk * k,
    ;
    let (vs, fs, ws, mr) = (v * s, f * s, w * s, (mid - f) * r);
    let got = vs - (fs + mr);
    let gk = got * k;
    assert(ask == (vs - fs - ws) * k) by (nonlinear_arith)
        requires
            ask == a * sk,
            sk == s * k,
            a == v - (f + w),
            vs == v * s,
            fs == f * s,
            ws == w * s,
    ;
    let mus = (m * u) * s;
    assert(ws * k == bs + mus) by (nonlinear_arith)
        requires
            ws == w * s,
            bs == b * s,
            b == w * k - m * u,
            mus == (m * u) * s,
    ;
    assert(mus == mc + m * rk) by (nonlinear_arith)
        requires
            mus == (m * u) * s,
            mc == m * c,
            c == u * s - r * k,
            rk == r * k,
    ;
    assert(m * rk == drk + mr * k) by (nonlinear_arith)
        requires
            drk == d * rk,
            d == m - (mid - f),
            rk == r * k,
            mr == (mid - f) * r,
    ;
    assert(gk == ask + bs + mc + drk) by (nonlinear_arith)
        requires
            gk == (vs - (fs + mr)) * k,
            ask == (vs - fs - ws) * k,
            ws * k == bs + mus,
            mus == mc + m * rk,
            m * rk == drk + mr * k,
    ;
    assert(kkk >= 0) by (nonlinear_arith)
        requires
            kkk == kk * k,
            kk == k * k,
            k >= 0,
    ;
    assert(-(8 * kkk) <= gk * 0x100_0000 <= 8 * kkk);
    assert(-kk <= got * 0x20_0000 <= kk) by (nonlinear_arith)
        requires
            -(8 * kkk) <= gk * 0x100_0000 <= 8 * kkk,
            gk == got * k,
            kkk == kk * k,
            k > 0,
    ;
}

/// Between its stops the opacity of an orb is a straight line. A soft orb has its full opacity
/// up to its stop and falls from there to nothing at the edge. A rim falls from the full
/// opacity in the centre to 80 of 255 parts of it at its stop, and from there to nothing.
#[verifier::rlimit(40)]
pub proof fn lemma_falloff_is_straight(r: Binary32, blur: Binary32, opacity: Binary32)
    requires
        within_unit(r),
        r.mag() < ONE,
        within_unit(opacity),
        opacity.mag() > 0,
        !blur.nan_pattern(),
    ensures
        ({
            let k = pow2(149) as int;
            let (x, f) = (r.value(), opacity.value());
            let s = hold_stop(blur).value();
            let v = falloff(FalloffProfile::Soft, r, blur, opacity).value();
            &&& x <= s ==> v == f
            &&& x > s ==> -(k * k) <= (v * (k - s) - f * (k - x)) * 0x20_0000 <= k * k
        }),
        ({
            let k = pow2(149) as int;
            let (x, f) = (r.value(), opacity.value());
            let s = rim_stop(blur).value();
            let v = falloff(FalloffProfile::Rim, r, blur, opacity).value();
            &&& x <= s ==> -(k * k) <= (255 * (v * s) - (255 * (f * s) - 175 * (f * x))) * 0x1000
                <= k * k
            &&& x > s ==> -(k * k) <= (255 * (v * (k - s)) - 80 * (f * (k - x))) * 0x1000 <= k * k
        }),
{
    let k = pow2(149) as int;
    let zero = Binary32 { bits: 0 };
    lemma_one_units();
    lemma_pow2_pos(149);
    lemma_stops_within(blur);
    let (hold, rim) = (hold_stop(blur), rim_stop(blur));
    assert(unit_clamped(opacity) == opacity && r.larger(zero) == r);
    lemma_units_order(r.mag(), hold.mag());
    lemma_units_order(r.mag(), rim.mag());
    lemma_units_order(r.mag(), ONE as nat);
    lemma_units_order(opacity.mag(), ONE as nat);
    if hold.mag() < r.mag() {
        lemma_outer_off(r, hold, opacity);
    }
    let mid = opacity.times(Binary32 { bits: 0x3ea0_a0a1 });
    lemma_rim_middle(opacity);
    let e = 255 * mid.value() - 80 * opacity.value();
    let (x, f, m) = (r.value(), opacity.value(), mid.value());
    let s = rim.value();
    lemma_stop_units(rim);
    if rim.mag() < r.mag() {
        lemma_outer_off(r, rim, mid);
        let v = falloff(FalloffProfile::Rim, r, blur, opacity).value();
        lemma_product_within(e * 0x4000, k - x, k, k);
        assert((e * 0x4000) * (k - x) == (e * (k - x)) * 0x4000 && e * (k - x) == 255 * (m * (k
            - x)) - 80 * (f * (k - x))) by (nonlinear_arith)
            requires
                e == 255 * m - 80 * f,
        ;
    } else {
        lemma_inner_off(r, rim, opacity, mid);
        let v = falloff(FalloffProfile::Rim, r, blur, opacity).value();
        lemma_product_within(e * 0x4000, x, k, k);
        assert((e * 0x4000) * x == (e * x) * 0x4000 && e * x == 255 * (m * x) - 80 * (f * x)
            && (m - f) * x == m * x - f * x) by (nonlinear_arith)
            requires
                e == 255 * m - 80 * f,
        ;
    }
}

/// The limits of the stops lie outside of a 16th from both ends.
proof fn lemma_stop_limits(d: Binary32)
    requires
        within_unit(d),
        16 * d.units() >= pow2(149),
        16 * d.units() <= 15 * pow2(149),
    ensures
        d.clamped(Binary32 { bits: 0x3d4c_cccd }, Binary32 { bits: 0x3f73_3333 }) == d,
{
    lemma2_to64();
    lemma_pow2_adds(121, 28);
    lemma_pow2_adds(125, 24);
    lemma_pow2_pos(121);
    lemma_pow2_pos(125);
    assert(0x3d4c_cccdnat / 0x80_0000 == 122 && 0x3d4c_cccdnat % 0x80_0000 == 0x4c_cccd);
    assert(0x3f73_3333nat / 0x80_0000 == 126 && 0x3f73_3333nat % 0x80_0000 == 0x73_3333);
    assert(mag_units(0x3d4c_cccd) == 0xcc_cccd * pow2(121));
    assert(mag_units(0x3f73_3333) == 0xf3_3333 * pow2(125));
    lemma_units_order(0x3d4c_cccd, d.mag());
    lemma_units_order(d.mag(), 0x3f73_3333);
}

/// Four fifths.
proof fn lemma_four_fifths()
    ensures
        ({
            let c = 5 * (Binary32 { bits: 0x3f4c_cccd }).value() - 4 * pow2(149);
            -pow2(149) <= c * 0x40_0000 <= pow2(149)
        }),
        within_unit(Binary32 { bits: 0x3f4c_cccd }),
{
    let p = pow2(125);
    lemma2_to64();
    lemma_pow2_adds(125, 24);
    lemma_pow2_pos(125);
    assert(0x3f4c_cccdnat / 0x80_0000 == 126 && 0x3f4c_cccdnat % 0x80_0000 == 0x4c_cccd);
    assert((Binary32 { bits: 0x3f4c_cccd }).value() == 0xcc_cccd * p);
    assert(pow2(149) == p * 0x100_0000);
}

/// The more blur, the further inside lie the stops: that of a soft orb lies at 1 less the blur,
/// that of a rim at 1 less four fifths of it, where these are not too near to the ends.
#[verifier::rlimit(40)]
pub proof fn lemma_stops_follow_the_blur(blur: Binary32)
    requires
        within_unit(blur),
    ensures
        8 * blur.value() >= pow2(149) ==> -pow2(149) <= (5 * rim_stop(blur).value() - (5 * pow2(149)
            - 4 * blur.value())) * 0x4_0000 <= pow2(149),
        8 * blur.value() >= pow2(149) && 8 * blur.value() <= 7 * pow2(149) ==> -pow2(149) <= (
        hold_stop(blur).value() - (pow2(149) - blur.value())) * 0x4_0000 <= pow2(149),
{
    let one = Binary32 { bits: ONE };
    let part = Binary32 { bits: 0x3f4c_cccd };
    let k = pow2(149) as int;
    lemma_one_units();
    lemma_pow2_pos(149);
    lemma_large_one();
    lemma_units_order(blur.mag(), ONE as nat);
    assert(unit_clamped(blur) == blur);
    lemma_time_left(blur);
    lemma_four_fifths();
    let m = blur.times(part);
    lemma_unit_product(blur, part);
    lemma_time_left(m);
    let d = one.minus(m);
    let h = one.minus(blur);
    let (b, p, mv) = (blur.value(), part.value(), m.value());
    let c = 5 * p - 4 * k;
    let bc = b * c;
    lemma_product_within(b, c * 0x40_0000, k, k);
    assert(b * (c * 0x40_0000) == bc * 0x40_0000 && 5 * (b * p) == bc + 4 * (b * k) && 2 * k * k == 2
        * (k * k)) by (nonlinear_arith)
        requires
            bc == b * c,
            c == 5 * p - 4 * k,
    ;
    let e = 5 * mv - 4 * b;
    let kk = k * k;
    assert(e * k == 5 * (mv * k) - 4 * (b * k)) by (nonlinear_arith)
        requires
            e == 5 * mv - 4 * b,
    ;
    assert(-kk <= (e * k) * 0x8_0000 <= kk);
    assert(-k <= e * 0x8_0000 <= k) by (nonlinear_arith)
        requires
            -kk <= (e * k) * 0x8_0000 <= kk,
            kk == k * k,
            k > 0,
    ;
    if 8 * b >= k {
        lemma_stop_limits(d);
        if 8 * b <= 7 * k {
            lemma_stop_limits(h);
        }
    }
}

} // verus!
