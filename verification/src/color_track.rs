//! Colours along a track of evenly spaced samples.

use crate::binary32::{mag_units, round32, Binary32, ONE};
use crate::binary32_laws::{
    lemma_difference_units, lemma_no_way_towards, lemma_one_units, lemma_rank_orders_values,
    lemma_round32_between, lemma_round32_exact, lemma_round32_monotone, lemma_sum_units,
    lemma_times_one, lemma_times_rises, lemma_units_order,
};
use crate::integers::{lemma_of_int_exact, lemma_rounded_between, of_int};
use crate::rounding::lemma_pow2_values;
use vstd::arithmetic::div_mod::{
    lemma_div_by_multiple, lemma_div_is_ordered, lemma_fundamental_div_mod,
};
use vstd::arithmetic::power2::{
    lemma2_to64, lemma_pow2_adds, lemma_pow2_pos, lemma_pow2_strictly_increases, pow2,
};
use vstd::prelude::*;

verus! {

/// The channel at `part` of the way from `x` to `y`, rounded.
pub open spec fn channel_between(x: u8, y: u8, part: Binary32) -> u8 {
    let a = of_int(false, x as nat);
    let b = of_int(false, y as nat);
    a.plus(b.minus(a).times(part)).rounded().clamped(
        Binary32 { bits: 0 },
        Binary32 { bits: 0x437f_0000 },
    ).as_unsigned(0xff) as u8
}

/// The colour at `part` of the way from `a` to `b`.
pub open spec fn color_between(a: [u8; 3], b: [u8; 3], part: Binary32) -> Seq<u8> {
    seq![
        channel_between(a[0], b[0], part),
        channel_between(a[1], b[1], part),
        channel_between(a[2], b[2], part),
    ]
}

/// The channel at `part` of the way from `x` to `y`, rounded.
pub fn mix_channel(x: u8, y: u8, part: Binary32) -> (r: u8)
    ensures
        r == channel_between(x, y, part),
{
    let a = Binary32::from_u64(x as u64);
    let b = Binary32::from_u64(y as u64);
    a.add(b.sub(a).mul(part)).round().clamp(
        Binary32 { bits: 0 },
        Binary32 { bits: 0x437f_0000 },
    ).to_u8()
}

/// The colour at `part` of the way from `a` to `b`.
pub fn mix_color(a: [u8; 3], b: [u8; 3], part: Binary32) -> (r: [u8; 3])
    ensures
        r@ == color_between(a, b, part),
{
    let r: [u8; 3] = [
        mix_channel(a[0], b[0], part),
        mix_channel(a[1], b[1], part),
        mix_channel(a[2], b[2], part),
    ];
    assert(r@ =~= color_between(a, b, part));
    r
}

/// How far `t` lies along a track of `n` samples, in samples.
pub open spec fn track_place(n: nat, t: Binary32) -> Binary32 {
    t.times(of_int(false, (n - 1) as nat))
}

/// The sample at or before `t`.
pub open spec fn track_index(n: nat, t: Binary32) -> nat {
    track_place(n, t).floored().as_unsigned(0xffff_ffff_ffff_ffff)
}

/// The colour of a track at `t`: black for an empty one, the first sample up to 0 and for
/// what is not a number, the last one from 1 on, and between two samples a mix of them.
pub open spec fn color_at(track: Seq<[u8; 3]>, t: Binary32) -> Seq<u8> {
    let n = track.len();
    if n == 0 {
        seq![0u8, 0, 0]
    } else if n == 1 || t.nan_pattern() || t.at_most(Binary32 { bits: 0 }) {
        track[0]@
    } else if (Binary32 { bits: ONE }).at_most(t) || track_index(n, t) >= n - 1 {
        track[n - 1]@
    } else {
        let i = track_index(n, t) as int;
        color_between(
            track[i],
            track[i + 1],
            track_place(n, t).minus(of_int(false, i as nat)),
        )
    }
}

/// The colour of a track at `t`.
pub fn interpolate_color_track(track: &[[u8; 3]], t: Binary32) -> (r: [u8; 3])
    ensures
        r@ == color_at(track@, t),
{
    let n: usize = track.len();
    if n == 0 {
        let r: [u8; 3] = [0, 0, 0];
        assert(r@ =~= seq![0u8, 0, 0]);
        return r;
    }
    if n == 1 || t.is_nan() || t.le(Binary32 { bits: 0 }) {
        return track[0];
    }
    if (Binary32 { bits: ONE }).le(t) {
        return track[n - 1];
    }
    let place = t.mul(Binary32::from_u64((n - 1) as u64));
    let i: u64 = place.floor().to_u64();
    if i >= (n - 1) as u64 {
        return track[n - 1];
    }
    let part = place.sub(Binary32::from_u64(i));
    mix_color(track[i as usize], track[i as usize + 1], part)
}

/// The ends of a track are its first and last sample.
pub proof fn lemma_track_ends(track: Seq<[u8; 3]>)
    requires
        track.len() > 0,
    ensures
        color_at(track, Binary32 { bits: 0 }) == track[0]@,
        color_at(track, Binary32 { bits: ONE }) == track[track.len() - 1]@,
{
}

/// A track of one colour has that colour everywhere.
pub proof fn lemma_single_sample(track: Seq<[u8; 3]>, t: Binary32)
    requires
        track.len() == 1,
    ensures
        color_at(track, t) == track[0]@,
{
}

/// The step from a channel to one that is not smaller.
proof fn lemma_channel_step(x: u8, y: u8)
    requires
        x <= y,
    ensures
        of_int(false, y as nat).minus(of_int(false, x as nat)) == of_int(false, (y - x) as nat),
{
    let k = pow2(149);
    lemma_of_int_exact(false, x as nat);
    lemma_of_int_exact(false, y as nat);
    assert(y * k - x * k == (y - x) * k) by (nonlinear_arith);
    assert((y - x) * k >= 0) by (nonlinear_arith)
        requires
            x <= y,
            k >= 0,
    ;
    lemma_difference_units(of_int(false, y as nat), of_int(false, x as nat));
}

/// What a mix of two channels adds up to before it is rounded.
spec fn channel_sum(x: u8, y: u8, part: Binary32) -> Binary32 {
    let a = of_int(false, x as nat);
    let b = of_int(false, y as nat);
    a.plus(b.minus(a).times(part))
}

/// A part of a step is at most the step.
proof fn lemma_part_of_step(n: nat, part: Binary32)
    requires
        n <= 255,
        !part.negative(),
        part.mag() <= ONE,
    ensures
        of_int(false, n).times(part).finite(),
        !of_int(false, n).times(part).negative(),
        of_int(false, n).times(part).units() <= n * pow2(149),
{
    let one = Binary32 { bits: ONE };
    let d = of_int(false, n);
    lemma_of_int_exact(false, n);
    lemma_units_order(part.mag(), ONE as nat);
    lemma_times_rises(part, one, d);
    lemma_times_one(d);
    lemma_units_order(d.times(part).mag(), d.mag());
}

proof fn lemma_channel_sum(x: u8, y: u8, part: Binary32)
    requires
        x <= y,
        !part.negative(),
        part.mag() <= ONE,
    ensures
        ({
            let s = channel_sum(x, y, part);
            let m = of_int(false, (y - x) as nat).times(part);
            &&& s.finite()
            &&& !s.negative()
            &&& !s.coarse()
            &&& s.mag() == round32((x * pow2(149) + m.units()) as nat, 1)
            &&& x * pow2(149) <= s.units() <= y * pow2(149)
            &&& m.finite()
            &&& !m.negative()
        }),
{
    let k = pow2(149);
    lemma_pow2_pos(149);
    lemma_channel_step(x, y);
    let a = of_int(false, x as nat);
    let b = of_int(false, y as nat);
    let m = of_int(false, (y - x) as nat).times(part);
    lemma_part_of_step((y - x) as nat, part);
    lemma_of_int_exact(false, x as nat);
    lemma_of_int_exact(false, y as nat);
    lemma_sum_units(a, m);
    assert(x * k + (y - x) * k == y * k) by (nonlinear_arith);
    let s = channel_sum(x, y, part);
    let v = (x * k + m.units()) as nat;
    assert(a.units() * 1 <= v <= b.units() * 1);
    lemma_round32_between(v, 1, a.mag(), b.mag());
    lemma_units_order(a.mag(), s.mag());
    lemma_units_order(s.mag(), b.mag());
    lemma_byte_not_coarse(b, y);
}

/// Up to 255, a number has places after the point.
proof fn lemma_byte_not_coarse(b: Binary32, y: u8)
    requires
        b == of_int(false, y as nat),
    ensures
        b.mag() <= 0x437f_0000,
{
    let k = pow2(149);
    lemma_of_int_exact(false, y as nat);
    lemma_of_int_exact(false, 255);
    lemma_byte_mags();
    assert(y * k <= 255 * k) by (nonlinear_arith)
        requires
            y <= 255,
            k >= 0,
    ;
    lemma_units_order(b.mag(), 0x437f_0000);
}

/// 255 in single precision.
pub(crate) proof fn lemma_byte_mags()
    ensures
        of_int(false, 255) == (Binary32 { bits: 0x437f_0000 }),
{
    let k = pow2(149);
    lemma_of_int_exact(false, 255);
    lemma_pow2_values();
    lemma_pow2_adds(16, 133);
    lemma2_to64();
    let x = Binary32 { bits: 0x437f_0000 };
    assert(0x437f_0000nat / 0x80_0000 == 134);
    assert(0x437f_0000nat % 0x80_0000 == 0x7f_0000);
    assert(x.units() == 0xff_0000 * pow2(133));
    assert(0xff_0000 * pow2(133) == 255 * (0x1_0000 * pow2(133))) by (nonlinear_arith);
    lemma_rank_orders_values(x, of_int(false, 255));
}

/// Rounding to the nearest integer keeps order.
pub(crate) proof fn lemma_near_rises(s: Binary32, t: Binary32)
    requires
        s.units() <= t.units(),
    ensures
        s.whole_near() <= t.whole_near(),
{
    let c = pow2(149);
    lemma_pow2_pos(149);
    lemma_div_is_ordered(s.units() as int, t.units() as int, c as int);
    lemma_fundamental_div_mod(s.units() as int, c as int);
    lemma_fundamental_div_mod(t.units() as int, c as int);
}

/// The byte that a sum within `0..=255` comes to.
pub(crate) proof fn lemma_byte_of(s: Binary32, low: u8, high: u8)
    requires
        s.finite(),
        !s.negative(),
        !s.coarse(),
        low * pow2(149) <= s.units() <= high * pow2(149),
    ensures
        low <= s.whole_near() <= high,
        s.rounded().clamped(Binary32 { bits: 0 }, Binary32 { bits: 0x437f_0000 }).as_unsigned(0xff)
            == s.whole_near(),
{
    lemma_rounded_between(s, low as nat, high as nat);
    let w = s.whole_near();
    let x = of_int(false, w);
    lemma_of_int_exact(false, w);
    lemma_of_int_exact(false, 255);
    lemma_byte_mags();
    let k = pow2(149);
    assert(w * k <= 255 * k) by (nonlinear_arith)
        requires
            w <= 255,
            k >= 0,
    ;
    lemma_units_order(x.mag(), 0x437f_0000);
}

/// A mix of two channels lies between them and follows its part.
proof fn lemma_channel_rises(x: u8, y: u8, p: Binary32, q: Binary32)
    requires
        x <= y,
        !p.negative(),
        !q.negative(),
        p.mag() <= q.mag() <= ONE,
    ensures
        x <= channel_between(x, y, p) <= channel_between(x, y, q) <= y,
{
    let d = of_int(false, (y - x) as nat);
    lemma_of_int_exact(false, (y - x) as nat);
    lemma_channel_sum(x, y, p);
    lemma_channel_sum(x, y, q);
    lemma_units_order(p.mag(), q.mag());
    lemma_times_rises(p, q, d);
    let (m, o) = (d.times(p), d.times(q));
    lemma_units_order(m.mag(), o.mag());
    let (s, t) = (channel_sum(x, y, p), channel_sum(x, y, q));
    lemma_round32_monotone(
        (x * pow2(149) + m.units()) as nat,
        1,
        (x * pow2(149) + o.units()) as nat,
        1,
    );
    lemma_units_order(s.mag(), t.mag());
    lemma_near_rises(s, t);
    lemma_byte_of(s, x, y);
    lemma_byte_of(t, x, y);
}

/// A number's integer part is a number too.
proof fn lemma_whole_exact(p: Binary32)
    requires
        p.finite(),
        !p.negative(),
    ensures
        of_int(false, p.whole()).finite(),
        !of_int(false, p.whole()).negative(),
        of_int(false, p.whole()).units() == p.whole() * pow2(149),
        p.floored().finite(),
        !p.floored().negative(),
        p.floored().whole() == p.whole(),
        p.units() == p.whole() * pow2(149) + p.rest(),
        p.rest() < pow2(149),
{
    let k = pow2(149);
    lemma_pow2_pos(149);
    lemma_fundamental_div_mod(p.units() as int, k as int);
    assert(k * p.whole() == p.whole() * k) by (nonlinear_arith);
    let e = p.exponent();
    let f = p.mag() % 0x80_0000;
    if p.coarse() {
        let m = (f + 0x80_0000) as nat;
        let t = (e - 149) as nat;
        lemma_pow2_adds(t, 149);
        let w = m * pow2(t);
        assert(p.units() == w * k) by (nonlinear_arith)
            requires
                p.units() == m * pow2(e),
                pow2(e) == pow2(t) * k,
                w == m * pow2(t),
        ;
        lemma_div_by_multiple(w as int, k as int);
        lemma_round32_exact(p.mag());
        assert(of_int(false, p.whole()) == p);
    } else {
        lemma_pow2_values();
        lemma_pow2_pos(e);
        lemma_pow2_strictly_increases(e, 149);
        let u = p.units();
        let c = pow2(e);
        if p.mag() / 0x80_0000 == 0 {
            assert((f + 0x80_0000) * 1 == f + 0x80_0000);
        }
        assert(u < 0x100_0000 * k) by (nonlinear_arith)
            requires
                u <= (f + 0x80_0000) * c,
                f < 0x80_0000,
                c < k,
        ;
        let w = p.whole();
        assert(w < 0x100_0000) by (nonlinear_arith)
            requires
                w * k <= u,
                u < 0x100_0000 * k,
                k > 0,
        ;
        lemma_of_int_exact(false, w);
    }
}

/// What a place leaves of its integer part.
proof fn lemma_place_part(p: Binary32)
    requires
        p.finite(),
        !p.negative(),
    ensures
        ({
            let part = p.minus(of_int(false, p.whole()));
            &&& !part.negative()
            &&& part.mag() == round32(p.rest(), 1)
            &&& part.mag() <= ONE
        }),
{
    lemma_whole_exact(p);
    lemma_difference_units(p, of_int(false, p.whole()));
    lemma_one_units();
    assert(mag_units(0) == 0);
    lemma_round32_between(p.rest(), 1, 0, ONE as nat);
}

/// The largest index is a finite number.
proof fn lemma_index_finite(n: nat)
    requires
        n <= 0xffff_ffff_ffff_ffff,
    ensures
        of_int(false, n).finite(),
        !of_int(false, n).negative(),
{
    let k = pow2(149);
    lemma_pow2_values();
    lemma_pow2_adds(23, 190);
    lemma_pow2_adds(64, 149);
    assert(0x5f80_0000nat / 0x80_0000 == 191);
    assert(mag_units(0x5f80_0000) == pow2(213));
    assert(n * k <= 0x1_0000_0000_0000_0000 * k) by (nonlinear_arith)
        requires
            n <= 0xffff_ffff_ffff_ffff,
            k >= 0,
    ;
    assert(mag_units(0) == 0);
    lemma_round32_between(n * k, 1, 0, 0x5f80_0000);
}

/// The place of a time strictly between 0 and 1.
proof fn lemma_track_place(n: nat, t: Binary32)
    requires
        2 <= n <= 0xffff_ffff_ffff_ffff,
        !t.nan_pattern(),
        !t.at_most(Binary32 { bits: 0 }),
        !(Binary32 { bits: ONE }).at_most(t),
    ensures
        track_place(n, t).finite(),
        !track_place(n, t).negative(),
        track_index(n, t) < n - 1 ==> track_index(n, t) == track_place(n, t).whole(),
        track_index(n, t) >= n - 1 ==> track_place(n, t).whole() >= n - 1,
{
    let last = of_int(false, (n - 1) as nat);
    let one = Binary32 { bits: ONE };
    lemma_index_finite((n - 1) as nat);
    lemma_units_order(t.mag(), ONE as nat);
    lemma_times_rises(t, one, last);
    lemma_times_one(last);
    lemma_whole_exact(track_place(n, t));
}

/// Whether a channel never falls along a track.
pub open spec fn channel_rises(track: Seq<[u8; 3]>, c: int) -> bool {
    forall|i: int, j: int|
        0 <= i <= j < track.len() ==> #[trigger] track[i]@[c] <= #[trigger] track[j]@[c]
}

/// One channel of a colour between two samples.
proof fn lemma_channel_of_color(track: Seq<[u8; 3]>, c: int, t: Binary32)
    requires
        track.len() >= 2,
        0 <= c < 3,
        !t.nan_pattern(),
        !t.at_most(Binary32 { bits: 0 }),
        !(Binary32 { bits: ONE }).at_most(t),
        track_index(track.len(), t) < track.len() - 1,
    ensures
        ({
            let i = track_index(track.len(), t) as int;
            let part = track_place(track.len(), t).minus(of_int(false, i as nat));
            color_at(track, t)[c] == channel_between(track[i]@[c], track[i + 1]@[c], part)
        }),
{
    assert(c == 0 || c == 1 || c == 2);
}

/// A colour between two samples, in one channel that never falls.
proof fn lemma_between_samples(track: Seq<[u8; 3]>, c: int, t: Binary32)
    requires
        2 <= track.len() <= 0xffff_ffff_ffff_ffff,
        0 <= c < 3,
        channel_rises(track, c),
        !t.nan_pattern(),
        !t.at_most(Binary32 { bits: 0 }),
        !(Binary32 { bits: ONE }).at_most(t),
        track_index(track.len(), t) < track.len() - 1,
    ensures
        ({
            let i = track_index(track.len(), t) as int;
            let place = track_place(track.len(), t);
            let part = place.minus(of_int(false, i as nat));
            &&& color_at(track, t)[c] == channel_between(track[i]@[c], track[i + 1]@[c], part)
            &&& track[i]@[c] <= color_at(track, t)[c] <= track[i + 1]@[c]
            &&& !part.negative()
            &&& part.mag() == round32(place.rest(), 1) <= ONE
            &&& i == place.whole()
        }),
{
    let n = track.len();
    let i = track_index(n, t) as int;
    lemma_track_place(n, t);
    lemma_place_part(track_place(n, t));
    lemma_channel_of_color(track, c, t);
    let part = track_place(n, t).minus(of_int(false, i as nat));
    lemma_channel_rises(track[i]@[c], track[i + 1]@[c], part, part);
}

/// A colour of a track lies between its first and last sample in a channel that never falls.
pub proof fn lemma_color_within(track: Seq<[u8; 3]>, c: int, t: Binary32)
    requires
        0 < track.len() <= 0xffff_ffff_ffff_ffff,
        0 <= c < 3,
        channel_rises(track, c),
    ensures
        track[0]@[c] <= color_at(track, t)[c] <= track[track.len() - 1]@[c],
{
    let n = track.len();
    if n > 1 && !t.nan_pattern() && !t.at_most(Binary32 { bits: 0 }) && !(Binary32 {
        bits: ONE,
    }).at_most(t) && track_index(n, t) < n - 1 {
        lemma_between_samples(track, c, t);
    }
}

/// An earlier time has no later place.
proof fn lemma_place_rises(n: nat, t: Binary32, u: Binary32)
    requires
        2 <= n <= 0xffff_ffff_ffff_ffff,
        t.at_most(u),
        !t.at_most(Binary32 { bits: 0 }),
        !(Binary32 { bits: ONE }).at_most(u),
    ensures
        track_place(n, t).units() <= track_place(n, u).units(),
        track_place(n, t).whole() <= track_place(n, u).whole(),
{
    let (p, q) = (track_place(n, t), track_place(n, u));
    lemma_index_finite((n - 1) as nat);
    lemma_units_order(t.mag(), u.mag());
    lemma_times_rises(t, u, of_int(false, (n - 1) as nat));
    lemma_units_order(p.mag(), q.mag());
    lemma_pow2_pos(149);
    lemma_div_is_ordered(p.units() as int, q.units() as int, pow2(149) as int);
}

proof fn lemma_color_rises_inside(track: Seq<[u8; 3]>, c: int, t: Binary32, u: Binary32)
    requires
        2 <= track.len() <= 0xffff_ffff_ffff_ffff,
        0 <= c < 3,
        channel_rises(track, c),
        t.at_most(u),
        !t.at_most(Binary32 { bits: 0 }),
        !(Binary32 { bits: ONE }).at_most(u),
        track_index(track.len(), u) < track.len() - 1,
    ensures
        color_at(track, t)[c] <= color_at(track, u)[c],
{
    let n = track.len();
    let (p, q) = (track_place(n, t), track_place(n, u));
    lemma_track_place(n, t);
    lemma_track_place(n, u);
    lemma_place_rises(n, t, u);
    lemma_between_samples(track, c, t);
    lemma_between_samples(track, c, u);
    let i = p.whole() as int;
    if i == q.whole() {
        lemma_whole_exact(p);
        lemma_whole_exact(q);
        lemma_round32_monotone(p.rest(), 1, q.rest(), 1);
        lemma_channel_rises(
            track[i]@[c],
            track[i + 1]@[c],
            p.minus(of_int(false, i as nat)),
            q.minus(of_int(false, i as nat)),
        );
    }
}

/// Where a channel never falls along a track, it never falls from one time to a later one.
pub proof fn lemma_color_rises(track: Seq<[u8; 3]>, c: int, t: Binary32, u: Binary32)
    requires
        0 < track.len() <= 0xffff_ffff_ffff_ffff,
        0 <= c < 3,
        channel_rises(track, c),
        t.at_most(u),
    ensures
        color_at(track, t)[c] <= color_at(track, u)[c],
{
    let n = track.len();
    lemma_color_within(track, c, t);
    lemma_color_within(track, c, u);
    if n > 1 && !t.at_most(Binary32 { bits: 0 }) && !(Binary32 { bits: ONE }).at_most(u)
        && track_index(n, u) < n - 1 {
        lemma_color_rises_inside(track, c, t, u);
    }
}

/// A mix starts at its first channel.
proof fn lemma_mix_starts(x: u8, y: u8)
    ensures
        channel_between(x, y, Binary32 { bits: 0 }) == x,
{
    let a = of_int(false, x as nat);
    let b = of_int(false, y as nat);
    lemma_of_int_exact(false, x as nat);
    lemma_of_int_exact(false, y as nat);
    lemma_byte_not_coarse(a, x);
    lemma_no_way_towards(a, b, Binary32 { bits: 0 });
    lemma_byte_of(a, x, x);
}

/// A mix starts at its first colour.
pub proof fn lemma_color_mix_starts(a: [u8; 3], b: [u8; 3])
    ensures
        color_between(a, b, Binary32 { bits: 0 }) == a@,
{
    lemma_mix_starts(a[0], b[0]);
    lemma_mix_starts(a[1], b[1]);
    lemma_mix_starts(a[2], b[2]);
    assert(color_between(a, b, Binary32 { bits: 0 }) =~= a@);
}

} // verus!
