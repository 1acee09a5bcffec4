//! The weights of the clusters as shares of a whole.

use crate::binary32::{mag_units, Binary32};
use crate::binary64::{double, lemma_double_exact, lemma_double_ratio, lemma_single_unit};
use crate::binary64::{round64, Binary64, INF64};
use crate::cluster::{
    by_weight, cluster_at, found_clusters, lemma_by_weight, lemma_groups_share_the_pixels,
    lemma_member_count, lemma_weigh_in_members, member_count, member_total, weigh_in, Cluster,
};
use crate::rounding::{half_even, lemma_pow2_values, ulp_shift};
use crate::scaling::{lemma_round32_close, lemma_rounding_close};
use vstd::arithmetic::power2::{lemma_pow2_adds, lemma_pow2_pos, lemma_pow2_unfold, pow2};
use vstd::prelude::*;

verus! {

/// Rounding to double precision changes a number that is not subnormal by less than one
/// part in `2^53`.
pub(crate) proof fn lemma_round64_close(n: nat, d: nat)
    requires
        d > 0,
        n >= 0x10_0000_0000_0000 * d,
        round64(n, d) < INF64,
    ensures
        ({
            let u = (Binary64 { bits: round64(n, d) as u64 }).units();
            &&& (u * d) * 0x20_0000_0000_0000 <= n * 0x20_0000_0000_0001
            &&& (u * d) * 0x20_0000_0000_0000 >= n * 0x1f_ffff_ffff_ffff
        }),
{
    let s = ulp_shift(53, n, d);
    let w = pow2(s);
    let c = d * w;
    let k = half_even(n, c);
    lemma_pow2_values();
    lemma_rounding_close(53, n, d);
    let m = s * 0x10_0000_0000_0000 + k;
    let x = Binary64 { bits: m as u64 };
    assert(x.units() == k * w) by {
        if k < 0x20_0000_0000_0000 {
            assert(m / 0x10_0000_0000_0000 == s + 1);
            assert(m % 0x10_0000_0000_0000 == k - 0x10_0000_0000_0000);
        } else {
            assert(m / 0x10_0000_0000_0000 == s + 2 && m % 0x10_0000_0000_0000 == 0);
            lemma_pow2_unfold(s + 1);
            assert(0x10_0000_0000_0000 * (2 * w) == 0x20_0000_0000_0000 * w) by (nonlinear_arith);
        }
    }
    assert((k * w) * d == k * c) by (nonlinear_arith)
        requires
            c == d * w,
    ;
}

/// The quotient of two counts in double precision.
proof fn lemma_ratio_close(count: nat, total: nat)
    requires
        0 < count <= total <= 0x1_0000,
    ensures
        ({
            let x = double(count).over(double(total));
            let k = pow2(1074);
            &&& x.finite()
            &&& (x.units() * total) * 0x20_0000_0000_0000 <= (count * k) * 0x20_0000_0000_0001
            &&& (x.units() * total) * 0x20_0000_0000_0000 >= (count * k) * 0x1f_ffff_ffff_ffff
        }),
{
    let k = pow2(1074);
    lemma_pow2_values();
    lemma_pow2_pos(1074);
    lemma_double_exact(count);
    lemma_double_exact(total);
    lemma_double_ratio(count, total);
    let x = double(count).over(double(total));
    let (n, d) = ((count * k) * k, total * k);
    lemma_pow2_adds(128, 946);
    lemma_pow2_pos(946);
    assert(k >= 0x10_0000_0000_0000_0000) by (nonlinear_arith)
        requires
            k == pow2(128) * pow2(946),
            pow2(128) == 0x1_0000_0000_0000_0000_0000_0000_0000_0000,
            pow2(946) >= 1,
    ;
    assert(d > 0) by (nonlinear_arith)
        requires
            d == total * k,
            total > 0,
            k > 0,
    ;
    assert(n >= 0x10_0000_0000_0000 * d) by (nonlinear_arith)
        requires
            n == (count * k) * k,
            d == total * k,
            count >= 1,
            total <= 0x1_0000,
            k >= 0x10_0000_0000_0000_0000,
    ;
    lemma_round64_close(n, d);
    let u = x.units();
    assert((u * d) * 0x20_0000_0000_0000 == ((u * total) * 0x20_0000_0000_0000) * k)
        by (nonlinear_arith)
        requires
            d == total * k,
    ;
    assert(n * 0x20_0000_0000_0001 == ((count * k) * 0x20_0000_0000_0001) * k)
        by (nonlinear_arith)
        requires
            n == (count * k) * k,
    ;
    assert(n * 0x1f_ffff_ffff_ffff == ((count * k) * 0x1f_ffff_ffff_ffff) * k)
        by (nonlinear_arith)
        requires
            n == (count * k) * k,
    ;
    let (a, b, c) = (
        (u * total) * 0x20_0000_0000_0000,
        (count * k) * 0x20_0000_0000_0001,
        (count * k) * 0x1f_ffff_ffff_ffff,
    );
    assert(c <= a <= b) by (nonlinear_arith)
        requires
            c * k <= a * k <= b * k,
            k > 0,
    ;
}

/// The weight of `count` pixels of `total`.
pub open spec fn share(count: nat, total: nat) -> Binary32 {
    double(count).over(double(total)).single()
}

/// A share is its count over the total, up to one part in `2^23`.
pub(crate) proof fn lemma_share_close(count: nat, total: nat)
    requires
        0 < count <= total <= 0x1_0000,
    ensures
        !share(count, total).negative(),
        share(count, total).mag() > 0,
        share(count, total).finite(),
        (share(count, total).units() * total) * 0x80_0000 <= (count * pow2(149)) * 0x80_0001,
        (share(count, total).units() * total) * 0x80_0000 >= (count * pow2(149)) * 0x7f_ffff,
{
    let x = double(count).over(double(total));
    let w = share(count, total);
    let (p, k, q) = (pow2(1074), pow2(149), pow2(925));
    lemma_pow2_adds(149, 925);
    lemma_pow2_values();
    lemma_pow2_pos(149);
    lemma_pow2_pos(925);
    lemma_double_ratio(count, total);
    lemma_ratio_close(count, total);
    lemma_single_unit(x);
    let u = x.units();
    lemma_pow2_adds(64, 85);
    lemma_pow2_pos(85);
    assert(u >= 0x80_0000 * q) by (nonlinear_arith)
        requires
            (u * total) * 0x20_0000_0000_0000 >= (count * p) * 0x1f_ffff_ffff_ffff,
            p == k * q,
            k >= 0x1_0000_0000_0000_0000,
            1 <= count,
            0 < total <= 0x1_0000,
            q > 0,
    {
        assert(count * p >= 0x1_0000_0000_0000_0000 * q);
        assert(u * total >= 0x1_0000_0000_0000 * q);
    }
    lemma_round32_close(u, q);
    let v = w.units();
    lemma_share_parts(v, u, count, total, k, q);
    assert(v > 0) by (nonlinear_arith)
        requires
            (v * total) * 0x80_0000 >= (count * k) * 0x7f_ffff,
            count >= 1,
            k > 0,
            total > 0,
    {
        assert(count * k >= 1);
    }
    assert(mag_units(0) == 0);
}

/// Both roundings together.
proof fn lemma_share_parts(v: nat, u: nat, count: nat, total: nat, k: nat, q: nat)
    requires
        (v * q) * 0x100_0000 <= u * 0x100_0001,
        (v * q) * 0x100_0000 >= u * 0xff_ffff,
        (u * total) * 0x20_0000_0000_0000 <= (count * (k * q)) * 0x20_0000_0000_0001,
        (u * total) * 0x20_0000_0000_0000 >= (count * (k * q)) * 0x1f_ffff_ffff_ffff,
        q > 0,
    ensures
        (v * total) * 0x80_0000 <= (count * k) * 0x80_0001,
        (v * total) * 0x80_0000 >= (count * k) * 0x7f_ffff,
{
    let (a, b, e) = ((v * total) * q, u * total, (count * k) * q);
    assert(a * 0x100_0000 <= b * 0x100_0001 && a * 0x100_0000 >= b * 0xff_ffff)
        by (nonlinear_arith)
        requires
            a == (v * total) * q,
            b == u * total,
            (v * q) * 0x100_0000 <= u * 0x100_0001,
            (v * q) * 0x100_0000 >= u * 0xff_ffff,
    {
        assert(((v * q) * 0x100_0000) * total == a * 0x100_0000);
        assert((u * 0x100_0001) * total == b * 0x100_0001);
        assert((u * 0xff_ffff) * total == b * 0xff_ffff);
    }
    assert(count * (k * q) == e) by (nonlinear_arith)
        requires
            e == (count * k) * q,
    ;
    assert(a * 0x80_0000 <= e * 0x80_0001 && a * 0x80_0000 >= e * 0x7f_ffff);
    let (x, y) = (v * total, count * k);
    assert((x * q) * 0x80_0000 == (x * 0x80_0000) * q && (y * q) * 0x80_0001 == (y * 0x80_0001) * q
        && (y * q) * 0x7f_ffff == (y * 0x7f_ffff) * q) by (nonlinear_arith);
    let (f, g, h) = (x * 0x80_0000, y * 0x80_0001, y * 0x7f_ffff);
    assert(h <= f <= g) by (nonlinear_arith)
        requires
            h * q <= f * q <= g * q,
            q > 0,
    ;
}

/// The sum of the weights, in units.
pub open spec fn weight_sum(s: Seq<Cluster>) -> nat
    decreases s.len(),
{
    if s.len() == 0 {
        0
    } else {
        weight_sum(s.drop_last()) + s.last().weight.units()
    }
}

/// Whether the weights are shares of one whole: each is more than nothing, and together they
/// come to 1, up to one part in `2^23`.
pub open spec fn whole_shared(s: Seq<Cluster>) -> bool {
    &&& forall|i: int|
        0 <= i < s.len() ==> (#[trigger] s[i]).weight.mag() > 0 && !s[i].weight.negative()
    &&& 0x7f_ffff * pow2(149) <= 0x80_0000 * weight_sum(s) <= 0x80_0001 * pow2(149)
}

proof fn lemma_weigh_in_sum(s: Seq<Cluster>, c: Cluster)
    ensures
        weight_sum(weigh_in(s, c)) == weight_sum(s) + c.weight.units(),
    decreases s.len(),
{
    if s.len() == 0 || s.last().weight.total_rank() >= c.weight.total_rank() {
        assert(s.push(c).drop_last() =~= s);
    } else {
        let w = weigh_in(s.drop_last(), c);
        lemma_weigh_in_sum(s.drop_last(), c);
        assert(w.push(s.last()).drop_last() =~= w);
    }
}

/// Ordering keeps the sum of the weights.
proof fn lemma_by_weight_sum(s: Seq<Cluster>)
    ensures
        weight_sum(by_weight(s)) == weight_sum(s),
    decreases s.len(),
{
    if s.len() > 0 {
        lemma_by_weight_sum(s.drop_last());
        lemma_weigh_in_sum(by_weight(s.drop_last()), s.last());
    }
}

/// Whether every cluster weighs something.
spec fn all_weigh(s: Seq<Cluster>) -> bool {
    forall|i: int|
        0 <= i < s.len() ==> (#[trigger] s[i]).weight.mag() > 0 && !s[i].weight.negative()
}

/// Ordering keeps the weights.
proof fn lemma_by_weight_weighs(s: Seq<Cluster>)
    requires
        all_weigh(s),
    ensures
        all_weigh(by_weight(s)),
    decreases s.len(),
{
    if s.len() > 0 {
        let front = s.drop_last();
        assert forall|i: int| 0 <= i < front.len() implies (#[trigger] front[i]).weight.mag() > 0
            && !front[i].weight.negative() by {
            assert(front[i] == s[i]);
        }
        lemma_by_weight_weighs(front);
        let w = weigh_in(by_weight(front), s.last());
        assert forall|i: int| 0 <= i < w.len() implies (#[trigger] w[i]).weight.mag() > 0
            && !w[i].weight.negative() by {
            lemma_weigh_in_members(by_weight(front), s.last(), i);
            assert(s[s.len() - 1].weight.mag() > 0);
        }
    }
}

/// The groups up to the `n`-th weigh as much as they have pixels.
proof fn lemma_found_shares(
    colors: Seq<[u8; 3]>,
    indices: Seq<u8>,
    width: u32,
    height: u32,
    n: nat,
)
    requires
        0 < indices.len() <= 0x1_0000,
    ensures
        ({
            let found = found_clusters(colors, indices, width, height, n);
            let sum = weight_sum(found) * indices.len();
            let part = member_total(indices, n) * pow2(149);
            &&& all_weigh(found)
            &&& part * 0x7f_ffff <= sum * 0x80_0000 <= part * 0x80_0001
            &&& found.len() == 0 ==> member_total(indices, n) == 0
        }),
    decreases n,
{
    let k = pow2(149);
    let total = indices.len();
    if n == 0 {
        assert(0 * total == 0 && 0 * k == 0) by (nonlinear_arith);
    } else {
        let idx = (n - 1) as nat;
        let before = found_clusters(colors, indices, width, height, idx);
        let count = member_count(indices, idx);
        lemma_found_shares(colors, indices, width, height, idx);
        if count > 0 {
            let c = cluster_at(colors, indices, width, height, idx);
            lemma_member_count(indices, idx);
            lemma_share_close(count, total);
            assert(c.weight == share(count, total));
            assert(before.push(c).drop_last() =~= before);
            let (a, b, m) = (weight_sum(before), c.weight.units(), member_total(indices, idx));
            assert((a + b) * total == a * total + b * total) by (nonlinear_arith);
            assert((m + count) * k == m * k + count * k) by (nonlinear_arith);
        }
    }
}

/// The clusters of a picture share it: there is at least one, each weighs something, and the
/// weights come to 1.
pub proof fn lemma_clusters_share_the_picture(
    colors: Seq<[u8; 3]>,
    indices: Seq<u8>,
    width: u32,
    height: u32,
)
    requires
        0 < indices.len() <= 0x1_0000,
        forall|p: int| 0 <= p < indices.len() ==> #[trigger] indices[p] < colors.len(),
    ensures
        ({
            let clusters = by_weight(
                found_clusters(colors, indices, width, height, colors.len()),
            );
            clusters.len() >= 1 && whole_shared(clusters)
        }),
{
    let found = found_clusters(colors, indices, width, height, colors.len());
    let (k, total) = (pow2(149), indices.len());
    lemma_found_shares(colors, indices, width, height, colors.len());
    lemma_groups_share_the_pixels(indices, colors.len());
    lemma_by_weight(found);
    lemma_by_weight_weighs(found);
    lemma_by_weight_sum(found);
    let sum = weight_sum(found);
    assert(0x7f_ffff * k <= 0x80_0000 * sum <= 0x80_0001 * k) by (nonlinear_arith)
        requires
            (total * k) * 0x7f_ffff <= (sum * total) * 0x80_0000 <= (total * k) * 0x80_0001,
            total > 0,
    {
        assert((0x7f_ffff * k) * total <= (0x80_0000 * sum) * total <= (0x80_0001 * k) * total);
    }
}

} // verus!
