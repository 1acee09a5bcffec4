//! Laws of the clusters of a picture: whose colour they have, where they lie and what they
//! weigh.

use crate::binary32::{mag_units, Binary32};
use crate::binary32_laws::{lemma_round32_monotone, lemma_ulp_shift_bounds};
use crate::binary64::{
    double, lemma_double_exact, lemma_double_ratio, lemma_round_window64, lemma_single_unit,
    round64, Binary64, INF64, ONE64,
};
use crate::choice_laws::lemma_best_run_is_the_lowest;
use crate::cluster::{
    best_of, best_score, by_weight, cluster_at, clusters_from, column_sum, extracted,
    found_clusters, kmeans_outcome, kmeans_runs, lab_pixels, lemma_by_weight, lemma_member_count,
    mean_place, member_count, rgb_centroids, row_sum, sample_bytes, sample_height, sample_width,
    scores_of, side_span, Cluster, KmeansRun, LabColor,
};
use crate::nearness::{lemma_near_scaled, near_by};
use crate::rounding::{half_even, lemma_pow2_values, ulp_shift};
use crate::shares::{lemma_round64_close, lemma_share_close, share};
use vstd::arithmetic::power2::{
    lemma_pow2_adds, lemma_pow2_pos, lemma_pow2_strictly_increases, lemma_pow2_unfold, pow2,
};
use vstd::prelude::*;

verus! {

/// A rounded significand has at most 53 binary digits, or is the next power.
#[verifier::rlimit(40)]
proof fn lemma_significand_fits(n: nat, d: nat)
    requires
        d > 0,
    ensures
        half_even(n, d * pow2(ulp_shift(53, n, d))) <= 0x20_0000_0000_0000,
{
    let s = ulp_shift(53, n, d);
    let c = d * pow2(s);
    lemma_ulp_shift_bounds(53, n, d);
    lemma_pow2_pos(s);
    lemma_pow2_values();
    assert(c > 0 && d * (0x20_0000_0000_0000 * pow2(s)) == 0x20_0000_0000_0000 * c)
        by (nonlinear_arith)
        requires
            c == d * pow2(s),
            d > 0,
            pow2(s) > 0,
    ;
    vstd::arithmetic::div_mod::lemma_fundamental_div_mod(n as int, c as int);
    assert(n / c < 0x20_0000_0000_0000) by (nonlinear_arith)
        requires
            n < 0x20_0000_0000_0000 * c,
            n == c * (n / c) + n % c,
            n % c >= 0,
            c > 0,
    ;
}

/// Rounding to double precision keeps order.
#[verifier::rlimit(40)]
proof fn lemma_round64_monotone(a: nat, c: nat, b: nat, d: nat)
    requires
        c > 0,
        d > 0,
        a * d <= b * c,
    ensures
        round64(a, c) <= round64(b, d),
{
    let sa = ulp_shift(53, a, c);
    let sb = ulp_shift(53, b, d);
    lemma_significand_fits(a, c);
    lemma_significand_fits(b, d);
    if sb > 0 {
        lemma_round_window64(b, d);
    }
    lemma_pow2_pos(sa);
    lemma_pow2_pos(sb);
    if sa == sb {
        let w = pow2(sa);
        assert(c * w > 0 && d * w > 0) by (nonlinear_arith)
            requires
                c > 0,
                d > 0,
                w > 0,
        ;
        assert(a * (d * w) <= b * (c * w)) by (nonlinear_arith)
            requires
                a * d <= b * c,
                w > 0,
        ;
        crate::binary32_laws::lemma_half_even_monotone(a, c * w, b, d * w);
    } else if sa > sb {
        lemma_ulp_shift_bounds(53, a, c);
        lemma_ulp_shift_bounds(53, b, d);
        let pa = pow2(53) * pow2((sa - 1) as nat);
        let pb = pow2(53) * pow2(sb);
        if sb < sa - 1 {
            lemma_pow2_strictly_increases(sb, (sa - 1) as nat);
        }
        assert(pb <= pa) by (nonlinear_arith)
            requires
                pa == pow2(53) * pow2((sa - 1) as nat),
                pb == pow2(53) * pow2(sb),
                pow2(sb) <= pow2((sa - 1) as nat),
        ;
        assert(false) by {
            assert((c * pa) * d <= a * d) by (nonlinear_arith)
                requires
                    c * pa <= a,
                    d > 0,
            ;
            assert(b * c < (d * pb) * c) by (nonlinear_arith)
                requires
                    b < d * pb,
                    c > 0,
            ;
            assert((d * pb) * c <= (c * pa) * d) by (nonlinear_arith)
                requires
                    pb <= pa,
                    c > 0,
                    d > 0,
            ;
        }
    }
}

/// Larger patterns are larger numbers.
#[verifier::rlimit(40)]
proof fn lemma_units64_order(a: Binary64, b: Binary64)
    requires
        a.bits <= b.bits,
    ensures
        a.units() <= b.units(),
{
    let (e, f) = (a.bits / 0x10_0000_0000_0000, a.bits % 0x10_0000_0000_0000);
    let (g, h) = (b.bits / 0x10_0000_0000_0000, b.bits % 0x10_0000_0000_0000);
    lemma_pow2_values();
    if e == g {
        if e > 0 {
            let p = pow2((e - 1) as nat);
            assert((f + 0x10_0000_0000_0000) * p <= (h + 0x10_0000_0000_0000) * p)
                by (nonlinear_arith)
                requires
                    f <= h,
                    p >= 0,
            ;
        }
    } else {
        let q = pow2((g - 1) as nat);
        lemma_pow2_pos((g - 1) as nat);
        assert((h + 0x10_0000_0000_0000) * q >= 0x10_0000_0000_0000 * q) by (nonlinear_arith)
            requires
                h >= 0,
                q > 0,
        ;
        if e == 0 {
            assert(0x10_0000_0000_0000 * q >= 0x10_0000_0000_0000) by (nonlinear_arith)
                requires
                    q >= 1,
            ;
        } else {
            let p = pow2((e - 1) as nat);
            lemma_pow2_unfold(e as nat);
            if e < g - 1 {
                lemma_pow2_strictly_increases(e as nat, (g - 1) as nat);
            }
            assert((f + 0x10_0000_0000_0000) * p <= 0x10_0000_0000_0000 * q) by (nonlinear_arith)
                requires
                    f < 0x10_0000_0000_0000,
                    2 * p <= q,
                    p >= 0,
            ;
        }
    }
}

/// `c` over `span`, in double and then in single precision.
pub open spec fn part_of(c: nat, span: nat) -> Binary32 {
    double(c).over(double(span)).single()
}

/// Places keep the order of what they are rounded from.
proof fn lemma_single_rises(a: Binary64, b: Binary64)
    requires
        a.bits <= b.bits <= ONE64,
    ensures
        a.single().at_most(b.single()),
{
    lemma_units64_order(a, b);
    lemma_single_unit(a);
    lemma_single_unit(b);
    lemma_pow2_pos(925);
    let (u, v, q) = (a.units(), b.units(), pow2(925));
    assert(u * q <= v * q) by (nonlinear_arith)
        requires
            u <= v,
            q > 0,
    ;
    lemma_round32_monotone(u, q, v, q);
}

/// A mean of coordinates within two bounds lies within the bounds' places.
#[verifier::rlimit(40)]
proof fn lemma_mean_between(sum: nat, count: nat, side: u32, low: nat, high: nat)
    requires
        0 < count < 0x1_0000_0000,
        low * count <= sum <= high * count,
        low <= high <= side_span(side),
        side <= 0x1_0000,
    ensures
        part_of(low, side_span(side)).at_most(mean_place(sum, count, side)),
        mean_place(sum, count, side).at_most(part_of(high, side_span(side))),
{
    let k = pow2(1074);
    let span = side_span(side);
    lemma_pow2_pos(1074);
    lemma_pow2_values();
    assert(sum < 0x20_0000_0000_0000) by (nonlinear_arith)
        requires
            sum <= high * count,
            high <= 0x1_0000,
            count < 0x1_0000_0000,
    ;
    lemma_double_exact(sum);
    lemma_double_exact(count);
    lemma_double_exact(low);
    lemma_double_exact(high);
    lemma_double_exact(span);
    let q = double(sum).over(double(count));
    lemma_quotient_between(sum, count, low, high, k);
    lemma_double_ratio(low, span);
    lemma_double_ratio(high, span);
    lemma_units64_order(double(low), q);
    lemma_units64_order(q, double(high));
    let (a, x, b) = (double(low).over(double(span)), q.over(double(span)), double(high).over(
        double(span),
    ));
    let sk = span * k;
    assert(sk > 0) by (nonlinear_arith)
        requires
            sk == span * k,
            span > 0,
            k > 0,
    ;
    let (u, v, w) = (double(low).units(), q.units(), double(high).units());
    assert((u * k) * sk <= (v * k) * sk && (v * k) * sk <= (w * k) * sk) by (nonlinear_arith)
        requires
            0 <= u <= v <= w,
            k > 0,
            sk > 0,
    ;
    lemma_round64_monotone(u * k, sk, v * k, sk);
    lemma_round64_monotone(v * k, sk, w * k, sk);
    lemma_single_rises(a, x.at_most_one());
    lemma_single_rises(x.at_most_one(), b);
}

/// A quotient of a sum and a count.
#[verifier::rlimit(40)]
proof fn lemma_quotient_between(sum: nat, count: nat, low: nat, high: nat, k: nat)
    requires
        k == pow2(1074),
        k > 0,
        0 < count < 0x1_0000_0000,
        low * count <= sum <= high * count,
        high <= 0x1_0000,
        double(sum).finite(),
        double(sum).units() == sum * k,
        double(count).units() == count * k,
        double(low).finite(),
        double(high).finite(),
    ensures
        double(low).bits <= double(sum).over(double(count)).bits <= double(high).bits,
{
    let (n, d) = ((sum * k) * k, count * k);
    assert(d > 0 && (low * k) * d <= n * 1 && n * 1 <= (high * k) * d) by (nonlinear_arith)
        requires
            n == (sum * k) * k,
            d == count * k,
            count > 0,
            k > 0,
            low * count <= sum <= high * count,
    {
        assert((low * k) * (count * k) == (low * count) * (k * k));
        assert((high * k) * (count * k) == (high * count) * (k * k));
        assert((sum * k) * k == sum * (k * k));
    }
    lemma_round64_monotone(low * k, 1, n, d);
    lemma_round64_monotone(n, d, high * k, 1);
}

/// What the pixels of a group add up to, over the first `n` pixels: `along` says what a pixel
/// counts for.
pub open spec fn group_sum(indices: Seq<u8>, group: int, along: spec_fn(int) -> int, n: nat) -> int
    decreases n,
{
    if n == 0 {
        0
    } else {
        group_sum(indices, group, along, (n - 1) as nat) + if indices[n - 1] == group {
            along(n - 1)
        } else {
            0
        }
    }
}

/// The tallies of a group are sums over its pixels: how many, their columns and their rows.
#[verifier::rlimit(40)]
proof fn lemma_tallies(indices: Seq<u8>, group: nat, width: nat, n: nat)
    requires
        n <= indices.len(),
        width > 0,
    ensures
        member_count(indices.take(n as int), group) == group_sum(
            indices,
            group as int,
            |p: int| 1,
            n,
        ),
        column_sum(indices.take(n as int), group, width) == group_sum(
            indices,
            group as int,
            |p: int| p % (width as int),
            n,
        ),
        row_sum(indices.take(n as int), group, width) == group_sum(
            indices,
            group as int,
            |p: int| p / (width as int),
            n,
        ),
    decreases n,
{
    if n > 0 {
        let s = indices.take(n as int);
        assert(s.drop_last() =~= indices.take(n - 1));
        lemma_tallies(indices, group, width, (n - 1) as nat);
    }
}

/// A sum of what lies within bounds.
#[verifier::rlimit(40)]
proof fn lemma_group_between(
    indices: Seq<u8>,
    group: int,
    along: spec_fn(int) -> int,
    n: nat,
    low: int,
    high: int,
)
    requires
        n <= indices.len(),
        forall|p: int|
            0 <= p < indices.len() && #[trigger] indices[p] == group ==> low <= along(p) <= high,
    ensures
        low * group_sum(indices, group, |p: int| 1, n) <= group_sum(indices, group, along, n)
            <= high * group_sum(indices, group, |p: int| 1, n),
    decreases n,
{
    let one = |p: int| 1int;
    if n > 0 {
        lemma_group_between(indices, group, along, (n - 1) as nat, low, high);
        let c = group_sum(indices, group, one, (n - 1) as nat);
        assert(low * (c + 1) == low * c + low && high * (c + 1) == high * c + high)
            by (nonlinear_arith);
    } else {
        assert(low * 0 == 0 && high * 0 == 0) by (nonlinear_arith);
    }
}

/// A group that has a pixel has a size.
proof fn lemma_group_counts(indices: Seq<u8>, group: int, n: nat, p: int)
    requires
        0 <= p < n <= indices.len(),
        indices[p] == group,
    ensures
        group_sum(indices, group, |q: int| 1, n) >= 1,
    decreases n,
{
    let one = |q: int| 1int;
    if p < n - 1 {
        lemma_group_counts(indices, group, (n - 1) as nat, p);
    } else {
        lemma_group_size(indices, group, (n - 1) as nat);
    }
}

proof fn lemma_group_size(indices: Seq<u8>, group: int, n: nat)
    ensures
        0 <= group_sum(indices, group, |q: int| 1, n) <= n,
    decreases n,
{
    if n > 0 {
        lemma_group_size(indices, group, (n - 1) as nat);
    }
}

/// The cluster of a group is among those found.
#[verifier::rlimit(40)]
proof fn lemma_found_holds(
    colors: Seq<[u8; 3]>,
    indices: Seq<u8>,
    width: u32,
    height: u32,
    group: nat,
    n: nat,
) -> (j: int)
    requires
        group < n,
        member_count(indices, group) > 0,
    ensures
        0 <= j < found_clusters(colors, indices, width, height, n).len(),
        found_clusters(colors, indices, width, height, n)[j] == cluster_at(
            colors,
            indices,
            width,
            height,
            group,
        ),
    decreases n,
{
    if group == n - 1 {
        found_clusters(colors, indices, width, height, n).len() - 1
    } else {
        lemma_found_holds(colors, indices, width, height, group, (n - 1) as nat)
    }
}

/// The clusters of a run, as they come out.
pub open spec fn run_clusters(
    colors: Seq<[u8; 3]>,
    indices: Seq<u8>,
    width: u32,
    height: u32,
) -> Seq<Cluster> {
    by_weight(found_clusters(colors, indices, width, height, colors.len()))
}

#[verifier::rlimit(40)]
proof fn lemma_run_holds(
    colors: Seq<[u8; 3]>,
    indices: Seq<u8>,
    width: u32,
    height: u32,
    group: nat,
) -> (j: int)
    requires
        group < colors.len(),
        member_count(indices, group) > 0,
    ensures
        0 <= j < run_clusters(colors, indices, width, height).len(),
        run_clusters(colors, indices, width, height)[j] == cluster_at(
            colors,
            indices,
            width,
            height,
            group,
        ),
{
    broadcast use vstd::seq_lib::group_to_multiset_ensures;

    let found = found_clusters(colors, indices, width, height, colors.len());
    let i = lemma_found_holds(colors, indices, width, height, group, colors.len());
    lemma_by_weight(found);
    let c = found[i];
    assert(found.contains(c));
    assert(found.to_multiset().contains(c));
    assert(by_weight(found).to_multiset().contains(c));
    assert(by_weight(found).contains(c));
    choose|j: int| 0 <= j < by_weight(found).len() && by_weight(found)[j] == c
}

/// A group of pixels comes out as a cluster of the group's colour that lies within the pixels'
/// bounds: where their columns lie within `left` to `right` and their rows within `top` to
/// `bottom`, its place lies within the same parts of the last column and the last row. So a
/// cluster of one column lies at that column, whatever the height, and one of the last column
/// at 1.
#[verifier::rlimit(40)]
pub proof fn lemma_cluster_lies_among_its_pixels(
    colors: Seq<[u8; 3]>,
    indices: Seq<u8>,
    width: u32,
    height: u32,
    group: nat,
    left: nat,
    right: nat,
    top: nat,
    bottom: nat,
) -> (j: int)
    requires
        0 < width <= 0x1_0000,
        0 < height <= 0x1_0000,
        indices.len() <= 0x1_0000,
        group < colors.len(),
        exists|p: int| 0 <= p < indices.len() && #[trigger] indices[p] == group,
        forall|p: int|
            0 <= p < indices.len() && #[trigger] indices[p] == group ==> left <= p % (width as int)
                <= right && top <= p / (width as int) <= bottom,
        left <= right < width,
        top <= bottom < height,
    ensures
        ({
            let clusters = run_clusters(colors, indices, width, height);
            let last_column = if width > 1 {
                (width - 1) as nat
            } else {
                1
            };
            let last_row = if height > 1 {
                (height - 1) as nat
            } else {
                1
            };
            &&& 0 <= j < clusters.len()
            &&& clusters[j].color == colors[group as int]
            &&& part_of(left, last_column).at_most(clusters[j].centroid.x)
            &&& clusters[j].centroid.x.at_most(part_of(right, last_column))
            &&& part_of(top, last_row).at_most(clusters[j].centroid.y)
            &&& clusters[j].centroid.y.at_most(part_of(bottom, last_row))
        }),
{
    let n = indices.len();
    let p = choose|p: int| 0 <= p < indices.len() && #[trigger] indices[p] == group;
    assert(indices.take(n as int) =~= indices);
    lemma_tallies(indices, group, width as nat, n);
    lemma_group_counts(indices, group as int, n, p);
    lemma_group_size(indices, group as int, n);
    let column = |q: int| q % (width as int);
    let row = |q: int| q / (width as int);
    lemma_group_between(indices, group as int, column, n, left as int, right as int);
    lemma_group_between(indices, group as int, row, n, top as int, bottom as int);
    let count = member_count(indices, group);
    lemma_mean_between(
        column_sum(indices, group, width as nat),
        count,
        width,
        left,
        right,
    );
    lemma_mean_between(row_sum(indices, group, width as nat), count, height, top, bottom);
    lemma_run_holds(colors, indices, width, height, group)
}

/// Whether `got` is off from `want` by at most one part in `2^52`.
spec fn very_near(got: int, want: int) -> bool {
    near_by(got, want, 0x10_0000_0000_0000)
}

/// A quotient in double precision.
proof fn lemma_quotient64_near(a: nat, b: nat)
    requires
        b > 0,
        a > 0,
        a * pow2(1074) >= 0x10_0000_0000_0000 * b,
        round64(a * pow2(1074), b) < INF64,
    ensures
        very_near(
            ((Binary64 { bits: round64(a * pow2(1074), b) as u64 }).units() * b) as int,
            (a * pow2(1074)) as int,
        ),
{
    let n = a * pow2(1074);
    lemma_round64_close(n, b);
    let u = (Binary64 { bits: round64(n, b) as u64 }).units() * b;
    assert((u - n) * 0x10_0000_0000_0000 == u * 0x10_0000_0000_0000 - n * 0x10_0000_0000_0000);
}

/// The steps of a mean, each near to the exact one.
#[verifier::rlimit(40)]
proof fn lemma_mean_chain(
    u: int,
    v: int,
    w: int,
    x: int,
    sum: int,
    count: int,
    span: int,
    big: int,
    k: int,
    q: int,
)
    requires
        very_near(u * count, sum * big),
        very_near(v * span, u),
        v * span * count >= 0,
        w == v || (w == big && v > big),
        near_by(x * q, w, 0x100_0000),
        big == k * q,
        0 < sum <= count * span,
        count > 0,
        span > 0,
        q > 0,
        k > 0,
        u > 0,
        v > 0,
    ensures
        near_by(x * (count * span), sum * k, 0x40_0000),
{
    let cs = count * span;
    let vs = v * span;
    lemma_near_scaled(vs, u, 0x10_0000_0000_0000, count);
    let (a, b, c) = (vs * count, u * count, sum * big);
    assert(big > 0) by (nonlinear_arith)
        requires
            big == k * q,
            k > 0,
            q > 0,
    ;
    assert(c > 0) by (nonlinear_arith)
        requires
            c == sum * big,
            sum > 0,
            big > 0,
    ;
    assert(near_by(a, c, 0x4_0000_0000_0000)) by {
        assert((a - b) * 0x10_0000_0000_0000 == a * 0x10_0000_0000_0000 - b * 0x10_0000_0000_0000);
        assert((b - c) * 0x10_0000_0000_0000 == b * 0x10_0000_0000_0000 - c * 0x10_0000_0000_0000);
        assert((a - c) * 0x4_0000_0000_0000 == a * 0x4_0000_0000_0000 - c * 0x4_0000_0000_0000);
    }
    let d = w * cs;
    assert(v * cs == a) by (nonlinear_arith)
        requires
            vs == v * span,
            cs == count * span,
            a == vs * count,
    ;
    assert(near_by(d, c, 0x4_0000_0000_0000)) by {
        if w != v {
            assert(d <= a && d >= c) by (nonlinear_arith)
                requires
                    d == big * cs,
                    a == v * cs,
                    v > big,
                    cs > 0,
                    c == sum * big,
                    sum <= cs,
                    big > 0,
            ;
        }
    }
    lemma_near_scaled(x * q, w, 0x100_0000, cs);
    let e = x * cs;
    assert((x * q) * cs == e * q && c == (sum * k) * q) by (nonlinear_arith)
        requires
            e == x * cs,
            c == sum * big,
            big == k * q,
    ;
    assert(near_by(e * q, c, 0x40_0000));
    lemma_near_scaled(e, sum * k, 0x40_0000, q);
}

/// A mean of coordinates is their sum over their number, as a part of the last one.
#[verifier::rlimit(40)]
proof fn lemma_mean_near(sum: nat, count: nat, side: u32)
    requires
        0 < count <= 0x1_0000,
        sum <= count * side_span(side),
        0 < side <= 0x1_0000,
    ensures
        near_by(
            (mean_place(sum, count, side).units() * (count * side_span(side))) as int,
            (sum * pow2(149)) as int,
            0x40_0000,
        ),
{
    let (big, k, q) = (pow2(1074), pow2(149), pow2(925));
    let span = side_span(side);
    lemma_pow2_adds(149, 925);
    lemma_pow2_pos(149);
    lemma_pow2_pos(925);
    lemma_pow2_pos(1074);
    lemma_pow2_values();
    if sum == 0 {
        assert(0 * count == 0) by (nonlinear_arith);
        lemma_mean_between(0, count, side, 0, 0);
        lemma_zero_part(span);
        let m = mean_place(0, count, side);
        assert(mag_units(0) == 0);
        assert(m.mag() == 0);
        assert(0 * (count * span) == 0 && 0 * k == 0) by (nonlinear_arith);
    } else {
        assert(sum <= 0x1_0000_0000) by (nonlinear_arith)
            requires
                sum <= count * span,
                count <= 0x1_0000,
                span <= 0x1_0000,
        ;
        lemma_mean_parts(sum, count, side);
        let a = double(sum).over(double(count));
        let b = a.over(double(span));
        let c = b.at_most_one();
        lemma_one_units64();
        if b.bits > ONE64 {
            lemma_units64_strict(Binary64 { bits: ONE64 }, b);
        }
        assert(b.units() * span * count >= 0) by (nonlinear_arith);
        lemma_mean_chain(
            a.units() as int,
            b.units() as int,
            c.units() as int,
            mean_place(sum, count, side).units() as int,
            sum as int,
            count as int,
            span as int,
            big as int,
            k as int,
            q as int,
        );
    }
}

/// No part of a whole is 0.
proof fn lemma_zero_part(span: nat)
    requires
        0 < span <= 0x1_0000,
    ensures
        part_of(0, span).mag() == 0,
{
    lemma_pow2_values();
    lemma_double_exact(0);
    lemma_double_exact(span);
    lemma_pow2_pos(1074);
    lemma_pow2_pos(925);
    assert(0 * pow2(1074) == 0) by (nonlinear_arith);
    let d = span * pow2(1074);
    assert(d > 0) by (nonlinear_arith)
        requires
            d == span * pow2(1074),
            span > 0,
            pow2(1074) > 0,
    ;
    crate::binary64::lemma_round64_zero(d);
    crate::binary32::lemma_round32_zero(pow2(925));
}

/// The units of 1.
proof fn lemma_one_units64()
    ensures
        (Binary64 { bits: ONE64 }).units() == pow2(1074),
{
    lemma_pow2_values();
    lemma_pow2_adds(52, 1022);
    assert(ONE64 / 0x10_0000_0000_0000 == 1023 && ONE64 % 0x10_0000_0000_0000 == 0);
}

/// A larger pattern than 1 is more than 1.
proof fn lemma_units64_strict(a: Binary64, b: Binary64)
    requires
        a.bits == ONE64,
        b.bits > ONE64,
    ensures
        b.units() > a.units(),
{
    let c = Binary64 { bits: (ONE64 + 1) as u64 };
    lemma_units64_order(c, b);
    lemma_one_units64();
    lemma_pow2_pos(1022);
    lemma_pow2_values();
    lemma_pow2_adds(52, 1022);
    assert(c.bits / 0x10_0000_0000_0000 == 1023 && c.bits % 0x10_0000_0000_0000 == 1);
    assert((1 + 0x10_0000_0000_0000) * pow2(1022) == pow2(1022) + 0x10_0000_0000_0000 * pow2(1022))
        by (nonlinear_arith);
}

/// The two quotients of a mean and its last rounding.
#[verifier::rlimit(40)]
proof fn lemma_mean_parts(sum: nat, count: nat, side: u32)
    requires
        0 < count <= 0x1_0000,
        0 < sum <= 0x1_0000_0000,
        sum <= count * side_span(side),
        0 < side <= 0x1_0000,
    ensures
        ({
            let a = double(sum).over(double(count));
            let b = a.over(double(side_span(side)));
            let c = b.at_most_one();
            let x = mean_place(sum, count, side);
            &&& a.units() > 0
            &&& b.units() > 0
            &&& very_near((a.units() * count) as int, (sum * pow2(1074)) as int)
            &&& very_near((b.units() * side_span(side)) as int, a.units() as int)
            &&& near_by((x.units() * pow2(925)) as int, c.units() as int, 0x100_0000)
        }),
{
    let big = pow2(1074);
    let span = side_span(side);
    lemma_pow2_values();
    lemma_pow2_pos(1074);
    lemma_pow2_adds(128, 946);
    lemma_pow2_pos(946);
    assert(big >= 0x1_0000_0000_0000_0000_0000_0000_0000_0000) by (nonlinear_arith)
        requires
            big == pow2(128) * pow2(946),
            pow2(128) == 0x1_0000_0000_0000_0000_0000_0000_0000_0000,
            pow2(946) >= 1,
    ;
    lemma_double_exact(sum);
    lemma_double_exact(count);
    lemma_double_exact(span);
    let a = double(sum).over(double(count));
    lemma_first_quotient(sum, count, big);
    let b = a.over(double(span));
    lemma_second_quotient(a, span, big);
    let c = b.at_most_one();
    lemma_last_rounding(b, big);
}

#[verifier::rlimit(40)]
proof fn lemma_first_quotient(sum: nat, count: nat, big: nat)
    requires
        big == pow2(1074),
        big >= 0x1_0000_0000_0000_0000_0000_0000_0000_0000,
        0 < count <= 0x1_0000,
        0 < sum <= 0x1_0000_0000,
        double(sum).finite(),
        double(sum).units() == sum * big,
        double(count).units() == count * big,
    ensures
        ({
            let a = double(sum).over(double(count));
            &&& a.finite()
            &&& a.units() * 0x2_0000 >= big
            &&& very_near((a.units() * count) as int, (sum * big) as int)
        }),
{
    let a = double(sum).over(double(count));
    let cb = count * big;
    assert(cb > 0 && (sum * big) * big >= 0x10_0000_0000_0000 * cb) by (nonlinear_arith)
        requires
            cb == count * big,
            0 < count <= 0x1_0000,
            sum >= 1,
            big >= 0x1_0000_0000_0000_0000_0000_0000_0000_0000,
    ;
    // at most 2^32
    lemma_double_exact(0x1_0000_0000);
    assert(((sum * big) * big) * 1 <= (0x1_0000_0000 * big) * cb) by (nonlinear_arith)
        requires
            cb == count * big,
            count >= 1,
            sum <= 0x1_0000_0000,
            big > 0,
    ;
    lemma_round64_monotone((sum * big) * big, cb, 0x1_0000_0000 * big, 1);
    assert(sum * big > 0) by (nonlinear_arith)
        requires
            sum > 0,
            big > 0,
    ;
    lemma_quotient64_near(sum * big, cb);
    let u = a.units();
    assert(u * cb == (u * count) * big && (sum * big) * big == (sum * big as int) * big)
        by (nonlinear_arith)
        requires
            cb == count * big,
    ;
    lemma_near_scaled((u * count) as int, (sum * big) as int, 0x10_0000_0000_0000, big as int);
    assert(sum * big >= big) by (nonlinear_arith)
        requires
            sum >= 1,
            big > 0,
    ;
    assert(u * 0x2_0000 >= big) by (nonlinear_arith)
        requires
            2 * (u * count) >= big,
            count <= 0x1_0000,
    ;
}

#[verifier::rlimit(40)]
proof fn lemma_second_quotient(a: Binary64, span: nat, big: nat)
    requires
        big == pow2(1074),
        big >= 0x1_0000_0000_0000_0000_0000_0000_0000_0000,
        a.finite(),
        a.units() * 0x2_0000 >= big,
        0 < span <= 0x1_0000,
        double(span).units() == span * big,
    ensures
        ({
            let b = a.over(double(span));
            &&& b.finite()
            &&& b.units() * 0x8_0000_0000 >= big
            &&& very_near((b.units() * span) as int, a.units() as int)
        }),
{
    let u = a.units();
    let sb = span * big;
    let b = a.over(double(span));
    assert(sb > 0 && u * big >= 0x10_0000_0000_0000 * sb) by (nonlinear_arith)
        requires
            sb == span * big,
            0 < span <= 0x1_0000,
            u * 0x2_0000 >= big,
            big >= 0x1_0000_0000_0000_0000_0000_0000_0000_0000,
    ;
    assert((u * big) * 1 <= u * sb) by (nonlinear_arith)
        requires
            sb == span * big,
            span >= 1,
            u >= 0,
    ;
    lemma_round64_monotone(u * big, sb, u, 1);
    lemma_round64_exact(a);
    lemma_quotient64_near(u, sb);
    let v = b.units();
    assert(v * sb == (v * span) * big) by (nonlinear_arith)
        requires
            sb == span * big,
    ;
    lemma_near_scaled((v * span) as int, u as int, 0x10_0000_0000_0000, big as int);
    assert(v * 0x8_0000_0000 >= big) by (nonlinear_arith)
        requires
            2 * (v * span) >= u,
            u * 0x2_0000 >= big,
            span <= 0x1_0000,
    ;
}

/// Rounding a double precision number gives no larger pattern.
#[verifier::rlimit(40)]
proof fn lemma_round64_exact(a: Binary64)
    requires
        a.finite(),
        a.units() >= 0x20_0000_0000_0000,
    ensures
        round64(a.units(), 1) <= a.bits,
{
    let e = (a.bits / 0x10_0000_0000_0000) as nat;
    let f = (a.bits % 0x10_0000_0000_0000) as nat;
    let n = a.units();
    lemma_pow2_values();
    let m = f + 0x10_0000_0000_0000;
    let s = (e - 1) as nat;
    let c = pow2(s);
    lemma_pow2_pos(s);
    assert(n == m * c);
    assert(n < 1 * (pow2(53) * c)) by (nonlinear_arith)
        requires
            n == m * c,
            m < 0x20_0000_0000_0000,
            pow2(53) == 0x20_0000_0000_0000,
            c > 0,
    ;
    if s > 0 {
        lemma_pow2_unfold(s);
        let g = pow2((s - 1) as nat);
        assert(1 * (pow2(53) * g) <= n) by (nonlinear_arith)
            requires
                n == m * c,
                m >= 0x10_0000_0000_0000,
                pow2(53) == 0x20_0000_0000_0000,
                c == 2 * g,
                g >= 0,
        ;
    }
    crate::rounding::lemma_ulp_shift_is(53, n, 1, s);
    assert(1 * c == c) by (nonlinear_arith);
    vstd::arithmetic::div_mod::lemma_fundamental_div_mod_converse(
        n as int,
        c as int,
        m as int,
        0,
    );
}

#[verifier::rlimit(40)]
proof fn lemma_last_rounding(b: Binary64, big: nat)
    requires
        big == pow2(1074),
        b.finite(),
        b.units() * 0x8_0000_0000 >= big,
    ensures
        near_by(
            (b.at_most_one().single().units() * pow2(925)) as int,
            b.at_most_one().units() as int,
            0x100_0000,
        ),
{
    let c = b.at_most_one();
    let q = pow2(925);
    lemma_pow2_pos(925);
    lemma_pow2_pos(149);
    lemma_pow2_values();
    lemma_pow2_adds(149, 925);
    lemma_one_units64();
    lemma_single_unit(c);
    let u = c.units();
    lemma_pow2_adds(64, 85);
    lemma_pow2_pos(85);
    assert(u * 0x8_0000_0000 >= big);
    assert(u >= 0x80_0000 * q) by (nonlinear_arith)
        requires
            u * 0x8_0000_0000 >= big,
            big == pow2(149) * q,
            pow2(149) == pow2(64) * pow2(85),
            pow2(64) == 0x1_0000_0000_0000_0000,
            pow2(85) >= 1,
            q > 0,
    {
        assert(pow2(149) >= 0x1_0000_0000_0000_0000);
        assert(big >= 0x1_0000_0000_0000_0000 * q);
    }
    assert(crate::binary32::round32(u, q) <= crate::binary32::INF_MAG);
    crate::nearness::lemma_round32_near(u, q);
}

/// A group of pixels comes out as a cluster of the group's colour at the mean of its pixels:
/// their columns and rows, each as a part of the last one, added up and divided by their
/// number, off by at most one part in `2^22`. It weighs the group's share of the picture, off
/// by at most one part in `2^23`.
#[verifier::rlimit(40)]
pub proof fn lemma_cluster_is_the_mean_of_its_pixels(
    colors: Seq<[u8; 3]>,
    indices: Seq<u8>,
    width: u32,
    height: u32,
    group: nat,
) -> (j: int)
    requires
        0 < width <= 0x1_0000,
        0 < height <= 0x1_0000,
        indices.len() <= 0x1_0000,
        indices.len() <= width * height,
        group < colors.len(),
        exists|p: int| 0 <= p < indices.len() && #[trigger] indices[p] == group,
    ensures
        ({
            let clusters = run_clusters(colors, indices, width, height);
            let k = pow2(149) as int;
            let n = indices.len();
            let count = group_sum(indices, group as int, |p: int| 1, n);
            let columns = group_sum(indices, group as int, |p: int| p % (width as int), n);
            let rows = group_sum(indices, group as int, |p: int| p / (width as int), n);
            let last_column: int = if width > 1 {
                width - 1
            } else {
                1
            };
            let last_row: int = if height > 1 {
                height - 1
            } else {
                1
            };
            &&& 0 <= j < clusters.len()
            &&& clusters[j].color == colors[group as int]
            &&& near_by(
                clusters[j].centroid.x.units() * (count * last_column),
                columns * k,
                0x40_0000,
            )
            &&& near_by(
                clusters[j].centroid.y.units() * (count * last_row),
                rows * k,
                0x40_0000,
            )
            &&& near_by(clusters[j].weight.units() * n as int, count * k, 0x80_0000)
        }),
{
    let n = indices.len();
    let p = choose|p: int| 0 <= p < indices.len() && #[trigger] indices[p] == group;
    assert(indices.take(n as int) =~= indices);
    lemma_tallies(indices, group, width as nat, n);
    lemma_group_counts(indices, group as int, n, p);
    lemma_group_size(indices, group as int, n);
    let column = |q: int| q % (width as int);
    let row = |q: int| q / (width as int);
    let w = width as int;
    assert forall|q: int| 0 <= q < n && #[trigger] indices[q] == group implies 0 <= column(q)
        <= width - 1 && 0 <= row(q) <= height - 1 by {
        vstd::arithmetic::div_mod::lemma_fundamental_div_mod(q, w);
        let (r, d) = (q % w, q / w);
        assert(0 <= d <= height - 1) by (nonlinear_arith)
            requires
                q == w * d + r,
                0 <= r < w,
                0 <= q < w * height,
                w > 0,
        ;
    }
    lemma_group_between(indices, group as int, column, n, 0, width - 1);
    lemma_group_between(indices, group as int, row, n, 0, height - 1);
    let count = member_count(indices, group);
    let (wide, high) = (side_span(width), side_span(height));
    assert((width - 1) * count <= count * wide && (height - 1) * count <= count * high)
        by (nonlinear_arith)
        requires
            width - 1 <= wide,
            height - 1 <= high,
            count >= 0,
    ;
    lemma_mean_near(column_sum(indices, group, width as nat), count, width);
    lemma_mean_near(row_sum(indices, group, width as nat), count, height);
    lemma_member_count(indices, group);
    lemma_share_close(count, n);
    let u = share(count, n).units() * n;
    let ck = count * pow2(149);
    assert((u - ck) * 0x80_0000 == u * 0x80_0000 - ck * 0x80_0000);
    lemma_run_holds(colors, indices, width, height, group)
}

/// What clusters are extracted from a picture: the pixels of the picture, reduced where it is
/// large, are grouped three times, from the seeds 0, 1 and 2, in at most 20 rounds, and the
/// clusters are those of the grouping with the lowest score, in the size of the reduced
/// picture.
#[verifier::rlimit(40)]
pub proof fn lemma_clusters_of_the_best_grouping(
    data: Seq<u8>,
    width: u32,
    height: u32,
    k: nat,
    clusters: Seq<Cluster>,
) -> (parts: (Seq<LabColor>, Seq<KmeansRun>, Seq<[u8; 3]>, int))
    requires
        extracted(data, width, height, k, clusters),
        clusters.len() > 0,
    ensures
        ({
            let (points, runs, colors, best) = parts;
            &&& lab_pixels(sample_bytes(data, width, height), points)
            &&& runs.len() == 3
            &&& forall|i: int|
                0 <= i < 3 ==> kmeans_outcome(
                    points,
                    (if k < points.len() {
                        k
                    } else {
                        points.len()
                    }) as usize,
                    20,
                    Binary32 { bits: 0x40a0_0000 },
                    i as u64,
                    (#[trigger] runs[i]).score,
                    runs[i].centroids@,
                    runs[i].indices@,
                )
            &&& 0 <= best < 3
            &&& forall|i: int|
                0 <= i < 3 && !(#[trigger] runs[i]).score.nan_pattern()
                    ==> runs[best].score.at_most(runs[i].score)
            &&& rgb_centroids(runs[best].centroids@, colors)
            &&& clusters == run_clusters(
                colors,
                runs[best].indices@,
                sample_width(width, height),
                sample_height(width, height),
            )
        }),
{
    let (points, runs, colors) = choose|
        points: Seq<LabColor>,
        runs: Seq<KmeansRun>,
        colors: Seq<[u8; 3]>,
    |
        {
            &&& #[trigger] lab_pixels(sample_bytes(data, width, height), points)
            &&& #[trigger] kmeans_runs(points, k, runs)
            &&& best_of(runs) matches Some(i) ==> rgb_centroids(runs[i as int].centroids@, colors)
            &&& clusters == #[trigger] clusters_from(
                runs,
                colors,
                sample_width(width, height),
                sample_height(width, height),
            )
        };
    let scores = scores_of(runs);
    lemma_best_run_is_the_lowest(scores, 3);
    let best = best_score(scores, 3)->0 as int;
    assert forall|i: int|
        0 <= i < 3 && !(#[trigger] runs[i]).score.nan_pattern() implies runs[best].score.at_most(
        runs[i].score,
    ) by {
        assert(scores[i] == runs[i].score);
    }
    (points, runs, colors, best)
}

} // verus!
