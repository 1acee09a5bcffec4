//! Colour clusters of a picture.
//!
//! The pixels are grouped by colour with k-means in the CIE L*a*b* space. Each group
//! gives one cluster: its colour, the mean place of its pixels and its share of the
//! picture. Large pictures are reduced first.

use crate::binary32::{Binary32, ONE};
use crate::binary64::Binary64;
use crate::binary32_laws::lemma_rank_orders_values;
use crate::integers::{lemma_of_int_exact, of_int};
use crate::rounding::lemma_pow2_values;
use crate::scaling::{lemma_scaled_side_fits, scale_side, scaled_side};
use crate::shares::{lemma_clusters_share_the_picture, whole_shared};
use crate::picture::{resize_rgb, resized_rgb, RgbPicture};
use kmeans_colors::get_kmeans_hamerly;
use palette::{FromColor, IntoColor, Lab, LinSrgb, Srgb};
use vstd::arithmetic::power2::{lemma_pow2_adds, pow2};
use vstd::prelude::*;
use vstd::string::*;

verus! {

/// A place within a picture, both coordinates within 0 to 1.
#[derive(Clone, Copy, Debug, PartialEq, Eq, Structural)]
pub struct Centroid {
    pub x: Binary32,
    pub y: Binary32,
}

/// One colour of a picture.
#[derive(Clone, Copy, Debug, PartialEq, Eq)]
pub struct Cluster {
    /// Red, green and blue.
    pub color: [u8; 3],
    /// The mean place of the pixels.
    pub centroid: Centroid,
    /// The share of the pixels, within 0 to 1.
    pub weight: Binary32,
}

/// Why no clusters can be extracted.
#[derive(Clone, Copy, Debug, PartialEq, Eq, Structural)]
pub enum ClusterError {
    /// The picture has no pixels.
    EmptyImage,
    /// No cluster was asked for.
    KZero,
}

impl ClusterError {
    pub open spec fn text(self) -> Seq<char> {
        match self {
            ClusterError::EmptyImage => "input image is empty (0x0)"@,
            ClusterError::KZero => "k must be at least 1"@,
        }
    }

    /// What to tell the user.
    pub fn message(self) -> (s: String)
        ensures
            s@ == self.text(),
    {
        match self {
            ClusterError::EmptyImage => String::from_str("input image is empty (0x0)"),
            ClusterError::KZero => String::from_str("k must be at least 1"),
        }
    }
}

/// How often k-means is run.
pub const KMEANS_RUNS: u64 = 3;

/// How many iterations one run may take.
pub const KMEANS_MAX_ITER: usize = 20;

/// The pattern of 5, the movement of the centroids below which a run ends.
pub const KMEANS_CONVERGE: u32 = 0x40a0_0000;

/// The seed of the first run.
pub const KMEANS_SEED: u64 = 0;

/// The longer side to which large pictures are reduced.
pub const KMEANS_TARGET_LONG_EDGE: u32 = 256;

/// The shortest side of a reduced picture.
pub const KMEANS_MIN_EDGE: u32 = 8;

/// A colour in the CIE L*a*b* space.
#[derive(Clone, Copy, Debug, PartialEq, Eq, Structural)]
pub struct LabColor {
    pub l: Binary32,
    pub a: Binary32,
    pub b: Binary32,
}

/// The outcome of one k-means run.
#[derive(Clone, Debug)]
pub struct KmeansRun {
    /// How far the centroids moved last.
    pub score: Binary32,
    pub centroids: Vec<LabColor>,
    /// The centroid of each point.
    pub indices: Vec<u8>,
}

/// Whether `lab` is an outcome of [`rgb_to_lab`].
pub uninterp spec fn lab_outcome(red: u8, green: u8, blue: u8, lab: LabColor) -> bool;

/// Whether the colour is an outcome of [`lab_to_rgb`].
pub uninterp spec fn rgb_outcome(lab: LabColor, red: u8, green: u8, blue: u8) -> bool;

/// Whether the run is an outcome of [`kmeans_run`].
pub uninterp spec fn kmeans_outcome(
    points: Seq<LabColor>,
    k: usize,
    iterations: usize,
    threshold: Binary32,
    seed: u64,
    score: Binary32,
    centroids: Seq<LabColor>,
    indices: Seq<u8>,
) -> bool;

/// Whether a colour lies within the bounds of the L*a*b* space: 0 to 100 for `l`, -128 to 127
/// for `a` and `b`.
pub open spec fn lab_within(c: LabColor) -> bool {
    let low = Binary32 { bits: 0xc300_0000 };
    let high = Binary32 { bits: 0x42fe_0000 };
    &&& (Binary32 { bits: 0 }).at_most(c.l) && c.l.at_most(Binary32 { bits: 0x42c8_0000 })
    &&& low.at_most(c.a) && c.a.at_most(high)
    &&& low.at_most(c.b) && c.b.at_most(high)
}

/// Whether all colours lie within the bounds of the L*a*b* space.
pub open spec fn labs_within(points: Seq<LabColor>) -> bool {
    forall|i: int| 0 <= i < points.len() ==> lab_within(#[trigger] points[i])
}

/// `palette`'s conversion of an sRGB colour of bytes to CIE L*a*b*, by way of
/// `into_linear` and `into_color`, which clamps to the bounds of the space. The last
/// digits rest on the machine's cube root, so beyond the bounds the contract claims no
/// more than that what came back is an outcome for these bytes.
#[verifier::external_body]
fn rgb_to_lab(red: u8, green: u8, blue: u8) -> (r: LabColor)
    ensures
        lab_outcome(red, green, blue, r),
        lab_within(r),
{
    let linear: LinSrgb = Srgb::<u8>::new(red, green, blue).into_linear();
    let lab: Lab = linear.into_color();
    LabColor {
        l: Binary32 { bits: lab.l.to_bits() },
        a: Binary32 { bits: lab.a.to_bits() },
        b: Binary32 { bits: lab.b.to_bits() },
    }
}

/// `palette::Srgb::from_color` on a CIE L*a*b* colour, then `into_format` to bytes.
/// The last digits rest on the machine's power function, so the contract claims no
/// more than that what came back is an outcome for this colour.
#[verifier::external_body]
fn lab_to_rgb(lab: LabColor) -> (r: [u8; 3])
    ensures
        rgb_outcome(lab, r[0], r[1], r[2]),
{
    let color: Lab = Lab::new(
        bytemuck::cast(lab.l.bits),
        bytemuck::cast(lab.a.bits),
        bytemuck::cast(lab.b.bits),
    );
    let srgb: Srgb = Srgb::from_color(color);
    let bytes: Srgb<u8> = srgb.into_format();
    [bytes.red, bytes.green, bytes.blue]
}

/// `kmeans_colors::get_kmeans_hamerly` on CIE L*a*b* points, not verbose: at most `k`
/// centroids, and for each point the index of one of them. The score is a sum of three
/// squares, none of which is large where up to 65536 points within the bounds of the
/// space are given: a centroid is a mean of points or a random colour within the bounds.
/// The last digits rest on the machine's power function, so the contract claims no more
/// of them than that they are an outcome for these arguments. The call panics without
/// points.
#[verifier::external_body]
fn kmeans_run(
    points: &Vec<LabColor>,
    k: usize,
    iterations: usize,
    threshold: Binary32,
    seed: u64,
) -> (r: KmeansRun)
    requires
        points@.len() > 0,
        k > 0,
    ensures
        kmeans_outcome(
            points@,
            k,
            iterations,
            threshold,
            seed,
            r.score,
            r.centroids@,
            r.indices@,
        ),
        r.indices@.len() == points@.len(),
        1 <= r.centroids@.len() <= k,
        forall|i: int|
            0 <= i < r.indices@.len() ==> #[trigger] r.indices@[i] < r.centroids@.len(),
        labs_within(points@) && points@.len() <= 0x1_0000 && k <= 0x1_0000 ==> (Binary32 {
            bits: 0,
        }).at_most(r.score) && r.score.less(Binary32 { bits: 0x7f7f_ffff }),
{
    let part = |x: Binary32| bytemuck::cast(x.bits);
    let buffer: Vec<Lab> = points.iter().map(|p| Lab::new(part(p.l), part(p.a), part(p.b))).collect();
    let run = get_kmeans_hamerly(k, iterations, part(threshold), false, &buffer, seed);
    let color = |c: &Lab| LabColor {
        l: Binary32 { bits: c.l.to_bits() },
        a: Binary32 { bits: c.a.to_bits() },
        b: Binary32 { bits: c.b.to_bits() },
    };
    KmeansRun {
        score: Binary32 { bits: run.score.to_bits() },
        centroids: run.centroids.iter().map(color).collect(),
        indices: run.indices,
    }
}

/// How many points have the index `idx`.
pub open spec fn member_count(indices: Seq<u8>, idx: nat) -> nat
    decreases indices.len(),
{
    if indices.len() == 0 {
        0
    } else {
        member_count(indices.drop_last(), idx) + if indices.last() == idx {
            1nat
        } else {
            0
        }
    }
}

/// The sum of the columns of the points with the index `idx`.
pub open spec fn column_sum(indices: Seq<u8>, idx: nat, width: nat) -> nat
    decreases indices.len(),
{
    if indices.len() == 0 {
        0
    } else {
        column_sum(indices.drop_last(), idx, width) + if indices.last() == idx {
            ((indices.len() - 1) as nat) % width
        } else {
            0
        }
    }
}

/// The sum of the rows of the points with the index `idx`.
pub open spec fn row_sum(indices: Seq<u8>, idx: nat, width: nat) -> nat
    decreases indices.len(),
{
    if indices.len() == 0 {
        0
    } else {
        row_sum(indices.drop_last(), idx, width) + if indices.last() == idx {
            ((indices.len() - 1) as nat) / width
        } else {
            0
        }
    }
}

/// The last coordinate of a side, or 1 for a side of one pixel.
pub open spec fn side_span(side: u32) -> nat {
    if side > 2 {
        (side - 1) as nat
    } else {
        1
    }
}

/// A mean coordinate within 0 to 1.
pub open spec fn mean_place(sum: nat, count: nat, side: u32) -> Binary32 {
    crate::binary64::double(sum).over(crate::binary64::double(count)).over(
        crate::binary64::double(side_span(side)),
    ).at_most_one().single()
}

/// The cluster of the points with the index `idx`.
pub open spec fn cluster_at(
    colors: Seq<[u8; 3]>,
    indices: Seq<u8>,
    width: u32,
    height: u32,
    idx: nat,
) -> Cluster {
    let count = member_count(indices, idx);
    Cluster {
        color: colors[idx as int],
        centroid: Centroid {
            x: mean_place(column_sum(indices, idx, width as nat), count, width),
            y: mean_place(row_sum(indices, idx, width as nat), count, height),
        },
        weight: crate::binary64::double(count).over(
            crate::binary64::double(indices.len()),
        ).single(),
    }
}

/// The clusters of the first `n` indices that have points.
pub open spec fn found_clusters(
    colors: Seq<[u8; 3]>,
    indices: Seq<u8>,
    width: u32,
    height: u32,
    n: nat,
) -> Seq<Cluster>
    decreases n,
{
    if n == 0 {
        Seq::empty()
    } else {
        let before = found_clusters(colors, indices, width, height, (n - 1) as nat);
        if member_count(indices, (n - 1) as nat) == 0 {
            before
        } else {
            before.push(cluster_at(colors, indices, width, height, (n - 1) as nat))
        }
    }
}

/// A number within 0 to 1.
pub open spec fn within_unit(x: Binary32) -> bool {
    x.finite() && !x.negative() && x.at_most(Binary32 { bits: ONE })
}

/// Whether place and weight of a cluster lie within 0 to 1.
pub open spec fn cluster_within(c: Cluster) -> bool {
    within_unit(c.centroid.x) && within_unit(c.centroid.y) && within_unit(c.weight)
}

/// Whether place and weight of all clusters lie within 0 to 1.
pub open spec fn clusters_within(s: Seq<Cluster>) -> bool {
    forall|i: int| 0 <= i < s.len() ==> cluster_within(#[trigger] s[i])
}

pub(crate) proof fn lemma_member_count(indices: Seq<u8>, idx: nat)
    ensures
        member_count(indices, idx) <= indices.len(),
    decreases indices.len(),
{
    if indices.len() > 0 {
        lemma_member_count(indices.drop_last(), idx);
    }
}

/// Places and weights of the clusters of a run lie within 0 to 1.
pub proof fn lemma_found_clusters_within(
    colors: Seq<[u8; 3]>,
    indices: Seq<u8>,
    width: u32,
    height: u32,
    n: nat,
)
    requires
        indices.len() < 0x20_0000_0000_0000,
    ensures
        clusters_within(found_clusters(colors, indices, width, height, n)),
    decreases n,
{
    if n > 0 {
        lemma_found_clusters_within(colors, indices, width, height, (n - 1) as nat);
        let idx = (n - 1) as nat;
        let count = member_count(indices, idx);
        lemma_member_count(indices, idx);
        if count > 0 {
            crate::binary64::lemma_double_ratio(count, indices.len());
            crate::binary64::lemma_single_unit(
                crate::binary64::double(count).over(crate::binary64::double(indices.len())),
            );
            let x = crate::binary64::double(column_sum(indices, idx, width as nat)).over(
                crate::binary64::double(count),
            ).over(crate::binary64::double(side_span(width)));
            let y = crate::binary64::double(row_sum(indices, idx, width as nat)).over(
                crate::binary64::double(count),
            ).over(crate::binary64::double(side_span(height)));
            crate::binary64::lemma_single_unit(x.at_most_one());
            crate::binary64::lemma_single_unit(y.at_most_one());
        }
    }
}

proof fn lemma_by_weight_within(s: Seq<Cluster>)
    requires
        clusters_within(s),
    ensures
        clusters_within(by_weight(s)),
    decreases s.len(),
{
    if s.len() > 0 {
        let front = s.drop_last();
        assert forall|i: int| 0 <= i < front.len() implies cluster_within(#[trigger] front[i]) by {
            assert(front[i] == s[i]);
        }
        lemma_by_weight_within(front);
        let w = weigh_in(by_weight(front), s.last());
        assert forall|i: int| 0 <= i < w.len() implies cluster_within(#[trigger] w[i]) by {
            lemma_weigh_in_members(by_weight(front), s.last(), i);
            assert(cluster_within(s[s.len() - 1]));
        }
    }
}

/// Puts a cluster behind all that weigh as much or more, in a sequence that is
/// ordered by falling weight.
pub open spec fn weigh_in(s: Seq<Cluster>, c: Cluster) -> Seq<Cluster>
    decreases s.len(),
{
    if s.len() == 0 || s.last().weight.total_rank() >= c.weight.total_rank() {
        s.push(c)
    } else {
        weigh_in(s.drop_last(), c).push(s.last())
    }
}

/// The number of pixels over the first `n` groups.
pub open spec fn member_total(indices: Seq<u8>, n: nat) -> nat
    decreases n,
{
    if n == 0 {
        0
    } else {
        member_total(indices, (n - 1) as nat) + member_count(indices, (n - 1) as nat)
    }
}

proof fn lemma_member_total_step(indices: Seq<u8>, n: nat)
    requires
        indices.len() > 0,
    ensures
        member_total(indices, n) == member_total(indices.drop_last(), n) + if indices.last() < n {
            1nat
        } else {
            0
        },
    decreases n,
{
    if n > 0 {
        lemma_member_total_step(indices, (n - 1) as nat);
    }
}

/// Every pixel is counted for exactly one group, so the groups' sizes add up to the picture.
pub proof fn lemma_groups_share_the_pixels(indices: Seq<u8>, n: nat)
    requires
        forall|p: int| 0 <= p < indices.len() ==> #[trigger] indices[p] < n,
    ensures
        member_total(indices, n) == indices.len(),
    decreases indices.len(),
{
    if indices.len() == 0 {
        lemma_no_members(indices, n);
    } else {
        lemma_member_total_step(indices, n);
        lemma_groups_share_the_pixels(indices.drop_last(), n);
    }
}

proof fn lemma_no_members(indices: Seq<u8>, n: nat)
    requires
        indices.len() == 0,
    ensures
        member_total(indices, n) == 0,
    decreases n,
{
    if n > 0 {
        lemma_no_members(indices, (n - 1) as nat);
    }
}

/// The clusters by falling weight; those of one weight keep their order.
pub open spec fn by_weight(s: Seq<Cluster>) -> Seq<Cluster>
    decreases s.len(),
{
    if s.len() == 0 {
        s
    } else {
        weigh_in(by_weight(s.drop_last()), s.last())
    }
}

/// Falling weights.
pub open spec fn weights_fall(s: Seq<Cluster>) -> bool {
    forall|i: int, j: int|
        0 <= i < j < s.len() ==> #[trigger] s[i].weight.total_rank() >= #[trigger] s[j].weight.total_rank()
}

proof fn lemma_weigh_in(s: Seq<Cluster>, c: Cluster)
    requires
        weights_fall(s),
    ensures
        weights_fall(weigh_in(s, c)),
        weigh_in(s, c).to_multiset() == s.to_multiset().insert(c),
        weigh_in(s, c).len() == s.len() + 1,
    decreases s.len(),
{
    broadcast use vstd::seq_lib::group_to_multiset_ensures;

    if s.len() == 0 || s.last().weight.total_rank() >= c.weight.total_rank() {
        assert(weights_fall(s.push(c))) by {
            assert forall|i: int, j: int| 0 <= i < j < s.push(c).len() implies #[trigger] s.push(
                c,
            )[i].weight.total_rank() >= #[trigger] s.push(c)[j].weight.total_rank() by {
                if j == s.len() && i < s.len() - 1 {
                    assert(s[i].weight.total_rank() >= s[s.len() - 1].weight.total_rank());
                }
            }
        }
    } else {
        let front = s.drop_last();
        lemma_weigh_in(front, c);
        let w = weigh_in(front, c);
        assert(s =~= front.push(s.last()));
        assert(weigh_in(s, c).to_multiset() =~= s.to_multiset().insert(c));
        assert forall|i: int, j: int| 0 <= i < j < w.push(s.last()).len() implies #[trigger] w.push(
            s.last(),
        )[i].weight.total_rank() >= #[trigger] w.push(s.last())[j].weight.total_rank() by {
            if j == w.len() {
                lemma_weigh_in_members(front, c, i);
            }
        }
    }
}

/// What `weigh_in` yields is the cluster or was there before.
pub(crate) proof fn lemma_weigh_in_members(s: Seq<Cluster>, c: Cluster, i: int)
    requires
        0 <= i < weigh_in(s, c).len(),
    ensures
        weigh_in(s, c)[i] == c || exists|j: int| 0 <= j < s.len() && s[j] == weigh_in(s, c)[i],
        weigh_in(s, c).len() == s.len() + 1,
    decreases s.len(),
{
    if s.len() == 0 || s.last().weight.total_rank() >= c.weight.total_rank() {
        if i < s.len() {
            assert(s[i] == weigh_in(s, c)[i]);
        }
    } else {
        let front = s.drop_last();
        let w = weigh_in(front, c);
        if i < w.len() {
            lemma_weigh_in_members(front, c, i);
            if w[i] != c {
                let j = choose|j: int| 0 <= j < front.len() && front[j] == w[i];
                assert(s[j] == weigh_in(s, c)[i]);
            }
        } else {
            lemma_weigh_in_members(front, c, 0);
            assert(s[s.len() - 1] == weigh_in(s, c)[i]);
        }
    }
}

/// Ordering by weight loses no cluster, adds none, and lets the weights fall.
pub proof fn lemma_by_weight(s: Seq<Cluster>)
    ensures
        weights_fall(by_weight(s)),
        by_weight(s).to_multiset() == s.to_multiset(),
        by_weight(s).len() == s.len(),
    decreases s.len(),
{
    broadcast use vstd::seq_lib::group_to_multiset_ensures;

    if s.len() > 0 {
        lemma_by_weight(s.drop_last());
        lemma_weigh_in(by_weight(s.drop_last()), s.last());
        assert(s =~= s.drop_last().push(s.last()));
    }
}

/// Where `weigh_in` puts the cluster.
proof fn lemma_weigh_in_at(s: Seq<Cluster>, c: Cluster, p: int)
    requires
        0 <= p <= s.len(),
        p == 0 || s[p - 1].weight.total_rank() >= c.weight.total_rank(),
        forall|i: int| p <= i < s.len() ==> (#[trigger] s[i]).weight.total_rank() < c.weight.total_rank(),
    ensures
        weigh_in(s, c) == s.insert(p, c),
    decreases s.len(),
{
    if p == s.len() {
        assert(s.insert(p, c) =~= s.push(c));
    } else {
        assert(s[s.len() - 1].weight.total_rank() < c.weight.total_rank());
        let front = s.drop_last();
        assert forall|i: int| p <= i < front.len() implies (#[trigger] front[i]).weight.total_rank()
            < c.weight.total_rank() by {
            assert(front[i] == s[i]);
        }
        lemma_weigh_in_at(front, c, p);
        assert(s.insert(p, c) =~= front.insert(p, c).push(s.last()));
    }
}

fn insert_by_weight(v: &mut Vec<Cluster>, c: Cluster)
    ensures
        final(v)@ == weigh_in(old(v)@, c),
{
    let mut p: usize = v.len();
    let ghost start = v@;
    while p > 0 && v[p - 1].weight.total_lt(c.weight)
        invariant
            v@ == start,
            p <= v@.len(),
            forall|i: int|
                p <= i < v@.len() ==> (#[trigger] v@[i]).weight.total_rank() < c.weight.total_rank(),
        decreases p,
    {
        p = p - 1;
    }
    proof {
        lemma_weigh_in_at(start, c, p as int);
    }
    v.insert(p, c);
}

proof fn lemma_tally_bounds(indices: Seq<u8>, idx: nat, width: nat, w: nat)
    requires
        0 < width <= w,
        indices.len() <= w,
    ensures
        member_count(indices, idx) <= indices.len(),
        column_sum(indices, idx, width) <= indices.len() * w,
        row_sum(indices, idx, width) <= indices.len() * w,
    decreases indices.len(),
{
    if indices.len() > 0 {
        let n = indices.len();
        lemma_tally_bounds(indices.drop_last(), idx, width, w);
        vstd::arithmetic::div_mod::lemma_mod_bound(n - 1, width as int);
        vstd::arithmetic::div_mod::lemma_div_nonincreasing(n - 1, width as int);
        assert(n * w == (n - 1) * w + w) by (nonlinear_arith)
            requires
                n >= 1,
        ;
    }
}

/// A mean coordinate within 0 to 1.
fn mean_coordinate(sum: u64, count: u64, side: u32) -> (r: Binary32)
    requires
        count > 0,
    ensures
        r == mean_place(sum as nat, count as nat, side),
{
    let span: u64 = if side > 2 {
        (side - 1) as u64
    } else {
        1
    };
    Binary64::from_u64(sum).div(Binary64::from_u64(count)).div(
        Binary64::from_u64(span),
    ).min_one().to_binary32()
}

/// Whether a run fits a picture that k-means is given.
pub open spec fn run_fits(colors: Seq<[u8; 3]>, indices: Seq<u8>, width: u32) -> bool {
    &&& 0 < width <= 0x1_0000
    &&& 0 < indices.len() <= 0x1_0000
    &&& colors.len() <= usize::MAX
}

/// The clusters of a picture of which `indices` gives the group of each pixel and
/// `colors` the colour of each group: the groups that have pixels, by falling weight.
/// An index without a colour is passed over.
pub fn clusters_of_run(colors: &Vec<[u8; 3]>, indices: &Vec<u8>, width: u32, height: u32) -> (r: Vec<
    Cluster,
>)
    requires
        run_fits(colors@, indices@, width),
    ensures
        r@ == by_weight(found_clusters(colors@, indices@, width, height, colors@.len())),
        r@.len() <= colors@.len(),
{
    let n: usize = colors.len();
    let mut counts: Vec<u64> = Vec::new();
    let mut sum_x: Vec<u64> = Vec::new();
    let mut sum_y: Vec<u64> = Vec::new();
    let mut j: usize = 0;
    while j < n
        invariant
            j <= n,
            counts@.len() == j,
            sum_x@.len() == j,
            sum_y@.len() == j,
            forall|g: int| 0 <= g < j ==> counts@[g] == 0 && sum_x@[g] == 0 && sum_y@[g] == 0,
        decreases n - j,
    {
        counts.push(0);
        sum_x.push(0);
        sum_y.push(0);
        j = j + 1;
    }
    let mut i: usize = 0;
    proof {
        assert(indices@.take(0) =~= Seq::<u8>::empty());
    }
    while i < indices.len()
        invariant
            i <= indices@.len() <= 0x1_0000,
            0 < width <= 0x1_0000,
            n == colors@.len(),
            counts@.len() == n,
            sum_x@.len() == n,
            sum_y@.len() == n,
            forall|g: int|
                #![trigger counts@[g]]
                #![trigger sum_x@[g]]
                #![trigger sum_y@[g]]
                0 <= g < n ==> {
                    &&& counts@[g] == member_count(indices@.take(i as int), g as nat)
                    &&& sum_x@[g] == column_sum(indices@.take(i as int), g as nat, width as nat)
                    &&& sum_y@[g] == row_sum(indices@.take(i as int), g as nat, width as nat)
                },
        decreases indices.len() - i,
    {
        let idx: usize = indices[i] as usize;
        let ghost now = indices@.take(i as int);
        let ghost next = indices@.take(i + 1);
        proof {
            assert(next.drop_last() =~= now);
            assert(next.last() == idx);
            assert forall|g: int| #![trigger counts@[g]] 0 <= g < n implies {
                &&& member_count(next, g as nat) == member_count(now, g as nat) + if idx == g {
                    1int
                } else {
                    0
                }
                &&& column_sum(next, g as nat, width as nat) == column_sum(
                    now,
                    g as nat,
                    width as nat,
                ) + if idx == g {
                    (i as nat % width as nat) as int
                } else {
                    0
                }
                &&& row_sum(next, g as nat, width as nat) == row_sum(now, g as nat, width as nat)
                    + if idx == g {
                    (i as nat / width as nat) as int
                } else {
                    0
                }
            } by {}
        }
        if idx < n {
            let x: u32 = (i as u32) % width;
            let y: u32 = (i as u32) / width;
            proof {
                lemma_tally_bounds(now, idx as nat, width as nat, 0x1_0000);
                assert(now.len() * 0x1_0000 <= 0x1_0000_0000) by (nonlinear_arith)
                    requires
                        now.len() <= 0x1_0000,
                ;
                vstd::arithmetic::div_mod::lemma_div_nonincreasing(i as int, width as int);
            }
            let c: u64 = counts[idx] + 1;
            let sx: u64 = sum_x[idx] + x as u64;
            let sy: u64 = sum_y[idx] + y as u64;
            counts.set(idx, c);
            sum_x.set(idx, sx);
            sum_y.set(idx, sy);
        }
        i = i + 1;
    }
    proof {
        assert(indices@.take(i as int) =~= indices@);
    }
    let total: u64 = indices.len() as u64;
    let mut found: Vec<Cluster> = Vec::new();
    let mut g: usize = 0;
    while g < n
        invariant
            g <= n,
            n == colors@.len(),
            counts@.len() == n,
            sum_x@.len() == n,
            sum_y@.len() == n,
            total == indices@.len(),
            total > 0,
            forall|q: int|
                #![trigger counts@[q]]
                #![trigger sum_x@[q]]
                #![trigger sum_y@[q]]
                0 <= q < n ==> {
                    &&& counts@[q] == member_count(indices@, q as nat)
                    &&& sum_x@[q] == column_sum(indices@, q as nat, width as nat)
                    &&& sum_y@[q] == row_sum(indices@, q as nat, width as nat)
                },
            found@ == by_weight(found_clusters(colors@, indices@, width, height, g as nat)),
            found@.len() <= g,
        decreases n - g,
    {
        let count: u64 = counts[g];
        let ghost before = found_clusters(colors@, indices@, width, height, g as nat);
        if count != 0 {
            let c = Cluster {
                color: colors[g],
                centroid: Centroid {
                    x: mean_coordinate(sum_x[g], count, width),
                    y: mean_coordinate(sum_y[g], count, height),
                },
                weight: Binary64::from_u64(count).div(Binary64::from_u64(total)).to_binary32(),
            };
            proof {
                assert(c == cluster_at(colors@, indices@, width, height, g as nat));
                assert(before.push(c).drop_last() =~= before);
                lemma_by_weight(before);
                lemma_weigh_in(by_weight(before), c);
            }
            insert_by_weight(&mut found, c);
        }
        g = g + 1;
    }
    found
}

/// The longer of the two sides.
pub open spec fn longest_side(width: u32, height: u32) -> u32 {
    if width >= height {
        width
    } else {
        height
    }
}

/// A side of a reduced picture.
pub open spec fn reduced_side(side: u32, longest: u32) -> u32 {
    let n = scaled_side(
        side,
        (Binary32 { bits: 0x4380_0000 }).over(of_int(false, longest as nat)),
    );
    if n < KMEANS_MIN_EDGE {
        KMEANS_MIN_EDGE
    } else {
        n as u32
    }
}

/// The width of the picture that k-means is given.
pub open spec fn sample_width(width: u32, height: u32) -> u32 {
    let longest = longest_side(width, height);
    if longest <= KMEANS_TARGET_LONG_EDGE {
        width
    } else {
        reduced_side(width, longest)
    }
}

/// The height of the picture that k-means is given.
pub open spec fn sample_height(width: u32, height: u32) -> u32 {
    let longest = longest_side(width, height);
    if longest <= KMEANS_TARGET_LONG_EDGE {
        height
    } else {
        reduced_side(height, longest)
    }
}

/// The bytes of the picture that k-means is given: the picture itself, or reduced
/// where a side is longer than [`KMEANS_TARGET_LONG_EDGE`].
pub open spec fn sample_bytes(data: Seq<u8>, width: u32, height: u32) -> Seq<u8> {
    if longest_side(width, height) <= KMEANS_TARGET_LONG_EDGE {
        data
    } else {
        resized_rgb(
            data,
            width,
            height,
            sample_width(width, height),
            sample_height(width, height),
        )
    }
}

/// 256 is a single precision number.
pub(crate) proof fn lemma_target_number()
    ensures
        of_int(false, 256) == (Binary32 { bits: 0x4380_0000 }),
{
    lemma_of_int_exact(false, 256);
    let x = Binary32 { bits: 0x4380_0000 };
    lemma_pow2_values();
    lemma_pow2_adds(15, 134);
    vstd::arithmetic::power2::lemma2_to64();
    assert(x.units() == 0x80_0000 * pow2(134));
    lemma_rank_orders_values(of_int(false, 256), x);
}

/// A picture for k-means has sides of at most [`KMEANS_TARGET_LONG_EDGE`].
proof fn lemma_reduced_side(side: u32, longest: u32)
    requires
        0 < side <= longest,
    ensures
        KMEANS_MIN_EDGE <= reduced_side(side, longest) <= KMEANS_TARGET_LONG_EDGE,
        scaled_side(
            side,
            (Binary32 { bits: 0x4380_0000 }).over(of_int(false, longest as nat)),
        ) <= 256,
{
    let q = (Binary32 { bits: 0x4380_0000 }).over(of_int(false, longest as nat));
    lemma_target_number();
    crate::scaling::lemma_scale_close(longest, 256);
    lemma_scaled_side_fits(side, longest, 256, q);
}

/// Reduces a picture for k-means, and leaves a small one as it is.
fn downsample_for_kmeans(img: &RgbPicture) -> (r: Option<RgbPicture>)
    requires
        img.wf(),
        img.width > 0,
        img.height > 0,
    ensures
        r is None <==> longest_side(img.width, img.height) <= KMEANS_TARGET_LONG_EDGE,
        r matches Some(p) ==> {
            &&& p.wf()
            &&& p.width == sample_width(img.width, img.height)
            &&& p.height == sample_height(img.width, img.height)
            &&& p.data@ == sample_bytes(img.data@, img.width, img.height)
            &&& 0 < p.width <= 256
            &&& 0 < p.height <= 256
        },
{
    let longest: u32 = if img.width >= img.height {
        img.width
    } else {
        img.height
    };
    if longest <= KMEANS_TARGET_LONG_EDGE {
        return None;
    }
    let scale = (Binary32 { bits: 0x4380_0000 }).div(Binary32::from_u64(longest as u64));
    let dw: u32 = scale_side(img.width, scale);
    let dh: u32 = scale_side(img.height, scale);
    proof {
        lemma_reduced_side(img.width, longest);
        lemma_reduced_side(img.height, longest);
    }
    let dw: u32 = if dw < KMEANS_MIN_EDGE {
        KMEANS_MIN_EDGE
    } else {
        dw
    };
    let dh: u32 = if dh < KMEANS_MIN_EDGE {
        KMEANS_MIN_EDGE
    } else {
        dh
    };
    Some(resize_rgb(img, dw, dh))
}

/// The index of the best of the first `n` scores: the first one below all before it
/// and below the largest number. None where there is no such score.
pub open spec fn best_score(scores: Seq<Binary32>, n: nat) -> Option<nat>
    decreases n,
{
    if n == 0 {
        None
    } else {
        let best = best_score(scores, (n - 1) as nat);
        let limit = match best {
            Some(i) => scores[i as int],
            None => Binary32 { bits: 0x7f7f_ffff },
        };
        if scores[n - 1].less(limit) {
            Some((n - 1) as nat)
        } else {
            best
        }
    }
}

/// Where the first score is below the largest number there is a best one.
proof fn lemma_some_best(scores: Seq<Binary32>, n: nat)
    requires
        1 <= n <= scores.len(),
        scores[0].less(Binary32 { bits: 0x7f7f_ffff }),
    ensures
        best_score(scores, n) is Some,
    decreases n,
{
    if n > 1 {
        lemma_some_best(scores, (n - 1) as nat);
    } else {
        assert(best_score(scores, 0) is None);
    }
}

/// The index of the best score, the lowest one, the first of equals.
pub fn best_run(scores: &Vec<Binary32>) -> (r: Option<usize>)
    ensures
        match r {
            Some(i) => best_score(scores@, scores@.len()) == Some(i as nat) && i < scores@.len(),
            None => best_score(scores@, scores@.len()) is None,
        },
{
    let mut best: Option<usize> = None;
    let mut limit = Binary32 { bits: 0x7f7f_ffff };
    let mut i: usize = 0;
    while i < scores.len()
        invariant
            i <= scores@.len(),
            match best {
                Some(b) => best_score(scores@, i as nat) == Some(b as nat) && b < i && limit
                    == scores@[b as int],
                None => best_score(scores@, i as nat) is None && limit.bits == 0x7f7f_ffff,
            },
        decreases scores.len() - i,
    {
        if scores[i].lt(limit) {
            best = Some(i);
            limit = scores[i];
        }
        i = i + 1;
    }
    best
}

/// Whether `points` are the colours of the bytes, three for each pixel.
pub open spec fn lab_pixels(bytes: Seq<u8>, points: Seq<LabColor>) -> bool {
    &&& bytes.len() == 3 * points.len()
    &&& forall|i: int|
        0 <= i < points.len() ==> lab_outcome(
            bytes[3 * i],
            bytes[3 * i + 1],
            bytes[3 * i + 2],
            #[trigger] points[i],
        )
}

/// Whether `colors` are the colours of the centroids.
pub open spec fn rgb_centroids(centroids: Seq<LabColor>, colors: Seq<[u8; 3]>) -> bool {
    &&& colors.len() == centroids.len()
    &&& forall|i: int|
        0 <= i < colors.len() ==> rgb_outcome(
            centroids[i],
            (#[trigger] colors[i])[0],
            colors[i][1],
            colors[i][2],
        )
}

/// Whether the runs are those of k-means on the points, with seeds one after the other.
pub open spec fn kmeans_runs(points: Seq<LabColor>, k: nat, runs: Seq<KmeansRun>) -> bool {
    &&& runs.len() == KMEANS_RUNS
    &&& forall|i: int|
        0 <= i < runs.len() ==> kmeans_outcome(
            points,
            (if k < points.len() {
                k
            } else {
                points.len()
            }) as usize,
            KMEANS_MAX_ITER,
            Binary32 { bits: KMEANS_CONVERGE },
            (KMEANS_SEED + i) as u64,
            (#[trigger] runs[i]).score,
            runs[i].centroids@,
            runs[i].indices@,
        )
}

/// The scores of the runs.
pub open spec fn scores_of(runs: Seq<KmeansRun>) -> Seq<Binary32> {
    Seq::new(runs.len(), |i: int| runs[i].score)
}

/// The best run.
pub open spec fn best_of(runs: Seq<KmeansRun>) -> Option<nat> {
    best_score(scores_of(runs), runs.len())
}

/// What extraction returns for the outcomes of the outside steps: the clusters of the
/// best run, or none where no run is better than none.
pub open spec fn clusters_from(
    runs: Seq<KmeansRun>,
    colors: Seq<[u8; 3]>,
    width: u32,
    height: u32,
) -> Seq<Cluster> {
    match best_of(runs) {
        Some(i) => by_weight(
            found_clusters(colors, runs[i as int].indices@, width, height, colors.len()),
        ),
        None => Seq::empty(),
    }
}

/// Whether `clusters` are a possible result of extraction from a picture: `points` are
/// its pixels in the L*a*b* space, `runs` those of k-means on them, `colors` the
/// centroids of the best run.
pub open spec fn extracted(
    data: Seq<u8>,
    width: u32,
    height: u32,
    k: nat,
    clusters: Seq<Cluster>,
) -> bool {
    exists|points: Seq<LabColor>, runs: Seq<KmeansRun>, colors: Seq<[u8; 3]>|
        {
            &&& #[trigger] lab_pixels(sample_bytes(data, width, height), points)
            &&& #[trigger] kmeans_runs(points, k, runs)
            &&& best_of(runs) matches Some(i) ==> rgb_centroids(runs[i as int].centroids@, colors)
            &&& clusters == #[trigger] clusters_from(
                runs,
                colors,
                sample_width(width, height),
                sample_height(width, height),
            )
        }
}

fn pixels_to_lab(bytes: &Vec<u8>, n: usize) -> (points: Vec<LabColor>)
    requires
        bytes@.len() == 3 * n,
    ensures
        points@.len() == n,
        lab_pixels(bytes@, points@),
        labs_within(points@),
{
    let mut points: Vec<LabColor> = Vec::new();
    let mut i: usize = 0;
    let len: usize = bytes.len();
    while i < n
        invariant
            i <= n,
            len == bytes@.len(),
            len == 3 * n,
            points@.len() == i,
            labs_within(points@),
            forall|j: int|
                0 <= j < points@.len() ==> lab_outcome(
                    bytes@[3 * j],
                    bytes@[3 * j + 1],
                    bytes@[3 * j + 2],
                    #[trigger] points@[j],
                ),
        decreases n - i,
    {
        points.push(rgb_to_lab(bytes[3 * i], bytes[3 * i + 1], bytes[3 * i + 2]));
        i = i + 1;
    }
    points
}

fn centroids_to_rgb(centroids: &Vec<LabColor>) -> (colors: Vec<[u8; 3]>)
    ensures
        rgb_centroids(centroids@, colors@),
{
    let mut colors: Vec<[u8; 3]> = Vec::new();
    let mut i: usize = 0;
    while i < centroids.len()
        invariant
            i <= centroids@.len(),
            colors@.len() == i,
            forall|j: int|
                0 <= j < colors@.len() ==> rgb_outcome(
                    centroids@[j],
                    (#[trigger] colors@[j])[0],
                    colors@[j][1],
                    colors@[j][2],
                ),
        decreases centroids.len() - i,
    {
        colors.push(lab_to_rgb(centroids[i]));
        i = i + 1;
    }
    colors
}

/// Groups the pixels of a picture that is small enough for k-means.
fn cluster_sample(img: &RgbPicture, k: usize) -> (r: Vec<Cluster>)
    requires
        img.wf(),
        0 < img.width <= 256,
        0 < img.height <= 256,
        k > 0,
    ensures
        1 <= r@.len() <= k,
        r@.len() <= img.width * img.height,
        clusters_within(r@),
        whole_shared(r@),
        exists|points: Seq<LabColor>, runs: Seq<KmeansRun>, colors: Seq<[u8; 3]>|
            {
                &&& #[trigger] lab_pixels(img.data@, points)
                &&& #[trigger] kmeans_runs(points, k as nat, runs)
                &&& best_of(runs) matches Some(i) ==> rgb_centroids(
                    runs[i as int].centroids@,
                    colors,
                )
                &&& r@ == #[trigger] clusters_from(runs, colors, img.width, img.height)
            },
{
    proof {
        assert(0 < img.width * img.height <= 0x1_0000) by (nonlinear_arith)
            requires
                0 < img.width <= 256,
                0 < img.height <= 256,
        ;
        assert(3 * img.width * img.height == 3 * (img.width * img.height)) by (nonlinear_arith);
    }
    let n: usize = img.width as usize * img.height as usize;
    let points = pixels_to_lab(&img.data, n);
    let effective_k: usize = if k < n {
        k
    } else {
        n
    };
    let mut runs: Vec<KmeansRun> = Vec::new();
    let mut scores: Vec<Binary32> = Vec::new();
    let mut i: u64 = 0;
    while i < KMEANS_RUNS
        invariant
            i <= KMEANS_RUNS,
            runs@.len() == i,
            scores@ == scores_of(runs@),
            points@.len() == n,
            labs_within(points@),
            0 < n <= 0x1_0000,
            k > 0,
            effective_k == if k < n {
                k
            } else {
                n
            },
            forall|j: int|
                0 <= j < runs@.len() ==> {
                    &&& kmeans_outcome(
                        points@,
                        effective_k,
                        KMEANS_MAX_ITER,
                        Binary32 { bits: KMEANS_CONVERGE },
                        (KMEANS_SEED + j) as u64,
                        (#[trigger] runs@[j]).score,
                        runs@[j].centroids@,
                        runs@[j].indices@,
                    )
                    &&& runs@[j].indices@.len() == n
                    &&& runs@[j].centroids@.len() <= effective_k
                    &&& forall|p: int|
                        0 <= p < n ==> #[trigger] runs@[j].indices@[p] < runs@[j].centroids@.len()
                    &&& runs@[j].score.less(Binary32 { bits: 0x7f7f_ffff })
                },
        decreases KMEANS_RUNS - i,
    {
        let run = kmeans_run(
            &points,
            effective_k,
            KMEANS_MAX_ITER,
            Binary32 { bits: KMEANS_CONVERGE },
            KMEANS_SEED + i,
        );
        scores.push(run.score);
        runs.push(run);
        i = i + 1;
        proof {
            assert(scores@ =~= scores_of(runs@));
        }
    }
    proof {
        assert(kmeans_runs(points@, k as nat, runs@));
        assert(scores@[0] == runs@[0].score);
        lemma_some_best(scores@, scores@.len());
    }
    match best_run(&scores) {
        Some(b) => {
            let colors = centroids_to_rgb(&runs[b].centroids);
            let r = clusters_of_run(&colors, &runs[b].indices, img.width, img.height);
            proof {
                assert(r@ == clusters_from(runs@, colors@, img.width, img.height));
                let indices = runs@[b as int].indices@;
                let found = found_clusters(colors@, indices, img.width, img.height, colors@.len());
                lemma_found_clusters_within(
                    colors@,
                    indices,
                    img.width,
                    img.height,
                    colors@.len(),
                );
                lemma_by_weight_within(found);
                lemma_clusters_share_the_picture(colors@, indices, img.width, img.height);
            }
            r
        },
        None => {
            proof {
                assert(false);
            }
            Vec::new()
        },
    }
}

/// Extracts colour clusters from a picture, by falling weight: at least one and at most `k`,
/// no more than there are pixels, whose weights come to 1.
pub fn extract_clusters(img: &RgbPicture, k: usize) -> (r: Result<Vec<Cluster>, ClusterError>)
    requires
        img.wf(),
    ensures
        match r {
            Err(e) => {
                ||| k == 0 && e == ClusterError::KZero
                ||| k > 0 && (img.width == 0 || img.height == 0) && e == ClusterError::EmptyImage
            },
            Ok(clusters) => {
                &&& k > 0 && img.width > 0 && img.height > 0
                &&& extracted(img.data@, img.width, img.height, k as nat, clusters@)
                &&& 1 <= clusters@.len() <= k
                &&& clusters@.len() <= sample_width(img.width, img.height) * sample_height(
                    img.width,
                    img.height,
                )
                &&& weights_fall(clusters@)
                &&& clusters_within(clusters@)
                &&& whole_shared(clusters@)
            },
        },
{
    if k == 0 {
        return Err(ClusterError::KZero);
    }
    if img.width == 0 || img.height == 0 {
        return Err(ClusterError::EmptyImage);
    }
    let clusters = match downsample_for_kmeans(img) {
        None => cluster_sample(img, k),
        Some(small) => cluster_sample(&small, k),
    };
    proof {
        let (w, h) = (sample_width(img.width, img.height), sample_height(img.width, img.height));
        let bytes = sample_bytes(img.data@, img.width, img.height);
        let (points, runs, colors) = choose|
            points: Seq<LabColor>,
            runs: Seq<KmeansRun>,
            colors: Seq<[u8; 3]>,
        |
            {
                &&& #[trigger] lab_pixels(bytes, points)
                &&& #[trigger] kmeans_runs(points, k as nat, runs)
                &&& best_of(runs) matches Some(i) ==> rgb_centroids(
                    runs[i as int].centroids@,
                    colors,
                )
                &&& clusters@ == #[trigger] clusters_from(runs, colors, w, h)
            };
        assert(extracted(img.data@, img.width, img.height, k as nat, clusters@));
        if let Some(i) = best_of(runs) {
            lemma_by_weight(
                found_clusters(colors, runs[i as int].indices@, w, h, colors.len()),
            );
        }
    }
    Ok(clusters)
}

/// The index of the heaviest of the first `n` clusters, the last one of equals.
pub open spec fn dominant(clusters: Seq<Cluster>, n: nat) -> nat
    decreases n,
{
    if n <= 1 {
        0
    } else {
        let before = dominant(clusters, (n - 1) as nat);
        if clusters[before as int].weight.total_rank() > clusters[n - 1].weight.total_rank() {
            before
        } else {
            (n - 1) as nat
        }
    }
}

/// No cluster weighs more than the dominant one, and those behind it weigh less.
pub proof fn lemma_dominant(clusters: Seq<Cluster>, n: nat, i: int)
    requires
        0 <= i < n <= clusters.len(),
    ensures
        dominant(clusters, n) < n,
        clusters[i].weight.total_rank() <= clusters[dominant(clusters, n) as int].weight.total_rank(),
        i > dominant(clusters, n) ==> clusters[i].weight.total_rank() < clusters[dominant(
            clusters,
            n,
        ) as int].weight.total_rank(),
    decreases n,
{
    if n > 1 {
        lemma_dominant(
            clusters,
            (n - 1) as nat,
            if i < n - 1 {
                i
            } else {
                0
            },
        );
    }
}

/// The index of the heaviest cluster, the last one of equals.
pub fn dominant_index(clusters: &[Cluster]) -> (r: Option<usize>)
    ensures
        r is None <==> clusters@.len() == 0,
        r matches Some(i) ==> i == dominant(clusters@, clusters@.len()) && i < clusters@.len(),
{
    if clusters.len() == 0 {
        return None;
    }
    let mut best: usize = 0;
    let mut i: usize = 1;
    while i < clusters.len()
        invariant
            1 <= i <= clusters@.len(),
            best == dominant(clusters@, i as nat),
            best < i,
        decreases clusters.len() - i,
    {
        if !clusters[i].weight.total_lt(clusters[best].weight) {
            best = i;
        }
        i = i + 1;
    }
    Some(best)
}

/// The background that a picture's clusters suggest: the colour of the heaviest one,
/// opaque; black where there is none.
pub fn derive_background_rgba(clusters: &[Cluster]) -> (r: [u8; 4])
    ensures
        clusters@.len() == 0 ==> r@ == seq![0u8, 0, 0, 255],
        clusters@.len() > 0 ==> r@ == clusters@[dominant(
            clusters@,
            clusters@.len(),
        ) as int].color@.push(255),
{
    match dominant_index(clusters) {
        Some(i) => {
            let c = clusters[i].color;
            let r = [c[0], c[1], c[2], 255];
            assert(r@ =~= c@.push(255));
            r
        },
        None => {
            let r = [0, 0, 0, 255];
            assert(r@ =~= seq![0u8, 0, 0, 255]);
            r
        },
    }
}

/// The clusters without the heaviest one, in their order.
pub fn drop_dominant(clusters: &[Cluster]) -> (r: Vec<Cluster>)
    ensures
        clusters@.len() == 0 ==> r@.len() == 0,
        clusters@.len() > 0 ==> r@ == clusters@.remove(
            dominant(clusters@, clusters@.len()) as int,
        ),
{
    let mut r: Vec<Cluster> = Vec::new();
    let d: usize = match dominant_index(clusters) {
        Some(i) => i,
        None => {
            return r;
        },
    };
    let mut i: usize = 0;
    while i < clusters.len()
        invariant
            i <= clusters@.len(),
            d < clusters@.len(),
            r@ == clusters@.remove(d as int).take(
                if i <= d {
                    i as int
                } else {
                    i - 1
                },
            ),
        decreases clusters.len() - i,
    {
        let ghost rest = clusters@.remove(d as int);
        if i != d {
            r.push(clusters[i]);
            proof {
                let k = if i < d {
                    i as int
                } else {
                    i - 1
                };
                assert(rest[k] == clusters@[i as int]);
                assert(rest.take(k + 1) =~= rest.take(k).push(rest[k]));
            }
        }
        i = i + 1;
    }
    proof {
        assert(r@ =~= clusters@.remove(d as int));
    }
    r
}

/// The background takes its colour from the one cluster that the orbs lose.
pub proof fn lemma_background_leaves_the_orbs(clusters: Seq<Cluster>, background: Seq<u8>, orbs: Seq<
    Cluster,
>)
    requires
        clusters.len() > 0,
        background == clusters[dominant(clusters, clusters.len()) as int].color@.push(255),
        orbs == clusters.remove(dominant(clusters, clusters.len()) as int),
    ensures
        orbs.len() == clusters.len() - 1,
        exists|c: Cluster|
            {
                &&& background == c.color@.push(255)
                &&& #[trigger] orbs.insert(dominant(clusters, clusters.len()) as int, c) == clusters
            },
{
    lemma_dominant(clusters, clusters.len(), 0);
    let d = dominant(clusters, clusters.len()) as int;
    let c = clusters[d];
    assert(orbs.insert(d, c) =~= clusters);
}

} // verus!
