//! Laws of the rows that a frame holds for its orbs, and of what the shader gets of them.

use crate::animate::{
    all_orb_words, cluster_weights, drift_of, header_words, orb_params, orb_words, reached,
    weight_sum, weighted_index, AnimateOptions, OrbParams,
};
use crate::binary32::{Binary32, ONE};
use crate::cluster::{within_unit, Cluster};
use crate::gpu::{
    claimed_orbs, colored_at, drifts_at, frame_header, frame_words, is_frame, lemma_saturation_one,
    orb_of, orb_row, orb_rows, params_of, saturated_pack, GpuOrb, Params,
};
use crate::integers::{lemma_of_int_exact, of_int};
use crate::orb::{channel_number, OrbStyle};
use vstd::arithmetic::power2::pow2;
use vstd::prelude::*;

verus! {

/// The words of orb `i`.
#[verifier::opaque]
spec fn row_of(
    clusters: Seq<Cluster>,
    seed: u64,
    drift: Option<Seq<Binary32>>,
    i: nat,
) -> Seq<Binary32> {
    let p = orb_params(seed, cluster_weights(clusters), i);
    orb_words(clusters[p.cluster_idx as int], p, drift_of(drift, p.cluster_idx as nat))
}

/// The last row.
proof fn lemma_last_row(clusters: Seq<Cluster>, seed: u64, drift: Option<Seq<Binary32>>, n: nat)
    requires
        clusters.len() > 0,
        n > 0,
    ensures
        all_orb_words(clusters, seed, drift, n) == all_orb_words(
            clusters,
            seed,
            drift,
            (n - 1) as nat,
        ) + row_of(clusters, seed, drift, (n - 1) as nat),
        row_of(clusters, seed, drift, (n - 1) as nat).len() == 16,
{
    reveal(row_of);
}

/// The words of an orb among those of all.
#[verifier::rlimit(40)]
proof fn lemma_row_among(
    clusters: Seq<Cluster>,
    seed: u64,
    drift: Option<Seq<Binary32>>,
    n: nat,
    i: int,
    j: int,
)
    requires
        clusters.len() > 0,
        0 <= i < n,
        0 <= j < 16,
    ensures
        all_orb_words(clusters, seed, drift, n).len() == 16 * n,
        all_orb_words(clusters, seed, drift, n)[16 * i + j] == row_of(
            clusters,
            seed,
            drift,
            i as nat,
        )[j],
    decreases n,
{
    let m = (n - 1) as nat;
    let before = all_orb_words(clusters, seed, drift, m);
    if m > 0 {
        lemma_row_among(
            clusters,
            seed,
            drift,
            m,
            if i < m {
                i
            } else {
                0
            },
            j,
        );
    }
    assert(before.len() == 16 * m);
    lemma_last_row(clusters, seed, drift, n);
}

/// The words of an orb in a pack whose saturation may have changed.
#[verifier::rlimit(40)]
proof fn lemma_row_in_pack(
    at: Seq<Cluster>,
    opts: AnimateOptions,
    width: u32,
    height: u32,
    n: nat,
    t: Binary32,
    field: bool,
    i: int,
    j: int,
)
    requires
        at.len() > 0,
        0 <= i < n,
        0 <= j < 16,
        j >= 3 || opts.saturation.bits == ONE,
    ensures
        frame_words(at, opts, width, height, n, t, field)[16 + 16 * i + j] == row_of(
            at,
            opts.seed,
            drifts_at(opts, t, at.len()),
            i as nat,
        )[j],
{
    let h = frame_header(opts, width, height, field);
    let drift = drifts_at(opts, t, at.len());
    let words = all_orb_words(at, opts.seed, drift, n);
    let header = header_words(h, n);
    let factor = opts.saturation.larger(Binary32 { bits: 0 });
    assert(header.len() == 16);
    lemma_row_among(at, opts.seed, drift, n, i, j);
    lemma_kept_word(header, words, factor, n, i, j);
    if j < 3 {
        lemma_saturation_one(at, h, opts.seed, n, drift);
    }
}

/// Saturation leaves all but the colours.
proof fn lemma_kept_word(
    header: Seq<Binary32>,
    words: Seq<Binary32>,
    factor: Binary32,
    n: nat,
    i: int,
    j: int,
)
    requires
        header.len() == 16,
        words.len() == 16 * n,
        0 <= i < n,
        0 <= j < 16,
    ensures
        (header + words)[16 + 16 * i + j] == words[16 * i + j],
        j >= 3 ==> saturated_pack(header + words, factor, n)[16 + 16 * i + j] == words[16 * i + j],
{
    let k = 16 + 16 * i + j;
    assert((k - 16) / 16 == i && (k - 16) % 16 == j);
}

/// An orb of a frame has its row of sixteen words: the weight of its cluster, where it is in
/// its motion, how it breathes, its place across the way, its style, speed and turning, and the
/// drift of that same cluster.
#[verifier::rlimit(40)]
pub proof fn lemma_row_of_an_orb(
    clusters: Seq<Cluster>,
    opts: AnimateOptions,
    width: u32,
    height: u32,
    n: nat,
    t: Binary32,
    field: bool,
    pack: Seq<Binary32>,
    i: int,
)
    requires
        is_frame(clusters, opts, width, height, n, t, field, pack),
        clusters.len() > 0,
        0 <= i < n,
    ensures
        ({
            let p = orb_params(opts.seed, cluster_weights(clusters), i as nat);
            let c = p.cluster_idx as int;
            let off = 16 + 16 * i;
            &&& 0 <= c < clusters.len() && within_unit(clusters[c].weight) ==> pack[off + 3]
                == clusters[c].weight
            &&& pack[off + 4] == p.phase
            &&& pack[off + 5] == p.phi_radius
            &&& pack[off + 6] == p.phi_blur
            &&& pack[off + 7] == p.phi_opacity
            &&& pack[off + 8] == p.cross_axis
            &&& p.style == OrbStyle::Rim <==> pack[off + 9].bits == 0
            &&& p.style == OrbStyle::Soft <==> pack[off + 9].bits == 0x3f80_0000
            &&& p.speed_mult < 0x100_0000 ==> pack[off + 10].value() == p.speed_mult * pow2(149)
            &&& pack[off + 11] == p.base_angle
            &&& pack[off + 12] == p.rot_speed_signed
            &&& opts.keyframe_tracks is None ==> pack[off + 13].bits == 0
            &&& opts.keyframe_tracks is Some && 0 <= c < clusters.len() ==> pack[off + 13]
                == drift_of(drifts_at(opts, t, clusters.len()), c as nat)
        }),
{
    let at = choose|at: Seq<Cluster>|
        #[trigger] colored_at(clusters, opts, t, at) && pack == frame_words(
            at,
            opts,
            width,
            height,
            n,
            t,
            field,
        );
    lemma_same_weights(clusters, opts, t, at);
    let p = orb_params(opts.seed, cluster_weights(clusters), i as nat);
    let c = p.cluster_idx as int;
    let drift = drift_of(drifts_at(opts, t, at.len()), c as nat);
    let row = row_of(at, opts.seed, drifts_at(opts, t, at.len()), i as nat);
    assert(row == orb_words(at[c], p, drift)) by {
        reveal(row_of);
    }
    lemma_row_values(row, at[c], p, drift);
    assert forall|j: int| 3 <= j < 14 implies #[trigger] pack[16 + 16 * i + j] == row[j] by {
        lemma_row_in_pack(at, opts, width, height, n, t, field, i, j);
    }
    let off = 16 + 16 * i;
    assert(pack[16 + 16 * i + 3] == row[3]);
    assert(pack[16 + 16 * i + 4] == row[4]);
    assert(pack[16 + 16 * i + 5] == row[5]);
    assert(pack[16 + 16 * i + 6] == row[6]);
    assert(pack[16 + 16 * i + 7] == row[7]);
    assert(pack[16 + 16 * i + 8] == row[8]);
    assert(pack[16 + 16 * i + 9] == row[9]);
    assert(pack[16 + 16 * i + 10] == row[10]);
    assert(pack[16 + 16 * i + 11] == row[11]);
    assert(pack[16 + 16 * i + 12] == row[12]);
    assert(pack[16 + 16 * i + 13] == row[13]);
}

/// What a row says.
#[verifier::rlimit(40)]
proof fn lemma_row_values(
    row: Seq<Binary32>,
    c: Cluster,
    p: OrbParams,
    drift: Binary32,
)
    requires
        row == orb_words(c, p, drift),
    ensures
        within_unit(c.weight) ==> row[3] == c.weight,
        row[4] == p.phase,
        row[5] == p.phi_radius,
        row[6] == p.phi_blur,
        row[7] == p.phi_opacity,
        row[8] == p.cross_axis,
        p.style == OrbStyle::Rim <==> row[9].bits == 0,
        p.style == OrbStyle::Soft <==> row[9].bits == 0x3f80_0000,
        p.speed_mult < 0x100_0000 ==> row[10].value() == p.speed_mult * pow2(149),
        row[11] == p.base_angle,
        row[12] == p.rot_speed_signed,
        row[13] == drift,
{
    if p.speed_mult < 0x100_0000 {
        lemma_of_int_exact(false, p.speed_mult as nat);
    }
}

/// Colouring leaves the weights.
proof fn lemma_same_weights(
    clusters: Seq<Cluster>,
    opts: AnimateOptions,
    t: Binary32,
    at: Seq<Cluster>,
)
    requires
        colored_at(clusters, opts, t, at),
    ensures
        cluster_weights(at) == cluster_weights(clusters),
        at.len() == clusters.len(),
        forall|i: int| 0 <= i < at.len() ==> (#[trigger] at[i]).weight == clusters[i].weight,
{
    assert(cluster_weights(at) =~= cluster_weights(clusters));
}

/// Without tracks, and at a saturation of 1, each orb shows the colour of its cluster: red,
/// green and blue in this order, each as its part of the whole.
#[verifier::rlimit(40)]
pub proof fn lemma_color_of_an_orb(
    clusters: Seq<Cluster>,
    opts: AnimateOptions,
    width: u32,
    height: u32,
    n: nat,
    t: Binary32,
    field: bool,
    pack: Seq<Binary32>,
    i: int,
    k: int,
)
    requires
        is_frame(clusters, opts, width, height, n, t, field, pack),
        opts.color_tracks is None,
        opts.keyframe_tracks is None,
        opts.saturation.bits == ONE,
        clusters.len() > 0,
        0 <= i < n,
        0 <= k < 3,
        orb_params(opts.seed, cluster_weights(clusters), i as nat).cluster_idx < clusters.len(),
    ensures
        ({
            let c = orb_params(opts.seed, cluster_weights(clusters), i as nat).cluster_idx as int;
            pack[16 + 16 * i + k] == channel_number(clusters[c].color[k])
        }),
{
    let at = choose|at: Seq<Cluster>|
        #[trigger] colored_at(clusters, opts, t, at) && pack == frame_words(
            at,
            opts,
            width,
            height,
            n,
            t,
            field,
        );
    lemma_same_weights(clusters, opts, t, at);
    lemma_row_in_pack(at, opts, width, height, n, t, field, i, k);
    let c = orb_params(opts.seed, cluster_weights(clusters), i as nat).cluster_idx as int;
    let p = orb_params(opts.seed, cluster_weights(clusters), i as nat);
    let drift = drift_of(drifts_at(opts, t, at.len()), c as nat);
    let row = row_of(at, opts.seed, drifts_at(opts, t, at.len()), i as nat);
    assert(row == orb_words(at[c], p, drift)) by {
        reveal(row_of);
    }
    lemma_row_color(row, at[c], p, drift, k);
    assert(at[c].color@ == clusters[c].color@);
    assert(at[c].color[k] == clusters[c].color[k]);
}

/// The colour in a row.
proof fn lemma_row_color(row: Seq<Binary32>, c: Cluster, p: OrbParams, drift: Binary32, k: int)
    requires
        row == orb_words(c, p, drift),
        0 <= k < 3,
    ensures
        row[k] == channel_number(c.color[k]),
{
    assert(row[0] == channel_number(c.color[0]));
    assert(row[1] == channel_number(c.color[1]));
    assert(row[2] == channel_number(c.color[2]));
}

/// The shader gets the words of a pack's header in its own order: the size of the frame, the
/// time and the radius; the four channels of the background; blur, direction, crossings and the
/// number of orbs; opacity, turning, softness and the size of the field; and the shadow.
#[verifier::rlimit(40)]
pub proof fn lemma_header_reaches_the_shader(
    pack: Seq<Binary32>,
    width: u32,
    height: u32,
    t: Binary32,
    sdf_size: Option<u32>,
    aqua: Option<crate::animate::AquaBleedConfig>,
    p: Params,
)
    requires
        params_of(pack, width, height, t, sdf_size, aqua, p),
        pack.len() >= 16,
        width < 0x100_0000,
        height < 0x100_0000,
        sdf_size matches Some(s) ==> s < 0x100_0000,
    ensures
        ({
            let w = p.word_seq();
            let k = pow2(149);
            &&& w.len() == 24
            &&& (Binary32 { bits: w[0] }).value() == width * k
            &&& (Binary32 { bits: w[1] }).value() == height * k
            &&& w[2] == t.bits
            &&& w[3] == pack[4].bits
            &&& w[4] == pack[0].bits && w[5] == pack[1].bits && w[6] == pack[2].bits && w[7]
                == pack[3].bits
            &&& w[8] == pack[5].bits && w[9] == pack[6].bits && w[10] == pack[7].bits
            &&& (Binary32 { bits: w[11] }).value() == claimed_orbs(pack) * k
            &&& w[12] == pack[9].bits && w[13] == pack[11].bits && w[14] == pack[12].bits
            &&& sdf_size matches Some(s) ==> (Binary32 { bits: w[15] }).value() == s * k
            &&& sdf_size is None ==> w[15] == 0
            &&& w[16] == pack[13].bits
            &&& aqua is None ==> w[17] == 0 && w[18] == 0 && w[19] == 0 && w[20] == 0
        }),
{
    lemma_of_int_exact(false, width as nat);
    lemma_of_int_exact(false, height as nat);
    lemma_of_int_exact(false, claimed_orbs(pack));
    if let Some(s) = sdf_size {
        lemma_of_int_exact(false, s as nat);
    }
    assert(p.resolution@[0] == of_int(false, width as nat));
    assert(p.resolution@[1] == of_int(false, height as nat));
    assert(p.bg@[0] == pack[0] && p.bg@[1] == pack[1] && p.bg@[2] == pack[2] && p.bg@[3]
        == pack[3]);
}

/// The rows of the orb texture are as long as sixteen words.
proof fn lemma_rows_at(orbs: Seq<GpuOrb>, i: int, j: int)
    requires
        0 <= i < orbs.len(),
        0 <= j < 16,
    ensures
        orb_rows(orbs).len() == 16 * orbs.len(),
        orb_rows(orbs)[16 * i + j] == orb_row(orbs[i])[j],
    decreases orbs.len(),
{
    let rest = orbs.drop_last();
    if rest.len() > 0 {
        lemma_rows_at(
            rest,
            if i < rest.len() {
                i
            } else {
                0
            },
            j,
        );
    }
    assert(orb_row(orbs.last()).len() == 16);
    assert(orb_rows(orbs) == orb_rows(rest) + orb_row(orbs.last()));
}

/// Each orb of a pack has its row of the texture: the first eleven of its words, then its
/// drift, then its angle and how it turns.
#[verifier::rlimit(40)]
pub proof fn lemma_rows_reach_the_shader(pack: Seq<Binary32>, orbs: Seq<GpuOrb>, i: int)
    requires
        0 <= i < orbs.len(),
        orb_of(pack, i, orbs[i]),
        16 + 16 * i + 14 <= pack.len(),
    ensures
        orb_rows(orbs).len() == 16 * orbs.len(),
        forall|j: int|
            0 <= j < 11 ==> #[trigger] orb_rows(orbs)[16 * i + j] == pack[16 + 16 * i + j].bits,
        orb_rows(orbs)[16 * i + 11] == pack[16 + 16 * i + 13].bits,
        orb_rows(orbs)[16 * i + 12] == pack[16 + 16 * i + 11].bits,
        orb_rows(orbs)[16 * i + 13] == pack[16 + 16 * i + 12].bits,
        orb_rows(orbs)[16 * i + 14] == 0,
        orb_rows(orbs)[16 * i + 15] == 0,
{
    let o = orbs[i];
    let off = 16 + 16 * i;
    lemma_rows_at(orbs, i, 11);
    lemma_rows_at(orbs, i, 12);
    lemma_rows_at(orbs, i, 13);
    lemma_rows_at(orbs, i, 14);
    lemma_rows_at(orbs, i, 15);
    assert forall|j: int| 0 <= j < 11 implies #[trigger] orb_rows(orbs)[16 * i + j] == pack[16 + 16
        * i + j].bits by {
        lemma_rows_at(orbs, i, j);
        if j < 4 {
            assert(o.color@[j] == pack.subrange(off, off + 4)[j]);
        } else if j < 8 {
            assert(o.phase@[j - 4] == pack.subrange(off + 4, off + 8)[j - 4]);
        } else {
            assert(o.misc@[j - 8] == pack.subrange(off + 8, off + 11)[j - 8]);
        }
    }
    assert(o.misc@[3] == pack[off + 13]);
    assert(o.rot@[0] == pack[off + 11] && o.rot@[1] == pack[off + 12]);
    assert(o.rot@[2].bits == 0 && o.rot@[3].bits == 0);
}

/// A fraction of the total weight falls on the first cluster up to which the weights add up to
/// it: those before do not reach it, and this one does, unless it is the last.
pub proof fn lemma_fraction_falls_on_its_cluster(
    weights: Seq<Binary32>,
    total: Binary32,
    f: Binary32,
)
    requires
        weights.len() > 0,
        (Binary32 { bits: 0 }).less(total),
    ensures
        ({
            let i = weighted_index(weights, total, f);
            &&& i < weights.len()
            &&& i + 1 < weights.len() ==> f.times(total).at_most(weight_sum(weights, i + 1))
            &&& forall|j: nat|
                0 < j <= i ==> !f.times(total).at_most(#[trigger] weight_sum(weights, j))
        }),
{
    lemma_reached(weights, f.times(total), 0);
}

proof fn lemma_reached(weights: Seq<Binary32>, r: Binary32, i: nat)
    requires
        i < weights.len(),
        forall|j: nat| 0 < j <= i ==> !r.at_most(#[trigger] weight_sum(weights, j)),
    ensures
        ({
            let k = reached(weights, r, i);
            &&& i <= k < weights.len()
            &&& k + 1 < weights.len() ==> r.at_most(weight_sum(weights, k + 1))
            &&& forall|j: nat| 0 < j <= k ==> !r.at_most(#[trigger] weight_sum(weights, j))
        }),
    decreases weights.len() - i,
{
    if i + 1 < weights.len() && !r.at_most(weight_sum(weights, i + 1)) {
        assert forall|j: nat| 0 < j <= i + 1 implies !r.at_most(
            #[trigger] weight_sum(weights, j),
        ) by {}
        lemma_reached(weights, r, i + 1);
    }
}

} // verus!
