//! Laws of what is picked out of several.

use crate::binary32::Binary32;
use crate::cluster::{best_score, within_unit, Cluster};
use crate::frame_laws::{reads_reversed, reads_sideways};
use crate::gpu::{direction_number, largest_weight};
use crate::variations::{gui_direction, spec_of, SpecDraws, VariationKind};
use vstd::prelude::*;

verus! {

/// The best of several runs has a score that is no higher than any other, and lower than all
/// before it.
pub proof fn lemma_best_run_is_the_lowest(scores: Seq<Binary32>, n: nat)
    requires
        n <= scores.len(),
        best_score(scores, n) is Some,
    ensures
        best_score(scores, n)->0 < n,
        !scores[best_score(scores, n)->0 as int].nan_pattern(),
        forall|j: int|
            0 <= j < n && !(#[trigger] scores[j]).nan_pattern()
                ==> scores[best_score(scores, n)->0 as int].at_most(scores[j]),
        forall|j: int|
            0 <= j < best_score(scores, n)->0 && !(#[trigger] scores[j]).nan_pattern()
                ==> scores[best_score(scores, n)->0 as int].less(scores[j]),
    decreases n,
{
    let m = (n - 1) as nat;
    let before = best_score(scores, m);
    if before is Some {
        lemma_best_run_is_the_lowest(scores, m);
    } else {
        lemma_none_is_low(scores, m);
    }
}

/// Where there is no best run no score is below the largest number.
proof fn lemma_none_is_low(scores: Seq<Binary32>, n: nat)
    requires
        n <= scores.len(),
        best_score(scores, n) is None,
    ensures
        forall|j: int|
            0 <= j < n && !(#[trigger] scores[j]).nan_pattern() ==> (Binary32 {
                bits: 0x7f7f_ffff,
            }).at_most(scores[j]),
    decreases n,
{
    if n > 0 {
        lemma_none_is_low(scores, (n - 1) as nat);
    }
}

/// The largest weight is that of a cluster, and no cluster weighs more.
#[verifier::rlimit(40)]
pub proof fn lemma_largest_weight(clusters: Seq<Cluster>, n: nat)
    requires
        0 < n <= clusters.len(),
        forall|i: int| 0 <= i < n ==> within_unit((#[trigger] clusters[i]).weight),
    ensures
        forall|i: int|
            0 <= i < n ==> (#[trigger] clusters[i]).weight.at_most(largest_weight(clusters, n)),
        exists|i: int| 0 <= i < n && largest_weight(clusters, n) == (#[trigger] clusters[i]).weight,
    decreases n,
{
    let last = clusters[n - 1].weight;
    assert(within_unit(last));
    assert(last.larger(Binary32 { bits: 0 }) == last);
    if n > 1 {
        let m = (n - 1) as nat;
        lemma_largest_weight(clusters, m);
        let i = choose|i: int|
            0 <= i < m && largest_weight(clusters, m) == (#[trigger] clusters[i]).weight;
        let top = largest_weight(clusters, m);
        assert(within_unit(top));
        if top.less(last) {
            assert(largest_weight(clusters, n) == clusters[n - 1].weight);
        } else {
            assert(largest_weight(clusters, n) == clusters[i].weight);
        }
    } else {
        assert(largest_weight(clusters, 0).bits == 0);
        if last.mag() == 0 {
            assert(last.bits == 0);
        }
        assert(largest_weight(clusters, n) == clusters[n - 1].weight);
    }
}

/// The video tiles of a batch drift to the right, to the left, down and up, in this order, and
/// a random variation draws its direction by the same numbers.
pub proof fn lemma_directions_in_order(i: int, d: SpecDraws, kind: VariationKind, n: nat)
    requires
        0 <= i < 4,
        d.direction == i,
    ensures
        reads_sideways(direction_number(gui_direction(i))) <==> i < 2,
        reads_reversed(direction_number(gui_direction(i))) <==> i == 1 || i == 3,
        spec_of(n, kind, d).direction == gui_direction(i),
{
}

/// A random variation has what was drawn for it.
pub proof fn lemma_variation_has_what_was_drawn(d: SpecDraws, kind: VariationKind, n: nat)
    ensures
        ({
            let v = spec_of(n, kind, d);
            &&& v.kind == kind
            &&& v.count == d.count
            &&& v.orb_size == d.orb_size
            &&& v.blur == d.blur
            &&& v.seed == d.seed
            &&& v.duration_ms == d.duration_ms
            &&& d.slow <==> v.speed is Slow
            &&& !d.slow <==> v.speed is VerySlow
        }),
{
}

} // verus!
