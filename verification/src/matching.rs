//! Matching the colours of one picture with those of another, nearest first come.

use crate::binary32::Binary32;
use vstd::prelude::*;

verus! {

/// The pattern of the largest finite number.
pub const FARTHEST: u32 = 0x7f7f_ffff;

/// The nearest of the first `n` candidates that is not used, the first of equals, and its
/// distance; none where no distance is below the largest number.
pub open spec fn nearest_unused(row: Seq<Binary32>, used: Seq<bool>, n: nat) -> (
    Option<nat>,
    Binary32,
)
    decreases n,
{
    if n == 0 {
        (None, Binary32 { bits: FARTHEST })
    } else {
        let (best, d) = nearest_unused(row, used, (n - 1) as nat);
        if !used[n - 1] && row[n - 1].less(d) {
            (Some((n - 1) as nat), row[n - 1])
        } else {
            (best, d)
        }
    }
}

/// The candidates that the first `n` rows take, one after the other, of `m`, and which
/// candidates are used then.
pub open spec fn greedy(rows: Seq<Seq<Binary32>>, m: nat, n: nat) -> (Seq<Option<nat>>, Seq<bool>)
    decreases n,
{
    if n == 0 {
        (Seq::empty(), Seq::new(m, |j: int| false))
    } else {
        let (picks, used) = greedy(rows, m, (n - 1) as nat);
        let pick = nearest_unused(rows[n - 1], used, m).0;
        (
            picks.push(pick),
            match pick {
                Some(j) => used.update(j as int, true),
                None => used,
            },
        )
    }
}

/// What is taken is among the candidates, is not used, and has a distance below the
/// largest number that no unused candidate undercuts.
pub proof fn lemma_nearest_unused(row: Seq<Binary32>, used: Seq<bool>, n: nat)
    requires
        n <= used.len(),
        n <= row.len(),
    ensures
        match nearest_unused(row, used, n).0 {
            Some(j) => j < n && !used[j as int] && nearest_unused(row, used, n).1 == row[j as int],
            None => nearest_unused(row, used, n).1.bits == FARTHEST,
        },
        !nearest_unused(row, used, n).1.nan_pattern(),
        forall|i: int|
            0 <= i < n && !used[i] ==> !(#[trigger] row[i]).less(nearest_unused(row, used, n).1),
    decreases n,
{
    if n > 0 {
        lemma_nearest_unused(row, used, (n - 1) as nat);
    }
}

/// No candidate is taken twice.
pub proof fn lemma_greedy_takes_each_once(rows: Seq<Seq<Binary32>>, m: nat, n: nat)
    requires
        n <= rows.len(),
        forall|i: int| 0 <= i < rows.len() ==> (#[trigger] rows[i]).len() == m,
    ensures
        greedy(rows, m, n).0.len() == n,
        greedy(rows, m, n).1.len() == m,
        forall|i: int|
            0 <= i < n ==> (#[trigger] greedy(rows, m, n).0[i] matches Some(j) ==> j < m && greedy(
                rows,
                m,
                n,
            ).1[j as int]),
        forall|a: int, b: int|
            0 <= a < b < n && #[trigger] greedy(rows, m, n).0[a] is Some ==> greedy(rows, m, n).0[a]
                != #[trigger] greedy(rows, m, n).0[b],
    decreases n,
{
    if n > 0 {
        lemma_greedy_takes_each_once(rows, m, (n - 1) as nat);
        let (picks, used) = greedy(rows, m, (n - 1) as nat);
        assert(rows[n - 1].len() == m);
        lemma_nearest_unused(rows[n - 1], used, m);
    }
}

/// A choice of the library in mathematical form.
pub open spec fn pick_of(p: Option<usize>) -> Option<nat> {
    match p {
        Some(j) => Some(j as nat),
        None => None,
    }
}

/// The distances as sequences.
pub open spec fn rows_of(v: Seq<Vec<Binary32>>) -> Seq<Seq<Binary32>> {
    Seq::new(v.len(), |i: int| v[i]@)
}

/// The choices as a sequence.
pub open spec fn picks_of(v: Seq<Option<usize>>) -> Seq<Option<nat>> {
    Seq::new(v.len(), |i: int| pick_of(v[i]))
}

fn find_nearest(row: &Vec<Binary32>, used: &Vec<bool>) -> (r: Option<usize>)
    requires
        row@.len() == used@.len(),
    ensures
        pick_of(r) == nearest_unused(row@, used@, row@.len()).0,
        r matches Some(j) ==> j < row@.len(),
{
    let mut best: Option<usize> = None;
    let mut d = Binary32 { bits: FARTHEST };
    let mut j: usize = 0;
    while j < row.len()
        invariant
            j <= row@.len(),
            row@.len() == used@.len(),
            (pick_of(best), d) == nearest_unused(row@, used@, j as nat),
            best matches Some(b) ==> b < j,
        decreases row@.len() - j,
    {
        if !used[j] && row[j].lt(d) {
            best = Some(j);
            d = row[j];
        }
        j = j + 1;
    }
    best
}

/// For each row of distances the candidate it takes: the nearest that no earlier row has
/// taken.
pub fn match_nearest(distances: &Vec<Vec<Binary32>>, candidates: usize) -> (r: Vec<Option<usize>>)
    requires
        forall|i: int| 0 <= i < distances@.len() ==> (#[trigger] distances@[i])@.len() == candidates,
    ensures
        picks_of(r@) == greedy(rows_of(distances@), candidates as nat, distances@.len()).0,
        r@.len() == distances@.len(),
        forall|i: int| 0 <= i < r@.len() ==> (#[trigger] r@[i] matches Some(j) ==> j < candidates),
{
    let mut used: Vec<bool> = Vec::new();
    let mut c: usize = 0;
    while c < candidates
        invariant
            c <= candidates,
            used@ == Seq::new(c as nat, |j: int| false),
        decreases candidates - c,
    {
        used.push(false);
        c = c + 1;
        proof {
            assert(used@ =~= Seq::new(c as nat, |j: int| false));
        }
    }
    let mut r: Vec<Option<usize>> = Vec::new();
    let ghost rows = rows_of(distances@);
    proof {
        assert(picks_of(r@) =~= Seq::empty());
    }
    let mut i: usize = 0;
    while i < distances.len()
        invariant
            i <= distances@.len(),
            rows == rows_of(distances@),
            forall|k: int|
                0 <= k < distances@.len() ==> (#[trigger] distances@[k])@.len() == candidates,
            used@.len() == candidates,
            r@.len() == i,
            (picks_of(r@), used@) == greedy(rows, candidates as nat, i as nat),
            forall|k: int| 0 <= k < r@.len() ==> (#[trigger] r@[k] matches Some(j) ==> j < candidates),
        decreases distances@.len() - i,
    {
        assert(rows[i as int] == distances@[i as int]@);
        let pick = find_nearest(&distances[i], &used);
        if let Some(j) = pick {
            used.set(j, true);
        }
        let ghost before = r@;
        r.push(pick);
        i = i + 1;
        proof {
            assert(picks_of(r@) =~= picks_of(before).push(pick_of(pick)));
        }
    }
    r
}

} // verus!
