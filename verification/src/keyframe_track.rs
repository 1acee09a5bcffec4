//! Colour, place and weight along a track of keyframes.

use crate::binary32::{lemma_round32_zero, mag_units, Binary32, ONE};
use crate::binary32_laws::{lemma_mag_units_increases, lemma_minus_self, lemma_no_way_towards};
use crate::cluster::{within_unit, Centroid};
use crate::color_track::{color_between, lemma_color_mix_starts, mix_color};
use vstd::arithmetic::power2::pow2;
use vstd::prelude::*;

verus! {

/// One cluster at one keyframe.
#[derive(Clone, Copy, Debug, PartialEq, Eq)]
pub struct KeyframeClusterPoint {
    pub color: [u8; 3],
    pub centroid: Centroid,
    pub weight: Binary32,
    /// The time of the keyframe, within 0 to 1. Times rise along a track.
    pub time: Binary32,
}

/// A number at `part` of the way from `a` to `b`.
pub open spec fn number_between(a: Binary32, b: Binary32, part: Binary32) -> Binary32 {
    a.plus(b.minus(a).times(part))
}

pub fn mix_number(a: Binary32, b: Binary32, part: Binary32) -> (r: Binary32)
    ensures
        r == number_between(a, b, part),
{
    a.add(b.sub(a).mul(part))
}

/// Whether a keyframe has exactly the time `t`.
pub open spec fn at_time(p: KeyframeClusterPoint, t: Binary32) -> bool {
    p.time.at_most(t) && t.at_most(p.time)
}

/// The first of the keyframes from `j` on that has exactly the time `t`.
pub open spec fn key_from(track: Seq<KeyframeClusterPoint>, j: nat, t: Binary32) -> Option<nat>
    decreases track.len() - j,
{
    if j >= track.len() {
        None
    } else if at_time(track[j as int], t) {
        Some(j)
    } else {
        key_from(track, j + 1, t)
    }
}

/// Whether `t` lies between keyframe `j` and the next one.
pub open spec fn spans(track: Seq<KeyframeClusterPoint>, j: int, t: Binary32) -> bool {
    track[j].time.at_most(t) && t.less(track[j + 1].time)
}

/// The first of the keyframes from `j` on that `t` lies behind, before the next; 0 where
/// there is none.
pub open spec fn span_from(track: Seq<KeyframeClusterPoint>, j: nat, t: Binary32) -> nat
    decreases track.len() - j,
{
    if j + 1 >= track.len() {
        0
    } else if spans(track, j as int, t) {
        j
    } else {
        span_from(track, j + 1, t)
    }
}

/// How far `t` lies between two times, within 0 to 1; 0 where they do not rise.
pub open spec fn span_part(from: Binary32, to: Binary32, t: Binary32) -> Binary32 {
    let gap = to.minus(from);
    if (Binary32 { bits: 0 }).less(gap) {
        t.minus(from).over(gap).clamped(Binary32 { bits: 0 }, Binary32 { bits: ONE })
    } else {
        Binary32 { bits: 0 }
    }
}

/// The first and last keyframe hold before and behind the track. At the time of a keyframe
/// between them that keyframe holds, the first where several have the time; elsewhere
/// colour, place and weight of two keyframes are mixed. An empty track is black, in the
/// middle, and weighs nothing.
pub open spec fn keyframe_at(track: Seq<KeyframeClusterPoint>, t: Binary32) -> (
    Seq<u8>,
    Centroid,
    Binary32,
) {
    let n = track.len();
    if n == 0 {
        let half = Binary32 { bits: 0x3f00_0000 };
        (seq![0u8, 0, 0], Centroid { x: half, y: half }, Binary32 { bits: 0 })
    } else if n == 1 || t.nan_pattern() || t.at_most(track[0].time) {
        (track[0].color@, track[0].centroid, track[0].weight)
    } else if track[n - 1].time.at_most(t) {
        (track[n - 1].color@, track[n - 1].centroid, track[n - 1].weight)
    } else if let Some(j) = key_from(track, 0, t) {
        (track[j as int].color@, track[j as int].centroid, track[j as int].weight)
    } else {
        let i = span_from(track, 0, t) as int;
        let (a, b) = (track[i], track[i + 1]);
        let part = span_part(a.time, b.time, t);
        (
            color_between(a.color, b.color, part),
            Centroid {
                x: number_between(a.centroid.x, b.centroid.x, part),
                y: number_between(a.centroid.y, b.centroid.y, part),
            },
            number_between(a.weight, b.weight, part),
        )
    }
}

/// The first keyframe that has exactly the time `t`.
fn find_key(track: &[KeyframeClusterPoint], t: Binary32) -> (r: Option<usize>)
    ensures
        match r {
            Some(j) => key_from(track@, 0, t) == Some(j as nat) && j < track@.len(),
            None => key_from(track@, 0, t) is None,
        },
{
    let mut j: usize = 0;
    while j < track.len()
        invariant
            j <= track@.len(),
            key_from(track@, 0, t) == key_from(track@, j as nat, t),
        decreases track.len() - j,
    {
        if track[j].time.le(t) && t.le(track[j].time) {
            return Some(j);
        }
        j = j + 1;
    }
    None
}

/// Colour, place and weight of a track at `t`.
pub fn interpolate_keyframe_track(track: &[KeyframeClusterPoint], t: Binary32) -> (r: (
    [u8; 3],
    Centroid,
    Binary32,
))
    ensures
        r.0@ == keyframe_at(track@, t).0,
        r.1 == keyframe_at(track@, t).1,
        r.2 == keyframe_at(track@, t).2,
{
    let n: usize = track.len();
    if n == 0 {
        let half = Binary32 { bits: 0x3f00_0000 };
        let black: [u8; 3] = [0, 0, 0];
        assert(black@ =~= seq![0u8, 0, 0]);
        return (black, Centroid { x: half, y: half }, Binary32 { bits: 0 });
    }
    if n == 1 || t.is_nan() || t.le(track[0].time) {
        let p = track[0];
        return (p.color, p.centroid, p.weight);
    }
    let last: usize = n - 1;
    if track[last].time.le(t) {
        let p = track[last];
        return (p.color, p.centroid, p.weight);
    }
    if let Some(k) = find_key(track, t) {
        let p = track[k];
        return (p.color, p.centroid, p.weight);
    }
    let mut i: usize = 0;
    let mut j: usize = 0;
    let mut found: bool = false;
    while j < last && !found
        invariant
            last == track@.len() - 1,
            last >= 1,
            j <= last,
            i < last,
            !found ==> i == 0 && span_from(track@, 0, t) == span_from(track@, j as nat, t),
            found ==> i == span_from(track@, 0, t),
        decreases last - j + if found {
            0int
        } else {
            1
        },
    {
        if track[j].time.le(t) && t.lt(track[j + 1].time) {
            i = j;
            found = true;
        } else {
            j = j + 1;
        }
    }
    let a = track[i];
    let b = track[i + 1];
    let gap = b.time.sub(a.time);
    let part = if (Binary32 { bits: 0 }).lt(gap) {
        t.sub(a.time).div(gap).clamp(Binary32 { bits: 0 }, Binary32 { bits: ONE })
    } else {
        Binary32 { bits: 0 }
    };
    (
        mix_color(a.color, b.color, part),
        Centroid {
            x: mix_number(a.centroid.x, b.centroid.x, part),
            y: mix_number(a.centroid.y, b.centroid.y, part),
        },
        mix_number(a.weight, b.weight, part),
    )
}

/// Whether the times of a track's keyframes rise from one to the next.
pub open spec fn times_rise(track: Seq<KeyframeClusterPoint>) -> bool {
    &&& forall|i: int| 0 <= i < track.len() ==> (#[trigger] track[i]).time.finite()
    &&& forall|i: int, j: int|
        0 <= i < j < track.len() ==> (#[trigger] track[i]).time.less((#[trigger] track[j]).time)
}

/// Whether place and weight of a keyframe lie within 0 to 1.
pub open spec fn point_within(p: KeyframeClusterPoint) -> bool {
    within_unit(p.centroid.x) && within_unit(p.centroid.y) && within_unit(p.weight)
}

/// Whether place and weight of every keyframe lie within 0 to 1.
pub open spec fn points_within(track: Seq<KeyframeClusterPoint>) -> bool {
    forall|i: int| 0 <= i < track.len() ==> point_within(#[trigger] track[i])
}

/// The first keyframe of a time is the one that is found.
proof fn lemma_key_found(track: Seq<KeyframeClusterPoint>, i: nat, j: nat, t: Binary32)
    requires
        i <= j < track.len(),
        at_time(track[j as int], t),
        forall|k: int| i <= k < j ==> !at_time(#[trigger] track[k], t),
    ensures
        key_from(track, i, t) == Some(j),
    decreases j - i,
{
    if i < j {
        assert(!at_time(track[i as int], t));
        lemma_key_found(track, i + 1, j, t);
    }
}

/// Where several keyframes within a track have one time, the first of them holds at it.
pub proof fn lemma_first_of_a_time_holds(track: Seq<KeyframeClusterPoint>, j: nat, t: Binary32)
    requires
        j < track.len(),
        at_time(track[j as int], t),
        forall|k: int| 0 <= k < j ==> !at_time(#[trigger] track[k], t),
        track[0].time.less(t),
        t.less(track[track.len() - 1].time),
    ensures
        keyframe_at(track, t) == (
            track[j as int].color@,
            track[j as int].centroid,
            track[j as int].weight,
        ),
{
    lemma_key_found(track, 0, j, t);
}

/// A track whose times rise passes through every one of its keyframes.
pub proof fn lemma_track_meets_its_keyframes(track: Seq<KeyframeClusterPoint>, j: nat)
    requires
        times_rise(track),
        j < track.len(),
    ensures
        keyframe_at(track, track[j as int].time) == (
            track[j as int].color@,
            track[j as int].centroid,
            track[j as int].weight,
        ),
{
    let n = track.len();
    let t = track[j as int].time;
    if j > 0 {
        assert(track[0].time.less(t));
    }
    if j + 1 < n {
        assert(t.less(track[n - 1].time));
        assert forall|k: int| 0 <= k < j implies !at_time(#[trigger] track[k], t) by {
            assert(track[k].time.less(t));
        }
        lemma_key_found(track, 0, j, t);
    }
}

/// A span starts at part 0.
proof fn lemma_span_starts(from: Binary32, to: Binary32)
    requires
        from.finite(),
        to.finite(),
    ensures
        span_part(from, to, from) == (Binary32 { bits: 0 }),
{
    let zero = Binary32 { bits: 0 };
    let gap = to.minus(from);
    if zero.less(gap) {
        reveal(Binary32::over);
        lemma_minus_self(from);
        assert(mag_units(0) == 0);
        if gap.finite() {
            lemma_mag_units_increases(0, gap.mag());
            assert(0 * pow2(149) == 0);
            lemma_round32_zero(gap.units());
        }
    }
}

proof fn lemma_number_mix_starts(a: Binary32, b: Binary32)
    requires
        within_unit(a),
        within_unit(b),
    ensures
        number_between(a, b, Binary32 { bits: 0 }) == a,
{
    lemma_no_way_towards(a, b, Binary32 { bits: 0 });
}

/// At its start the mix of two keyframes is the first of them, so that a track goes on from
/// a keyframe without a jump.
pub proof fn lemma_mix_starts_at_its_keyframe(a: KeyframeClusterPoint, b: KeyframeClusterPoint)
    requires
        a.time.finite(),
        b.time.finite(),
        point_within(a),
        point_within(b),
    ensures
        ({
            let part = span_part(a.time, b.time, a.time);
            &&& color_between(a.color, b.color, part) == a.color@
            &&& number_between(a.centroid.x, b.centroid.x, part) == a.centroid.x
            &&& number_between(a.centroid.y, b.centroid.y, part) == a.centroid.y
            &&& number_between(a.weight, b.weight, part) == a.weight
        }),
{
    lemma_span_starts(a.time, b.time);
    lemma_color_mix_starts(a.color, b.color);
    lemma_number_mix_starts(a.centroid.x, b.centroid.x);
    lemma_number_mix_starts(a.centroid.y, b.centroid.y);
    lemma_number_mix_starts(a.weight, b.weight);
}

/// Before its first and behind its last keyframe a track stands still.
pub proof fn lemma_track_stands_outside(track: Seq<KeyframeClusterPoint>, t: Binary32)
    requires
        track.len() > 0,
        times_rise(track),
    ensures
        t.at_most(track[0].time) ==> keyframe_at(track, t) == (
            track[0].color@,
            track[0].centroid,
            track[0].weight,
        ),
        track[track.len() - 1].time.at_most(t) ==> keyframe_at(track, t) == (
            track[track.len() - 1].color@,
            track[track.len() - 1].centroid,
            track[track.len() - 1].weight,
        ),
{
    if track.len() > 1 {
        assert(track[0].time.less(track[track.len() - 1].time));
    }
}

} // verus!
