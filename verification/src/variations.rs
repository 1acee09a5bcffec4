//! Sets of variations of one picture.
//!
//! Variations differ in direction, speed, number and size of the orbs and in blur. The
//! colours are those of the picture in all of them.

use crate::animate::{MotionDirection, MotionSpeed};
use crate::binary32::Binary32;
use crate::draws::{
    byte_draw, coin_draw, count_draw, draw_byte, draw_coin, draw_count, draw_long, draw_real_up_to,
    draw_span, long_draw, real_up_to_draw, span_draw,
};
use crate::text::{decimal, padded, push_padded};
use random_ranges::{
    BLUR_MAX, BLUR_MIN, COUNT_MAX, COUNT_MIN, DURATION_MS_MAX, DURATION_MS_MIN, ORB_SIZE_MAX,
    ORB_SIZE_MIN,
};
use vstd::prelude::*;
use vstd::string::*;

pub mod random_ranges;

verus! {

/// What a variation is written as.
#[derive(Clone, Copy, Debug, PartialEq, Eq, Structural)]
pub enum VariationKind {
    Png,
    Mp4,
}

impl VariationKind {
    pub open spec fn extension(self) -> Seq<char> {
        match self {
            VariationKind::Png => "png"@,
            VariationKind::Mp4 => "mp4"@,
        }
    }

    /// The extension of the file.
    pub fn ext(self) -> (r: &'static str)
        ensures
            r@ == self.extension(),
    {
        match self {
            VariationKind::Png => "png",
            VariationKind::Mp4 => "mp4",
        }
    }
}

/// Which variations are wanted.
#[derive(Clone, Copy, Debug, PartialEq, Eq, Structural)]
pub enum VariationMode {
    Still,
    Video,
    Mixed,
}

impl VariationMode {
    pub open spec fn takes(self, kind: VariationKind) -> bool {
        match self {
            VariationMode::Mixed => true,
            VariationMode::Still => kind == VariationKind::Png,
            VariationMode::Video => kind == VariationKind::Mp4,
        }
    }

    /// Whether a kind is wanted.
    pub fn accepts(self, kind: VariationKind) -> (r: bool)
        ensures
            r == self.takes(kind),
    {
        match self {
            VariationMode::Mixed => true,
            VariationMode::Still => kind == VariationKind::Png,
            VariationMode::Video => kind == VariationKind::Mp4,
        }
    }
}

/// One variation.
#[derive(Clone, Debug)]
pub struct VariationSpec {
    pub label: String,
    pub kind: VariationKind,
    pub direction: MotionDirection,
    pub speed: MotionSpeed,
    /// How many orbs are visible.
    pub count: usize,
    pub orb_size: Binary32,
    pub blur: Binary32,
    pub seed: u64,
    /// The length of a video; 0 for a still picture.
    pub duration_ms: u64,
}

/// What a variation is, its label by characters.
pub struct VariationView {
    pub label: Seq<char>,
    pub kind: VariationKind,
    pub direction: MotionDirection,
    pub speed: MotionSpeed,
    pub count: usize,
    pub orb_size: Binary32,
    pub blur: Binary32,
    pub seed: u64,
    pub duration_ms: u64,
}

impl View for VariationSpec {
    type V = VariationView;

    open spec fn view(&self) -> VariationView {
        VariationView {
            label: self.label@,
            kind: self.kind,
            direction: self.direction,
            speed: self.speed,
            count: self.count,
            orb_size: self.orb_size,
            blur: self.blur,
            seed: self.seed,
            duration_ms: self.duration_ms,
        }
    }
}

/// How many variations are in the default set.
pub const DEFAULT_VARIATION_COUNT: usize = 10;

/// The variation with index `i` of the default set.
pub open spec fn default_spec(i: int) -> VariationView {
    if i == 0 {
        still("snapshot_lr_dense"@, MotionDirection::LeftToRight, MotionSpeed::Slow, 25, 0x4040_0000, 0x3f00_0000, 1)
    } else if i == 1 {
        still("snapshot_rl_huge"@, MotionDirection::RightToLeft, MotionSpeed::VerySlow, 12, 0x4090_0000, 0x3f19_999a, 2)
    } else if i == 2 {
        still("snapshot_tb_fine"@, MotionDirection::TopToBottom, MotionSpeed::Slow, 30, 0x4020_0000, 0x3ecc_cccd, 3)
    } else if i == 3 {
        still("snapshot_bt_blurry"@, MotionDirection::BottomToTop, MotionSpeed::VerySlow, 20, 0x4060_0000, 0x3f4c_cccd, 4)
    } else if i == 4 {
        video("flow_lr_slow"@, MotionDirection::LeftToRight, MotionSpeed::Slow, 20, 0x4040_0000, 0x3f00_0000, 5)
    } else if i == 5 {
        video("flow_rl_very_slow"@, MotionDirection::RightToLeft, MotionSpeed::VerySlow, 15, 0x4073_3333, 0x3f19_999a, 6)
    } else if i == 6 {
        video("flow_tb_dense"@, MotionDirection::TopToBottom, MotionSpeed::Slow, 28, 0x4033_3333, 0x3f00_0000, 7)
    } else if i == 7 {
        video("flow_bt_blurry"@, MotionDirection::BottomToTop, MotionSpeed::VerySlow, 18, 0x4060_0000, 0x3f33_3333, 8)
    } else if i == 8 {
        video("flow_lr_dense_small"@, MotionDirection::LeftToRight, MotionSpeed::Slow, 50, 0x3fc0_0000, 0x3e99_999a, 9)
    } else {
        video("flow_rl_huge"@, MotionDirection::RightToLeft, MotionSpeed::Slow, 10, 0x40a0_0000, 0x3f19_999a, 10)
    }
}

/// A still variation.
pub open spec fn still(
    label: Seq<char>,
    direction: MotionDirection,
    speed: MotionSpeed,
    count: usize,
    orb_size: u32,
    blur: u32,
    seed: u64,
) -> VariationView {
    VariationView {
        label,
        kind: VariationKind::Png,
        direction,
        speed,
        count,
        orb_size: Binary32 { bits: orb_size },
        blur: Binary32 { bits: blur },
        seed,
        duration_ms: 0,
    }
}

/// A video of eight seconds.
pub open spec fn video(
    label: Seq<char>,
    direction: MotionDirection,
    speed: MotionSpeed,
    count: usize,
    orb_size: u32,
    blur: u32,
    seed: u64,
) -> VariationView {
    VariationView {
        label,
        kind: VariationKind::Mp4,
        direction,
        speed,
        count,
        orb_size: Binary32 { bits: orb_size },
        blur: Binary32 { bits: blur },
        seed,
        duration_ms: 8000,
    }
}

fn make_spec(
    label: &str,
    kind: VariationKind,
    direction: MotionDirection,
    speed: MotionSpeed,
    count: usize,
    orb_size: u32,
    blur: u32,
    seed: u64,
) -> (r: VariationSpec)
    ensures
        r@ == match kind {
            VariationKind::Png => still(label@, direction, speed, count, orb_size, blur, seed),
            VariationKind::Mp4 => video(label@, direction, speed, count, orb_size, blur, seed),
        },
{
    VariationSpec {
        label: String::from_str(label),
        kind,
        direction,
        speed,
        count,
        orb_size: Binary32 { bits: orb_size },
        blur: Binary32 { bits: blur },
        seed,
        duration_ms: match kind {
            VariationKind::Png => 0,
            VariationKind::Mp4 => 8000,
        },
    }
}

/// The variation with index `i` of the default set: four still pictures, six videos.
pub fn default_variation(i: usize) -> (r: VariationSpec)
    requires
        i < DEFAULT_VARIATION_COUNT,
    ensures
        r@ == default_spec(i as int),
{
    let png = VariationKind::Png;
    let mp4 = VariationKind::Mp4;
    let lr = MotionDirection::LeftToRight;
    let rl = MotionDirection::RightToLeft;
    let tb = MotionDirection::TopToBottom;
    let bt = MotionDirection::BottomToTop;
    let slow = MotionSpeed::Slow;
    let very_slow = MotionSpeed::VerySlow;
    if i == 0 {
        make_spec("snapshot_lr_dense", png, lr, slow, 25, 0x4040_0000, 0x3f00_0000, 1)
    } else if i == 1 {
        make_spec("snapshot_rl_huge", png, rl, very_slow, 12, 0x4090_0000, 0x3f19_999a, 2)
    } else if i == 2 {
        make_spec("snapshot_tb_fine", png, tb, slow, 30, 0x4020_0000, 0x3ecc_cccd, 3)
    } else if i == 3 {
        make_spec("snapshot_bt_blurry", png, bt, very_slow, 20, 0x4060_0000, 0x3f4c_cccd, 4)
    } else if i == 4 {
        make_spec("flow_lr_slow", mp4, lr, slow, 20, 0x4040_0000, 0x3f00_0000, 5)
    } else if i == 5 {
        make_spec("flow_rl_very_slow", mp4, rl, very_slow, 15, 0x4073_3333, 0x3f19_999a, 6)
    } else if i == 6 {
        make_spec("flow_tb_dense", mp4, tb, slow, 28, 0x4033_3333, 0x3f00_0000, 7)
    } else if i == 7 {
        make_spec("flow_bt_blurry", mp4, bt, very_slow, 18, 0x4060_0000, 0x3f33_3333, 8)
    } else if i == 8 {
        make_spec("flow_lr_dense_small", mp4, lr, slow, 50, 0x3fc0_0000, 0x3e99_999a, 9)
    } else {
        make_spec("flow_rl_huge", mp4, rl, slow, 10, 0x40a0_0000, 0x3f19_999a, 10)
    }
}

/// The views of a list of variations.
pub open spec fn views(specs: Seq<VariationSpec>) -> Seq<VariationView> {
    Seq::new(specs.len(), |i: int| specs[i]@)
}

/// The variations of the default set.
pub fn default_variations() -> (r: Vec<VariationSpec>)
    ensures
        views(r@) == Seq::new(10, |i: int| default_spec(i)),
{
    let mut r: Vec<VariationSpec> = Vec::new();
    let mut i: usize = 0;
    while i < DEFAULT_VARIATION_COUNT
        invariant
            i <= DEFAULT_VARIATION_COUNT,
            views(r@) == Seq::new(i as nat, |j: int| default_spec(j)),
        decreases DEFAULT_VARIATION_COUNT - i,
    {
        let ghost before = r@;
        let s = default_variation(i);
        r.push(s);
        i = i + 1;
        proof {
            assert(views(before).len() == i - 1);
            assert(views(r@) =~= views(before).push(s@));
            assert(views(r@) =~= Seq::new(i as nat, |j: int| default_spec(j)));
        }
    }
    r
}

/// The wanted ones among the first `k` of the default set, `n` at most.
pub open spec fn selected(n: nat, mode: VariationMode, k: nat) -> Seq<VariationView>
    decreases k,
{
    if k == 0 {
        Seq::empty()
    } else {
        let before = selected(n, mode, (k - 1) as nat);
        if before.len() < n && mode.takes(default_spec(k - 1).kind) {
            before.push(default_spec(k - 1))
        } else {
            before
        }
    }
}

/// The first `n` variations of the default set that are wanted, fewer where it has fewer.
pub fn select_specs(n: usize, mode: VariationMode) -> (r: Vec<VariationSpec>)
    ensures
        views(r@) == selected(n as nat, mode, 10),
        r@.len() <= n,
{
    let mut r: Vec<VariationSpec> = Vec::new();
    let mut k: usize = 0;
    proof {
        assert(views(r@) =~= Seq::empty());
    }
    while k < DEFAULT_VARIATION_COUNT
        invariant
            k <= DEFAULT_VARIATION_COUNT,
            views(r@) == selected(n as nat, mode, k as nat),
            r@.len() <= n,
        decreases DEFAULT_VARIATION_COUNT - k,
    {
        let ghost before = r@;
        let s = default_variation(k);
        proof {
            assert(views(before).len() == before.len());
        }
        if r.len() < n && mode.accepts(s.kind) {
            r.push(s);
            proof {
                assert(views(r@) =~= views(before).push(s@));
            }
        }
        k = k + 1;
    }
    r
}

/// How many tiles at the end of a batch are videos.
pub const GUI_VIDEO_COUNT_DEFAULT: usize = 4;

/// The direction of each of those tiles.
pub open spec fn gui_direction(i: int) -> MotionDirection {
    if i == 0 {
        MotionDirection::LeftToRight
    } else if i == 1 {
        MotionDirection::RightToLeft
    } else if i == 2 {
        MotionDirection::TopToBottom
    } else {
        MotionDirection::BottomToTop
    }
}

/// The directions of the video tiles of a batch, each once.
pub fn gui_video_directions() -> (r: [MotionDirection; 4])
    ensures
        forall|i: int| 0 <= i < 4 ==> #[trigger] r@[i] == gui_direction(i),
        forall|i: int, j: int| 0 <= i < j < 4 ==> #[trigger] r@[i] != #[trigger] r@[j],
{
    [
        MotionDirection::LeftToRight,
        MotionDirection::RightToLeft,
        MotionDirection::TopToBottom,
        MotionDirection::BottomToTop,
    ]
}

/// The speeds of the video tiles of a batch, slower and faster in turn.
pub fn gui_video_speeds() -> (r: [MotionSpeed; 4])
    ensures
        forall|i: int|
            0 <= i < 4 ==> #[trigger] r@[i] == if i % 2 == 0 {
                MotionSpeed::VerySlow
            } else {
                MotionSpeed::Slow
            },
{
    [MotionSpeed::VerySlow, MotionSpeed::Slow, MotionSpeed::VerySlow, MotionSpeed::Slow]
}

/// The pattern of one half, in double precision.
pub const HALF64: u64 = 0x3fe0_0000_0000_0000;

/// `random_` and the number of the variation, from 1, with two digits at least.
pub open spec fn random_label(i: nat) -> Seq<char> {
    "random_"@ + padded(decimal(i + 1), 2)
}

pub open spec fn drawn_direction(d: u8) -> MotionDirection {
    if d == 0 {
        MotionDirection::LeftToRight
    } else if d == 1 {
        MotionDirection::RightToLeft
    } else if d == 2 {
        MotionDirection::TopToBottom
    } else {
        MotionDirection::BottomToTop
    }
}

/// The kind of variation `i`: the first `still_count` are still pictures.
pub open spec fn random_kind(i: nat, still_count: nat) -> VariationKind {
    if i < still_count {
        VariationKind::Png
    } else {
        VariationKind::Mp4
    }
}

/// What is drawn for one random variation.
#[derive(Clone, Copy, Debug, PartialEq, Eq, Structural)]
pub struct SpecDraws {
    /// 0 to 3, for the four directions.
    pub direction: u8,
    pub slow: bool,
    pub count: u32,
    pub orb_size: Binary32,
    pub blur: Binary32,
    pub seed: u64,
    /// 0 for a still picture.
    pub duration_ms: u64,
}

/// Random variation `i` for what was drawn.
pub open spec fn spec_of(i: nat, kind: VariationKind, d: SpecDraws) -> VariationView {
    VariationView {
        label: random_label(i),
        kind,
        direction: drawn_direction(d.direction),
        speed: if d.slow {
            MotionSpeed::Slow
        } else {
            MotionSpeed::VerySlow
        },
        count: d.count as usize,
        orb_size: d.orb_size,
        blur: d.blur,
        seed: d.seed,
        duration_ms: d.duration_ms,
    }
}

/// The draws of a random variation and the position of the stream behind them: direction,
/// speed, number, size, blur, seed and, for a video, length.
pub open spec fn spec_draws(seed: u64, pos: u128, kind: VariationKind) -> (SpecDraws, u128) {
    let (direction, p1) = byte_draw(seed, pos, 0, 4);
    let (slow, p2) = coin_draw(seed, p1, HALF64);
    let (count, p3) = count_draw(seed, p2, COUNT_MIN as u32, COUNT_MAX as u32);
    let (orb_size, p4) = real_up_to_draw(
        seed,
        p3,
        Binary32 { bits: ORB_SIZE_MIN },
        Binary32 { bits: ORB_SIZE_MAX },
    );
    let (blur, p5) = real_up_to_draw(
        seed,
        p4,
        Binary32 { bits: BLUR_MIN },
        Binary32 { bits: BLUR_MAX },
    );
    let (spec_seed, p6) = long_draw(seed, p5);
    let (duration_ms, p7) = match kind {
        VariationKind::Png => (0u64, p6),
        VariationKind::Mp4 => span_draw(seed, p6, DURATION_MS_MIN, DURATION_MS_MAX),
    };
    (SpecDraws { direction, slow, count, orb_size, blur, seed: spec_seed, duration_ms }, p7)
}

/// Random variation `i`, and the position of the stream behind its draws.
pub open spec fn random_drawn(seed: u64, pos: u128, i: nat, still_count: nat) -> (
    VariationView,
    u128,
) {
    let kind = random_kind(i, still_count);
    let (draws, next) = spec_draws(seed, pos, kind);
    (spec_of(i, kind, draws), next)
}

/// The position of the stream before random variation `n`.
pub open spec fn random_pos(seed: u64, n: nat, still_count: nat) -> u128
    decreases n,
{
    if n == 0 {
        0
    } else {
        random_drawn(
            seed,
            random_pos(seed, (n - 1) as nat, still_count),
            (n - 1) as nat,
            still_count,
        ).1
    }
}

/// Random variation `i` of a batch.
pub open spec fn random_spec(seed: u64, i: nat, still_count: nat) -> VariationView {
    random_drawn(seed, random_pos(seed, i, still_count), i, still_count).0
}

/// The ranges of size and blur are ranges that a draw accepts.
proof fn lemma_random_ranges()
    ensures
        (Binary32 { bits: ORB_SIZE_MAX }).minus(Binary32 { bits: ORB_SIZE_MIN }).less(
            Binary32 { bits: 0x7f00_0000 },
        ),
        (Binary32 { bits: BLUR_MAX }).minus(Binary32 { bits: BLUR_MIN }).less(
            Binary32 { bits: 0x7f00_0000 },
        ),
{
    crate::binary32_laws::lemma_minus_below(
        Binary32 { bits: ORB_SIZE_MAX },
        Binary32 { bits: ORB_SIZE_MIN },
    );
    crate::binary32_laws::lemma_minus_below(
        Binary32 { bits: BLUR_MAX },
        Binary32 { bits: BLUR_MIN },
    );
}

/// Random variation `i` for what was drawn.
pub fn spec_from_draws(i: usize, kind: VariationKind, d: SpecDraws) -> (r: VariationSpec)
    requires
        i < usize::MAX,
    ensures
        r@ == spec_of(i as nat, kind, d),
{
    let direction = if d.direction == 0 {
        MotionDirection::LeftToRight
    } else if d.direction == 1 {
        MotionDirection::RightToLeft
    } else if d.direction == 2 {
        MotionDirection::TopToBottom
    } else {
        MotionDirection::BottomToTop
    };
    let speed = if d.slow {
        MotionSpeed::Slow
    } else {
        MotionSpeed::VerySlow
    };
    let mut label = String::from_str("random_");
    push_padded(&mut label, i as u64 + 1, 10, 2);
    VariationSpec {
        label,
        kind,
        direction,
        speed,
        count: d.count as usize,
        orb_size: d.orb_size,
        blur: d.blur,
        seed: d.seed,
        duration_ms: d.duration_ms,
    }
}

fn draw_random_spec(seed: u64, pos: u128, i: usize, still_count: usize) -> (r: (
    VariationSpec,
    u128,
))
    requires
        i < usize::MAX,
    ensures
        r.0@ == random_drawn(seed, pos, i as nat, still_count as nat).0,
        r.1 == random_drawn(seed, pos, i as nat, still_count as nat).1,
        COUNT_MIN <= r.0.count <= COUNT_MAX,
        (Binary32 { bits: ORB_SIZE_MIN }).at_most(r.0.orb_size),
        r.0.orb_size.at_most(Binary32 { bits: ORB_SIZE_MAX }),
        (Binary32 { bits: BLUR_MIN }).at_most(r.0.blur),
        r.0.blur.at_most(Binary32 { bits: BLUR_MAX }),
        r.0.kind == VariationKind::Png ==> r.0.duration_ms == 0,
        r.0.kind == VariationKind::Mp4 ==> DURATION_MS_MIN <= r.0.duration_ms <= DURATION_MS_MAX,
{
    proof {
        lemma_random_ranges();
    }
    let kind = if i < still_count {
        VariationKind::Png
    } else {
        VariationKind::Mp4
    };
    let (direction, p1) = draw_byte(seed, pos, 0, 4);
    let (slow, p2) = draw_coin(seed, p1, HALF64);
    let (count, p3) = draw_count(seed, p2, COUNT_MIN as u32, COUNT_MAX as u32);
    let (orb_size, p4) = draw_real_up_to(
        seed,
        p3,
        Binary32 { bits: ORB_SIZE_MIN },
        Binary32 { bits: ORB_SIZE_MAX },
    );
    let (blur, p5) = draw_real_up_to(
        seed,
        p4,
        Binary32 { bits: BLUR_MIN },
        Binary32 { bits: BLUR_MAX },
    );
    let (spec_seed, p6) = draw_long(seed, p5);
    let (duration_ms, p7) = match kind {
        VariationKind::Png => (0u64, p6),
        VariationKind::Mp4 => draw_span(seed, p6, DURATION_MS_MIN, DURATION_MS_MAX),
    };
    let draws = SpecDraws { direction, slow, count, orb_size, blur, seed: spec_seed, duration_ms };
    let spec = spec_from_draws(i, kind, draws);
    assert(spec@ == spec_of(i as nat, kind, draws));
    (spec, p7)
}

/// A number of still pictures, `total` at most.
pub open spec fn still_share(total: nat, still_count: nat) -> nat {
    if still_count < total {
        still_count
    } else {
        total
    }
}

/// A batch of `total` random variations, the first `still_count` of them still pictures.
/// The seed determines all of them.
pub fn random_batch_specs(seed: u64, total: usize, still_count: usize) -> (r: Vec<VariationSpec>)
    ensures
        views(r@) == Seq::new(
            total as nat,
            |i: int|
                random_spec(seed, i as nat, still_share(total as nat, still_count as nat)),
        ),
        forall|i: int|
            0 <= i < total ==> {
                let s = #[trigger] r@[i];
                &&& s.kind == random_kind(i as nat, still_count as nat)
                &&& COUNT_MIN <= s.count <= COUNT_MAX
                &&& (Binary32 { bits: ORB_SIZE_MIN }).at_most(s.orb_size)
                &&& s.orb_size.at_most(Binary32 { bits: ORB_SIZE_MAX })
                &&& (Binary32 { bits: BLUR_MIN }).at_most(s.blur)
                &&& s.blur.at_most(Binary32 { bits: BLUR_MAX })
                &&& s.kind == VariationKind::Png ==> s.duration_ms == 0
                &&& s.kind == VariationKind::Mp4 ==> DURATION_MS_MIN <= s.duration_ms
                    <= DURATION_MS_MAX
            },
{
    let stills: usize = if still_count < total {
        still_count
    } else {
        total
    };
    let mut r: Vec<VariationSpec> = Vec::new();
    let mut pos: u128 = 0;
    let mut i: usize = 0;
    while i < total
        invariant
            i <= total,
            stills == still_share(total as nat, still_count as nat),
            pos == random_pos(seed, i as nat, stills as nat),
            r@.len() == i,
            views(r@) == Seq::new(i as nat, |j: int| random_spec(seed, j as nat, stills as nat)),
            forall|j: int|
                0 <= j < i ==> {
                    let s = #[trigger] r@[j];
                    &&& s.kind == random_kind(j as nat, still_count as nat)
                    &&& COUNT_MIN <= s.count <= COUNT_MAX
                    &&& (Binary32 { bits: ORB_SIZE_MIN }).at_most(s.orb_size)
                    &&& s.orb_size.at_most(Binary32 { bits: ORB_SIZE_MAX })
                    &&& (Binary32 { bits: BLUR_MIN }).at_most(s.blur)
                    &&& s.blur.at_most(Binary32 { bits: BLUR_MAX })
                    &&& s.kind == VariationKind::Png ==> s.duration_ms == 0
                    &&& s.kind == VariationKind::Mp4 ==> DURATION_MS_MIN <= s.duration_ms
                        <= DURATION_MS_MAX
                },
        decreases total - i,
    {
        let ghost before = r@;
        let (s, next) = draw_random_spec(seed, pos, i, stills);
        r.push(s);
        pos = next;
        i = i + 1;
        proof {
            assert(views(r@) =~= views(before).push(s@));
            assert(views(r@) =~= Seq::new(
                i as nat,
                |j: int| random_spec(seed, j as nat, stills as nat),
            ));
        }
    }
    r
}

} // verus!
