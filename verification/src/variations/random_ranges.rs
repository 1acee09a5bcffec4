//! The ranges from which random variations are drawn.

use vstd::prelude::*;

verus! {

/// The fewest and the most orbs.
pub const COUNT_MIN: usize = 10;

pub const COUNT_MAX: usize = 50;

/// The patterns of 1.5 and 5, the bounds of the size.
pub const ORB_SIZE_MIN: u32 = 0x3fc0_0000;

pub const ORB_SIZE_MAX: u32 = 0x40a0_0000;

/// The patterns of 0.5 and 0.85, the bounds of the blur.
pub const BLUR_MIN: u32 = 0x3f00_0000;

pub const BLUR_MAX: u32 = 0x3f59_999a;

/// The bounds of the length of a video.
pub const DURATION_MS_MIN: u64 = 6000;

pub const DURATION_MS_MAX: u64 = 10000;

} // verus!
