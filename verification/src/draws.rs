//! Seeded draws.
//!
//! A draw names the seed of a ChaCha8 stream and the position, in 32-bit words,
//! from which it reads; it hands back the value and the position behind it.
//! Single and double precision numbers cross as their bit patterns.

use crate::binary32::Binary32;
use crate::binary64::ONE64;
use rand::{Rng, SeedableRng};
use rand_chacha::ChaCha8Rng;
use vstd::prelude::*;

verus! {

/// What [`draw_word`] returns.
pub uninterp spec fn word_draw(seed: u64, pos: u128) -> (u32, u128);

/// What [`draw_long`] returns.
pub uninterp spec fn long_draw(seed: u64, pos: u128) -> (u64, u128);

/// What [`draw_fraction`] returns.
pub uninterp spec fn fraction_draw(seed: u64, pos: u128) -> (Binary32, u128);

/// What [`draw_real`] returns.
pub uninterp spec fn real_draw(seed: u64, pos: u128, low: Binary32, high: Binary32) -> (
    Binary32,
    u128,
);

/// What [`draw_real_up_to`] returns.
pub uninterp spec fn real_up_to_draw(seed: u64, pos: u128, low: Binary32, high: Binary32) -> (
    Binary32,
    u128,
);

/// What [`draw_byte`] returns.
pub uninterp spec fn byte_draw(seed: u64, pos: u128, low: u8, high: u8) -> (u8, u128);

/// What [`draw_coin`] returns.
pub uninterp spec fn coin_draw(seed: u64, pos: u128, p: u64) -> (bool, u128);

/// What [`draw_count`] returns.
pub uninterp spec fn count_draw(seed: u64, pos: u128, low: u32, high: u32) -> (u32, u128);

/// What [`draw_span`] returns.
pub uninterp spec fn span_draw(seed: u64, pos: u128, low: u64, high: u64) -> (u64, u128);

/// `rand::Rng::gen::<u32>` on `rand_chacha::ChaCha8Rng`, seeded with `seed_from_u64`
/// and moved with `set_word_pos`; `get_word_pos` gives the position behind the draw.
/// Nothing is claimed but that seed and position determine both.
#[verifier::external_body]
pub(crate) fn draw_word(seed: u64, pos: u128) -> (r: (u32, u128))
    ensures
        r == word_draw(seed, pos),
{
    let mut rng = ChaCha8Rng::seed_from_u64(seed);
    rng.set_word_pos(pos);
    let v: u32 = rng.gen();
    (v, rng.get_word_pos())
}

/// `rand::Rng::gen::<u64>` on the generator of [`draw_word`]: seed and position
/// determine the value and the position behind it.
#[verifier::external_body]
pub(crate) fn draw_long(seed: u64, pos: u128) -> (r: (u64, u128))
    ensures
        r == long_draw(seed, pos),
{
    let mut rng = ChaCha8Rng::seed_from_u64(seed);
    rng.set_word_pos(pos);
    let v: u64 = rng.gen();
    (v, rng.get_word_pos())
}

/// `rand::Rng::gen` for a single precision number on the generator of
/// [`draw_word`]: seed and position determine the value and the position behind it.
#[verifier::external_body]
pub(crate) fn draw_fraction(seed: u64, pos: u128) -> (r: (Binary32, u128))
    ensures
        r == fraction_draw(seed, pos),
{
    let mut rng = ChaCha8Rng::seed_from_u64(seed);
    rng.set_word_pos(pos);
    let v = zeno::Vector::new(rng.gen(), bytemuck::cast(0u32));
    (Binary32 { bits: v.x.to_bits() }, rng.get_word_pos())
}

/// `rand::Rng::gen_range(low..high)` for single precision numbers on the generator
/// of [`draw_word`]: the arguments determine the value and the position behind it,
/// and the value lies in the range. The call panics on an empty range and on one
/// whose width overflows.
#[verifier::external_body]
pub(crate) fn draw_real(seed: u64, pos: u128, low: Binary32, high: Binary32) -> (r: (
    Binary32,
    u128,
))
    requires
        low.finite(),
        high.finite(),
        low.less(high),
        high.minus(low).finite(),
    ensures
        r == real_draw(seed, pos, low, high),
        low.at_most(r.0),
        r.0.less(high),
{
    let mut rng = ChaCha8Rng::seed_from_u64(seed);
    rng.set_word_pos(pos);
    let ends = zeno::Vector::new(bytemuck::cast(low.bits), bytemuck::cast(high.bits));
    let v = rng.gen_range(ends.x..ends.y);
    (Binary32 { bits: v.to_bits() }, rng.get_word_pos())
}

/// `rand::Rng::gen_range(low..=high)` for single precision numbers on the generator
/// of [`draw_word`]: the arguments determine the value and the position behind it,
/// and the value lies in the range. The call panics on an empty range and on one
/// whose width overflows.
#[verifier::external_body]
pub(crate) fn draw_real_up_to(seed: u64, pos: u128, low: Binary32, high: Binary32) -> (r: (
    Binary32,
    u128,
))
    requires
        low.finite(),
        high.finite(),
        low.less(high),
        high.minus(low).less(Binary32 { bits: 0x7f00_0000 }),
    ensures
        r == real_up_to_draw(seed, pos, low, high),
        low.at_most(r.0),
        r.0.at_most(high),
{
    let mut rng = ChaCha8Rng::seed_from_u64(seed);
    rng.set_word_pos(pos);
    let ends = zeno::Vector::new(bytemuck::cast(low.bits), bytemuck::cast(high.bits));
    let v = rng.gen_range(ends.x..=ends.y);
    (Binary32 { bits: v.to_bits() }, rng.get_word_pos())
}

/// `rand::Rng::gen_range(low..high)` for `u8` on the generator of [`draw_word`]: the
/// arguments determine the value and the position behind it, and the value lies in
/// the range. The call panics on an empty range.
#[verifier::external_body]
pub(crate) fn draw_byte(seed: u64, pos: u128, low: u8, high: u8) -> (r: (u8, u128))
    requires
        low < high,
    ensures
        r == byte_draw(seed, pos, low, high),
        low <= r.0 < high,
{
    let mut rng = ChaCha8Rng::seed_from_u64(seed);
    rng.set_word_pos(pos);
    let v: u8 = rng.gen_range(low..high);
    (v, rng.get_word_pos())
}

/// `rand::Rng::gen_bool` on the generator of [`draw_word`], with the probability as a
/// double precision pattern: the arguments determine the value and the position
/// behind it. The call panics on a probability outside 0 to 1.
#[verifier::external_body]
pub(crate) fn draw_coin(seed: u64, pos: u128, p: u64) -> (r: (bool, u128))
    requires
        p <= ONE64,
    ensures
        r == coin_draw(seed, pos, p),
{
    let mut rng = ChaCha8Rng::seed_from_u64(seed);
    rng.set_word_pos(pos);
    let v: bool = rng.gen_bool(bytemuck::cast(p));
    (v, rng.get_word_pos())
}

/// `rand::Rng::gen_range(low..=high)` for `u32` on the generator of [`draw_word`]: the
/// arguments determine the value and the position behind it, and the value lies in
/// the range. The call panics on an empty range.
#[verifier::external_body]
pub(crate) fn draw_count(seed: u64, pos: u128, low: u32, high: u32) -> (r: (u32, u128))
    requires
        low <= high,
    ensures
        r == count_draw(seed, pos, low, high),
        low <= r.0 <= high,
{
    let mut rng = ChaCha8Rng::seed_from_u64(seed);
    rng.set_word_pos(pos);
    let v: u32 = rng.gen_range(low..=high);
    (v, rng.get_word_pos())
}

/// `rand::Rng::gen_range(low..=high)` for `u64` on the generator of [`draw_word`]: the
/// arguments determine the value and the position behind it, and the value lies in
/// the range. The call panics on an empty range.
#[verifier::external_body]
pub(crate) fn draw_span(seed: u64, pos: u128, low: u64, high: u64) -> (r: (u64, u128))
    requires
        low <= high,
    ensures
        r == span_draw(seed, pos, low, high),
        low <= r.0 <= high,
{
    let mut rng = ChaCha8Rng::seed_from_u64(seed);
    rng.set_word_pos(pos);
    let v: u64 = rng.gen_range(low..=high);
    (v, rng.get_word_pos())
}

} // verus!
