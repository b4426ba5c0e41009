//! The random draws of the search, taken from the thread's generator of the
//! `rand` crate.
//!
//! A rate is a fixed-point number: the integer `r` stands for the
//! probability `r / RATE_ONE`, and every value from [`RATE_ONE`] on for one.

use rand::Rng;
use vstd::prelude::*;

verus! {

/// The rate that stands for probability one.
pub const RATE_ONE: u32 = 1_000_000;

/// Calls `rand::Rng::gen_range(low, high)` on `rand::thread_rng()`. The crate
/// documents the result as drawn from `[low, high)` and the call as panicking
/// where `low >= high`; for an integer its source returns `low` plus a
/// remainder modulo `high - low`. The generator is the thread's own, which
/// the crate seeds from the system.
#[verifier::external_body]
pub(crate) fn draw_between(low: u64, high: u64) -> (drawn: u64)
    requires
        low < high,
    ensures
        low <= drawn < high,
{
    rand::thread_rng().gen_range(low, high)
}

/// Calls `rand::random::<u8>()`. Any byte may come back.
#[verifier::external_body]
pub(crate) fn random_byte() -> (byte: u8) {
    rand::random::<u8>()
}

/// Whether a draw below [`RATE_ONE`] succeeds against `rate`: of the
/// `RATE_ONE` draws, the first `rate` do.
pub open spec fn succeeds(drawn: u64, rate: u32) -> bool {
    drawn < rate
}

/// Whether a draw below [`RATE_ONE`] succeeds against `rate`.
pub fn hits(drawn: u64, rate: u32) -> (hit: bool)
    ensures
        hit == succeeds(drawn, rate),
{
    drawn < rate as u64
}

/// Whether a byte shows heads: whether it is odd.
pub fn heads(byte: u8) -> (up: bool)
    ensures
        up == (byte % 2 == 1),
{
    byte % 2 == 1
}

/// A random index below `bound`.
pub fn draw_index(bound: usize) -> (index: usize)
    requires
        bound > 0,
    ensures
        index < bound,
{
    let drawn: u64 = draw_between(0, bound as u64);
    index_of_draw(drawn, bound)
}

/// A random length from `low` up to `high`, `high` left out.
pub fn draw_length(low: usize, high: usize) -> (length: usize)
    requires
        low < high,
    ensures
        low <= length < high,
{
    let drawn: u64 = draw_between(low as u64, high as u64);
    index_of_draw(drawn, high)
}

/// A random event of the probability `rate / RATE_ONE`: never for the rate
/// zero, always from [`RATE_ONE`] on.
pub fn chance(rate: u32) -> (hit: bool)
    ensures
        rate == 0 ==> !hit,
        rate >= RATE_ONE ==> hit,
{
    hits(draw_between(0, RATE_ONE as u64), rate)
}

/// A fair coin: whether a random byte is odd.
pub fn coin() -> (up: bool) {
    heads(random_byte())
}

/// The index that a draw below `bound` stands for: the draw itself.
pub fn index_of_draw(drawn: u64, bound: usize) -> (index: usize)
    requires
        drawn < bound,
    ensures
        index == drawn,
{
    drawn as usize
}

} // verus!
