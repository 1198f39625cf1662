//! Random draws. Randomness comes from `rand`; callers see only ranges.
use vstd::prelude::*;
use rand::Rng;
use rand::SeedableRng;

verus! {

#[verifier::external_type_specification]
#[verifier::external_body]
pub struct ExStdRng(rand::rngs::StdRng);

/// Relies on rand's `thread_rng` and `Rng::gen_range` over an inclusive range
/// of `i32`: the draw lies in the range. `gen_range` panics only on an empty
/// range; `thread_rng` only if the operating system cannot seed it.
#[verifier::external_body]
fn thread_draw_i32(lo: i32, hi: i32) -> (r: i32)
    requires
        lo <= hi,
    ensures
        lo <= r <= hi,
{
    rand::thread_rng().gen_range(lo..=hi)
}

/// A uniformly drawn integer in `[min, max]`.
pub fn random_int(min: i32, max: i32) -> (r: i32)
    requires
        min <= max,
    ensures
        min <= r <= max,
{
    thread_draw_i32(min, max)
}

/// Relies on rand's `thread_rng` and `Rng::gen_range` over a half-open range
/// of `i64`: the draw lies in the range. `gen_range` panics only on an empty
/// range; `thread_rng` only if the operating system cannot seed it.
#[verifier::external_body]
fn thread_draw_i64(lo: i64, hi: i64) -> (r: i64)
    requires
        lo < hi,
    ensures
        lo <= r < hi,
{
    rand::thread_rng().gen_range(lo..hi)
}

/// A uniformly drawn fixed-point value in `[0, 1)`.
pub fn random_double() -> (r: i64)
    ensures
        0 <= r < crate::num::ONE,
{
    thread_draw_i64(0, crate::num::ONE)
}

/// A uniformly drawn fixed-point value in `[min, max)`.
pub fn random_range(min: i64, max: i64) -> (r: i64)
    requires
        min < max,
    ensures
        min <= r < max,
{
    thread_draw_i64(min, max)
}

/// Relies on rand's `SeedableRng::seed_from_u64` for `StdRng`: a generator
/// whose stream depends on the seed alone.
#[verifier::external_body]
fn std_rng_from_seed(seed: u64) -> (r: rand::rngs::StdRng) {
    rand::rngs::StdRng::seed_from_u64(seed)
}

/// Relies on rand's `Rng::gen_range` over a half-open range of `i64`: the
/// draw lies in the range (it panics only on an empty range).
#[verifier::external_body]
fn std_rng_draw_i64(rng: &mut rand::rngs::StdRng, lo: i64, hi: i64) -> (r: i64)
    requires
        lo < hi,
    ensures
        lo <= r < hi,
{
    rng.gen_range(lo..hi)
}

/// An explicit, seedable random source handed through the call chain.
pub struct RandomSource {
    rng: rand::rngs::StdRng,
}

impl RandomSource {
    /// A source whose draws are fixed by `seed`.
    pub fn from_seed(seed: u64) -> (r: RandomSource) {
        RandomSource { rng: std_rng_from_seed(seed) }
    }

    /// A draw in `[lo, hi)`.
    pub fn draw(&mut self, lo: i64, hi: i64) -> (r: i64)
        requires
            lo < hi,
        ensures
            lo <= r < hi,
    {
        std_rng_draw_i64(&mut self.rng, lo, hi)
    }
}

} // verus!
