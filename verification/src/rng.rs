//! RNG wrapper providing deterministic seed-based randomness.
//! Uses ChaCha8Rng for consistent generation across platforms.
//!
//! A generator seeded from a `u64` produces the same sequence of values for
//! the same sequence of requests, on every run and machine. The library
//! models the generator by its seed and the requests made of it so far, and
//! names each roll as a function of those.
use rand::{Rng, SeedableRng};
use rand_chacha::ChaCha8Rng;
use vstd::prelude::*;

verus! {

#[verifier::external_type_specification]
#[verifier::external_body]
pub struct ExChaCha8Rng(ChaCha8Rng);

/// One request made of the generator.
#[derive(Debug, Clone, Copy, PartialEq, Eq, Structural)]
pub enum RngCall {
    /// A `u32` in `low..=high`.
    InclusiveU32(u32, u32),
    /// A `u64` in `low..high`.
    RangeU64(u64, u64),
}

/// The model of a seeded generator: its seed and the requests made so far.
pub struct RngView {
    pub seed: u64,
    pub calls: Seq<RngCall>,
}

/// What a ChaCha8 generator seeded by `SeedableRng::seed_from_u64(state.seed)`
/// returns for `gen_range(low..=high)` on `u32` after answering `state.calls`.
pub uninterp spec fn chacha_roll_u32(state: RngView, low: u32, high: u32) -> u32;

/// What a ChaCha8 generator seeded by `SeedableRng::seed_from_u64(state.seed)`
/// returns for `gen_range(low..high)` on `u64` after answering `state.calls`.
pub uninterp spec fn chacha_roll_u64(state: RngView, low: u64, high: u64) -> u64;

/// A generator freshly seeded with `seed`.
pub open spec fn seeded(seed: u64) -> RngView {
    RngView { seed, calls: Seq::empty() }
}

/// The model after one more request.
pub open spec fn after_call(state: RngView, call: RngCall) -> RngView {
    RngView { seed: state.seed, calls: state.calls.push(call) }
}

/// Calls `SeedableRng::seed_from_u64` of rand_chacha's `ChaCha8Rng`.
/// Nothing is claimed of the state it builds; what the library relies on is
/// stated by the range wrappers below, as a function of this seed.
#[verifier::external_body]
fn chacha_from_seed(seed: u64) -> ChaCha8Rng {
    ChaCha8Rng::seed_from_u64(seed)
}

/// Calls rand's `Rng::gen_range` on an inclusive `u32` range `low..=high`.
/// Claimed: the value lies in the range (as rand documents; the call panics on
/// an empty range, which `requires` rules out), and it is the same for the
/// same seed and the same earlier requests (ChaCha8 is reproducible, as
/// rand_core documents for seeded generators): it is named `chacha_roll_u32`
/// of the model, and the request is recorded in the model.
#[verifier::external_body]
fn chacha_gen_range_inclusive_u32(rng: &mut SeededRng, low: u32, high: u32) -> (r: u32)
    requires
        low <= high,
    ensures
        low <= r <= high,
        r == chacha_roll_u32(old(rng)@, low, high),
        final(rng)@ == after_call(old(rng)@, RngCall::InclusiveU32(low, high)),
{
    rng.rng.gen_range(low..=high)
}

/// Calls rand's `Rng::gen_range` on a half-open `u64` range `low..high`.
/// Claimed as for `chacha_gen_range_inclusive_u32`, with `chacha_roll_u64`.
#[verifier::external_body]
fn chacha_gen_range_u64(rng: &mut SeededRng, low: u64, high: u64) -> (r: u64)
    requires
        low < high,
    ensures
        low <= r < high,
        r == chacha_roll_u64(old(rng)@, low, high),
        final(rng)@ == after_call(old(rng)@, RngCall::RangeU64(low, high)),
{
    rng.rng.gen_range(low..high)
}

/// A seeded dice roller.
pub struct SeededRng {
    rng: ChaCha8Rng,
    seed: Ghost<u64>,
    calls: Ghost<Seq<RngCall>>,
}

impl View for SeededRng {
    type V = RngView;

    closed spec fn view(&self) -> RngView {
        RngView { seed: self.seed@, calls: self.calls@ }
    }
}

/// The D6 roll the generator in `state` gives next.
pub open spec fn roll_d6(state: RngView) -> u32 {
    chacha_roll_u32(state, 1, 6)
}

/// The generator after a D6 roll.
pub open spec fn after_d6(state: RngView) -> RngView {
    after_call(state, RngCall::InclusiveU32(1, 6))
}

/// The number in `[min, max)` the generator in `state` gives next.
pub open spec fn roll_range(state: RngView, min: usize, max: usize) -> usize {
    chacha_roll_u64(state, min as u64, max as u64) as usize
}

/// The generator after a roll in `[min, max)`.
pub open spec fn after_range(state: RngView, min: usize, max: usize) -> RngView {
    after_call(state, RngCall::RangeU64(min as u64, max as u64))
}

impl SeededRng {
    /// A generator seeded with `seed`, before any roll.
    pub fn new(seed: u64) -> (r: Self)
        ensures
            r@ == seeded(seed),
    {
        SeededRng { rng: chacha_from_seed(seed), seed: Ghost(seed), calls: Ghost(Seq::empty()) }
    }

    /// Roll a single D6 (1-6): the seed's next roll.
    pub fn d6(&mut self) -> (r: u32)
        ensures
            1 <= r <= 6,
            r == roll_d6(old(self)@),
            final(self)@ == after_d6(old(self)@),
    {
        chacha_gen_range_inclusive_u32(self, 1, 6)
    }

    /// Roll D66: two D6 dice returned as (primary, secondary); used for room
    /// dimensions (primary = X, secondary = Y).
    pub fn d66(&mut self) -> (r: (u32, u32))
        ensures
            1 <= r.0 <= 6,
            1 <= r.1 <= 6,
            r.0 == roll_d6(old(self)@),
            r.1 == roll_d6(after_d6(old(self)@)),
            final(self)@ == after_d6(after_d6(old(self)@)),
    {
        let a = self.d6();
        let b = self.d6();
        (a, b)
    }

    /// A random number in the half-open range `[min, max)`: the seed's next
    /// roll in that range.
    pub fn range(&mut self, min: usize, max: usize) -> (r: usize)
        requires
            min < max,
        ensures
            min <= r < max,
            r == roll_range(old(self)@, min, max),
            final(self)@ == after_range(old(self)@, min, max),
    {
        let r = chacha_gen_range_u64(self, min as u64, max as u64);
        r as usize
    }
}

} // verus!
