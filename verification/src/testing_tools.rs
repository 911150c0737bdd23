//! Timing of a piece of work.
use std::time::Duration;
use std::time::Instant;
use vstd::prelude::*;

verus! {

/// A moment on the monotonic clock.
#[verifier::external_type_specification]
#[verifier::external_body]
pub struct ExInstant(Instant);

/// `Instant::now` reads the monotonic clock. Nothing is claimed of the
/// moment it returns.
pub assume_specification[ Instant::now ]() -> (now: Instant);

/// `Instant::elapsed` gives the time that has passed since the moment was
/// taken. Nothing is claimed of its length.
pub assume_specification[ Instant::elapsed ](start: &Instant) -> (passed: Duration);

/// Runs `method` once and returns how long it took.
pub fn timeit<F>(method: F) -> (taken: Duration) where F: FnOnce()
    requires
        method.requires(()),
    ensures
        method.ensures((), ()),
{
    let now: Instant = Instant::now();
    method();
    now.elapsed()
}

/// The multiplier of the generator.
pub const MULTIPLIER: u64 = 6364136223846793005;

/// A linear congruential generator of pseudo-random numbers.
pub struct CustomRng {
    state: u64,
}

/// The state that follows `state`: the product with the multiplier, as far
/// as 64 bits hold it, and 1 more.
pub open spec fn stepped(state: u64) -> int {
    (state as int * MULTIPLIER as int) % 0x1_0000_0000_0000_0000 + 1
}

impl CustomRng {
    /// The state of the generator.
    pub closed spec fn state(&self) -> u64 {
        self.state
    }

    /// A generator that starts from `seed`.
    pub fn new(seed: u64) -> (rng: CustomRng)
        ensures
            rng.state() == seed,
    {
        CustomRng { state: seed }
    }

    /// Whether the next state fits in 64 bits, so that `next` may be called.
    pub fn can_step(&self) -> (fits: bool)
        ensures
            fits == (stepped(self.state()) <= u64::MAX),
    {
        self.state.wrapping_mul(MULTIPLIER) != u64::MAX
    }

    /// Moves to the next state and returns its upper 32 bits.
    pub fn next(&mut self) -> (draw: u32)
        requires
            stepped(old(self).state()) <= u64::MAX,
        ensures
            final(self).state() == stepped(old(self).state()),
            draw == final(self).state() / 0x1_0000_0000,
    {
        self.state = self.state.wrapping_mul(MULTIPLIER) + 1;
        let upper: u64 = self.state >> 32;
        proof {
            let state = self.state;
            assert(state >> 32 == state / 0x1_0000_0000) by (bit_vector);
        }
        upper as u32
    }
}

/// Does nothing.
pub fn test_implementation() {
}

} // verus!
