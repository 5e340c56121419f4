//! Pseudorandom number generators.
//!
//! Probabilistic data structures need randomness.  This module provides a
//! pseudorandom generator based on `xorshift+`, with the state held as an
//! explicit value so that every draw is a plain function of it.

use vstd::prelude::*;

verus! {

/// The default seed of the randomness state.
pub const SEED_LOW: u64 = 0xBADF00D1;
/// The default seed of the randomness state (second word).
pub const SEED_HIGH: u64 = 0xDEADBEEF;

/// The randomness state.
///
/// This is updated whenever a new random integer is read.
#[derive(Clone, Copy, PartialEq, Eq, Structural, Debug)]
pub struct Xorshift {
    /// The first word of the state.
    pub s0: u64,
    /// The second word of the state.
    pub s1: u64,
}

/// The twisted first word of a state update.
pub open spec fn spec_twist(x: u64) -> u64 {
    x ^ (x << 23)
}

/// The new second word of a state update.
pub open spec fn spec_mix(x: u64, y: u64) -> u64 {
    (spec_twist(x) ^ y ^ (spec_twist(x) >> 17) ^ (y >> 26)) as u64
}

/// The state after one update.
pub open spec fn spec_step(st: Xorshift) -> Xorshift {
    Xorshift { s0: st.s1, s1: spec_mix(st.s0, st.s1) }
}

/// The integer drawn by one update of the state.
pub open spec fn spec_draw(st: Xorshift) -> u64 {
    spec_mix(st.s0, st.s1).wrapping_add(st.s1)
}

impl Xorshift {
    /// Create a generator with the default seed.
    pub fn new() -> (r: Xorshift)
        ensures
            r.s0 == SEED_LOW,
            r.s1 == SEED_HIGH,
    {
        Xorshift { s0: SEED_LOW, s1: SEED_HIGH }
    }
}

/// Get a pseudorandom integer, advancing the state.
///
/// Note that this is full-cycle, so apply a modulo when true
/// equidistribution is needed.
pub fn get(state: &mut Xorshift) -> (r: u64)
    ensures
        *final(state) == spec_step(*old(state)),
        r == spec_draw(*old(state)),
{
    let mut x: u64 = state.s0;
    let y: u64 = state.s1;

    // Put the second part into the first slot.
    state.s0 = y;
    // Twist the first slot.
    x = x ^ (x << 23);
    // Update the second slot.
    state.s1 = x ^ y ^ (x >> 17) ^ (y >> 26);

    // Generate the final integer.
    state.s1.wrapping_add(y)
}

} // verus!
