//! A deliberately small deterministic pseudo-random generator.
//!
//! Terrarium needs reproducibility, not cryptographic randomness. The state is
//! a single `u64` and is captured in every snapshot.

use vstd::prelude::*;

verus! {

/// The state a zero seed is replaced with.
pub open spec fn zero_seed_state() -> u64 {
    0x9E37_79B9_7F4A_7C15
}

/// The generator state for a seed (or a restored state): zero is replaced by a
/// fixed non-zero constant.
pub open spec fn seeded_state(seed: u64) -> u64 {
    if seed == 0 {
        zero_seed_state()
    } else {
        seed
    }
}

/// One linear-congruential step: `state * 6364136223846793005 + 1442695040888963407`
/// modulo 2^64.
pub open spec fn lcg_next(state: u64) -> u64 {
    let m = ((state as nat * 6364136223846793005nat) % 0x1_0000_0000_0000_0000nat) as u64;
    if m + 1442695040888963407u64 > u64::MAX {
        (m + 1442695040888963407u64 - 0x1_0000_0000_0000_0000nat) as u64
    } else {
        (m + 1442695040888963407u64) as u64
    }
}

/// The state after `n` steps from `state`.
pub open spec fn lcg_iterate(state: u64, n: nat) -> u64
    decreases n,
{
    if n == 0 {
        state
    } else {
        lcg_next(lcg_iterate(state, (n - 1) as nat))
    }
}

pub struct DeterministicRng {
    state: u64,
}

impl View for DeterministicRng {
    type V = u64;

    closed spec fn view(&self) -> u64 {
        self.state
    }
}

impl DeterministicRng {
    pub fn new(seed: u64) -> (r: DeterministicRng)
        ensures
            r@ == seeded_state(seed),
    {
        DeterministicRng {
            state: if seed == 0 {
                0x9E37_79B9_7F4A_7C15
            } else {
                seed
            },
        }
    }

    /// Advances the generator and returns its new state.
    pub fn next_u64(&mut self) -> (v: u64)
        ensures
            final(self)@ == lcg_next(old(self)@),
            v == final(self)@,
    {
        self.state = self.state.wrapping_mul(6364136223846793005).wrapping_add(1442695040888963407);
        self.state
    }

    pub fn state(&self) -> (s: u64)
        ensures
            s == self@,
    {
        self.state
    }

    /// Restores a captured state (zero is replaced as for a zero seed).
    pub fn set_state(&mut self, state: u64)
        ensures
            final(self)@ == seeded_state(state),
    {
        self.state = if state == 0 {
            0x9E37_79B9_7F4A_7C15
        } else {
            state
        };
    }
}

impl Clone for DeterministicRng {
    fn clone(&self) -> (r: Self)
        ensures
            r@ == self@,
    {
        DeterministicRng { state: self.state }
    }
}

} // verus!
