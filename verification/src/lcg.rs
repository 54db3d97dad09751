//! The generator: a linear congruential recurrence on one 32-bit word.
//!
//! It is a source of reproducible workloads and nothing else; it is not fit for
//! any use that needs unpredictable numbers.

use vstd::prelude::*;

verus! {

/// Multiplier of the recurrence.
pub const MULTIPLIER: u32 = 1664525;

/// Increment of the recurrence.
pub const INCREMENT: u32 = 1013904223;

/// One advance of the recurrence: `state * MULTIPLIER + INCREMENT`, modulo `2^32`.
pub open spec fn lcg_step(state: u32) -> u32 {
    ((state as int * MULTIPLIER as int + INCREMENT as int) % 0x1_0000_0000) as u32
}

/// The state after `k` advances from `seed`; for `k >= 1` it is also the `k`-th
/// value drawn. The seed itself is never drawn.
pub open spec fn lcg_nth(seed: u32, k: nat) -> u32
    decreases k,
{
    if k == 0 {
        seed
    } else {
        lcg_step(lcg_nth(seed, (k - 1) as nat))
    }
}

/// The first `count` values drawn from a generator seeded with `seed`.
pub open spec fn lcg_outputs(seed: u32, count: nat) -> Seq<u32> {
    Seq::new(count, |i: int| lcg_nth(seed, (i + 1) as nat))
}

/// Advances `state` by one step and returns the new state.
pub fn lcg_next(state: &mut u32) -> (r: u32)
    ensures
        *final(state) == lcg_step(*old(state)),
        r == lcg_step(*old(state)),
{
    let s: u32 = *state;
    let next: u32 = s.wrapping_mul(MULTIPLIER).wrapping_add(INCREMENT);
    *state = next;
    next
}

/// A generator as a value: one 32-bit word that every draw replaces.
pub struct Lcg {
    state: u32,
}

impl View for Lcg {
    type V = u32;

    /// The current state word.
    closed spec fn view(&self) -> u32 {
        self.state
    }
}

impl Lcg {
    /// A generator whose state is `seed`.
    pub fn new(seed: u32) -> (g: Lcg)
        ensures
            g@ == seed,
    {
        Lcg { state: seed }
    }

    /// Advances the generator and returns its new state. The stream has no end,
    /// so the result is never `None`.
    pub fn next(&mut self) -> (r: Option<u32>)
        ensures
            final(self)@ == lcg_step(old(self)@),
            r == Some(lcg_step(old(self)@)),
    {
        let next: u32 = self.state.wrapping_mul(MULTIPLIER).wrapping_add(INCREMENT);
        self.state = next;
        Some(next)
    }
}

/// Drawing `a` values and then `b` more leaves the generator where `a + b`
/// draws from the start leave it.
pub proof fn lemma_lcg_nth_resumes(seed: u32, a: nat, b: nat)
    ensures
        lcg_nth(lcg_nth(seed, a), b) == lcg_nth(seed, a + b),
    decreases b,
{
    if b > 0 {
        lemma_lcg_nth_resumes(seed, a, (b - 1) as nat);
    }
}

/// The generator is reproducible: the same seed and the same number of draws
/// give the same sequence of values.
pub proof fn lemma_lcg_reproducible(seed_a: u32, seed_b: u32, count_a: nat, count_b: nat)
    requires
        seed_a == seed_b,
        count_a == count_b,
    ensures
        lcg_outputs(seed_a, count_a) == lcg_outputs(seed_b, count_b),
{
}

/// A shorter run of draws is a prefix of a longer one from the same seed.
pub proof fn lemma_lcg_outputs_prefix(seed: u32, shorter: nat, longer: nat)
    requires
        shorter <= longer,
    ensures
        lcg_outputs(seed, longer).take(shorter as int) == lcg_outputs(seed, shorter),
{
}

} // verus!
