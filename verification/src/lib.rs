//! Maximum-subarray sums over reproducible pseudo-random streams.
//!
//! A linear congruential generator produces 32-bit words, a mapper brings each
//! word into an inclusive integer range, and a single-pass reducer finds the
//! largest sum of a contiguous run of the mapped values. A driver repeats such a
//! trial [`TRIALS`] times, reseeding from the generator itself, and adds the
//! results.
//!
//! Two reducers are offered, and they differ on streams whose runs all have a
//! negative sum: [`nonempty`] takes the largest sum over non-empty runs, while
//! [`clamped`] also admits the empty run and so never reports less than zero.

use vstd::prelude::*;

pub mod clamped;
pub mod lcg;
pub mod mapper;
pub mod nonempty;
pub mod runs;

verus! {

/// The number of trials that a driver adds up.
pub const TRIALS: usize = 20;

} // verus!
