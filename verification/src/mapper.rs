//! The mapper: from a generator word to a value of an inclusive range.
//!
//! The word is reduced modulo the number of values in the range and offset by
//! the lower bound. Where that number does not divide `2^32` the low values of
//! the range come up slightly more often than the high ones; reproducing a
//! stream depends on keeping the reduction exactly as it is.

use crate::lcg::lcg_nth;
use crate::runs::all_within;
use vstd::prelude::*;

verus! {

/// The number of values in `min_val..=max_val`.
pub open spec fn range_len(min_val: int, max_val: int) -> int {
    max_val - min_val + 1
}

/// The value of `min_val..=max_val` that the word `v` is mapped to:
/// `min_val + (v mod range_len)`.
pub open spec fn bounded_value(v: u32, min_val: int, max_val: int) -> int {
    min_val + (v as int) % range_len(min_val, max_val)
}

/// The first `n` mapped values of a trial: the `k`-th is the mapping of the
/// `k`-th word drawn from a generator seeded with `seed`.
pub open spec fn mapped_stream(seed: u32, min_val: int, max_val: int, n: nat) -> Seq<int> {
    Seq::new(n, |k: int| bounded_value(lcg_nth(seed, (k + 1) as nat), min_val, max_val))
}

/// For a non-empty range, every word is mapped into the range.
pub proof fn lemma_bounded_value_in_range(v: u32, min_val: int, max_val: int)
    requires
        min_val <= max_val,
    ensures
        min_val <= bounded_value(v, min_val, max_val) <= max_val,
{
    // a remainder by a positive modulus is at least zero and below the modulus
    let r = (v as int) % range_len(min_val, max_val);
    assert(0 <= r < range_len(min_val, max_val));
}

/// For a non-empty range, every value of a mapped stream lies in the range.
pub proof fn lemma_mapped_stream_within(seed: u32, min_val: int, max_val: int, n: nat)
    requires
        min_val <= max_val,
    ensures
        all_within(mapped_stream(seed, min_val, max_val, n), min_val, max_val),
{
    let s = mapped_stream(seed, min_val, max_val, n);
    assert forall|k: int| 0 <= k < s.len() implies min_val <= #[trigger] s[k] <= max_val by {
        lemma_bounded_value_in_range(lcg_nth(seed, (k + 1) as nat), min_val, max_val);
    }
}

/// A mapped stream is reproducible: the same seed, range and length give the
/// same values.
pub proof fn lemma_mapped_stream_reproducible(
    seed_a: u32,
    seed_b: u32,
    min_val: int,
    max_val: int,
    n_a: nat,
    n_b: nat,
)
    requires
        seed_a == seed_b,
        n_a == n_b,
    ensures
        mapped_stream(seed_a, min_val, max_val, n_a) == mapped_stream(
            seed_b,
            min_val,
            max_val,
            n_b,
        ),
{
}

/// One more draw appends one mapped value and leaves the earlier ones alone.
pub proof fn lemma_mapped_stream_push(seed: u32, min_val: int, max_val: int, n: nat)
    ensures
        mapped_stream(seed, min_val, max_val, n + 1) == mapped_stream(
            seed,
            min_val,
            max_val,
            n,
        ).push(bounded_value(lcg_nth(seed, n + 1), min_val, max_val)),
{
}

/// Maps the word `v` into `min_val..=max_val` over 128-bit values.
pub fn map_i128(v: u32, min_val: i128, max_val: i128) -> (x: i128)
    requires
        min_val <= max_val,
        max_val - min_val <= i128::MAX,
    ensures
        x == bounded_value(v, min_val as int, max_val as int),
        min_val <= x <= max_val,
{
    let range_len: u128 = (max_val - min_val) as u128 + 1;
    let r: u128 = (v as u128) % range_len;
    r as i128 + min_val
}

/// Maps the word `v` into `min_val..=max_val` over 32-bit values.
pub fn map_i32(v: u32, min_val: i32, max_val: i32) -> (x: i32)
    requires
        min_val <= max_val,
        max_val - min_val <= i32::MAX,
    ensures
        x == bounded_value(v, min_val as int, max_val as int),
        min_val <= x <= max_val,
{
    let range_len: u32 = (max_val as i64 - min_val as i64 + 1) as u32;
    let r: u32 = v % range_len;
    r as i32 + min_val
}

} // verus!
