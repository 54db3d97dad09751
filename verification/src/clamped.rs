//! The reduction that admits the empty run, on 32-bit values with 64-bit sums.
//!
//! The running sum starts at zero and falls back to zero whenever it turns
//! negative, and the best sum starts at zero as well. A stream of negative
//! values therefore yields zero, the sum of the empty run, and not its largest
//! single value.

use crate::lcg::{lcg_nth, lcg_step, Lcg};
use crate::mapper::{
    bounded_value, lemma_mapped_stream_push, lemma_mapped_stream_within, map_i32, mapped_stream,
};
use crate::runs::{
    best_run_or_empty, is_best_run_or_empty, is_best_suffix_or_empty,
    lemma_best_run_or_empty_bounds, lemma_best_run_or_empty_of_empty,
    lemma_best_run_or_empty_push, lemma_best_run_or_empty_unique, lemma_best_run_single,
    lemma_policies_compared,
};
use crate::TRIALS;
use vstd::prelude::*;

verus! {

/// The running state of the reduction: the best sum of any run seen so far, and
/// the best sum of a run that ends at the latest value, the empty run counted
/// in both.
pub struct Reducer {
    max_sum: i64,
    cur_sum: i64,
}

impl Reducer {
    /// The best sum of a run among the values taken in.
    pub closed spec fn best(&self) -> int {
        self.max_sum as int
    }

    /// The best sum of a run that ends at the latest value.
    pub closed spec fn ending(&self) -> int {
        self.cur_sum as int
    }

    /// The empty run keeps the running sum from being negative, and the run
    /// that ends at the latest value is one of the runs seen.
    pub open spec fn wf(&self) -> bool {
        0 <= self.ending() <= self.best()
    }

    /// The state is the one reached by taking in exactly the values of `s`.
    pub open spec fn summarizes(&self, s: Seq<int>) -> bool {
        &&& is_best_run_or_empty(s, self.best())
        &&& is_best_suffix_or_empty(s, self.ending())
    }

    /// The state before any value.
    pub fn new() -> (r: Reducer)
        ensures
            r.best() == 0,
            r.ending() == 0,
            r.wf(),
            r.summarizes(Seq::<int>::empty()),
    {
        proof {
            lemma_best_run_or_empty_of_empty();
        }
        Reducer { max_sum: 0, cur_sum: 0 }
    }

    /// Takes in the next value `v`.
    pub fn push(&mut self, v: i32)
        requires
            old(self).wf(),
            old(self).ending() + v <= i64::MAX,
        ensures
            final(self).ending() == if old(self).ending() + v < 0 {
                0
            } else {
                old(self).ending() + v
            },
            final(self).best() == if old(self).ending() + v > old(self).best() {
                old(self).ending() + v
            } else {
                old(self).best()
            },
            final(self).wf(),
            forall|s: Seq<int>| #[trigger]
                old(self).summarizes(s) ==> final(self).summarizes(s.push(v as int)),
    {
        let ghost before = *self;
        self.cur_sum = self.cur_sum + v as i64;
        if self.cur_sum > self.max_sum {
            self.max_sum = self.cur_sum;
        }
        if self.cur_sum < 0 {
            self.cur_sum = 0;
        }
        proof {
            assert forall|s: Seq<int>| #[trigger] before.summarizes(s) implies self.summarizes(
                s.push(v as int),
            ) by {
                lemma_best_run_or_empty_push(s, before.ending(), before.best(), v as int);
            }
        }
    }

    /// The best sum of a run among the values taken in.
    pub fn max_sum(&self) -> (r: i64)
        ensures
            r == self.best(),
    {
        self.max_sum
    }

    /// The best sum of a run that ends at the latest value.
    pub fn cur_sum(&self) -> (r: i64)
        ensures
            r == self.ending(),
    {
        self.cur_sum
    }
}

/// The sum of the first `trials` results of the driver: the `t`-th trial runs
/// on the stream seeded with the `t`-th word drawn from `initial_seed`.
pub open spec fn total_best_run_or_empty(
    trials: nat,
    n: nat,
    initial_seed: u32,
    min_val: int,
    max_val: int,
) -> int
    decreases trials,
{
    if trials == 0 {
        0
    } else {
        total_best_run_or_empty((trials - 1) as nat, n, initial_seed, min_val, max_val)
            + best_run_or_empty(
            mapped_stream(lcg_nth(initial_seed, trials), min_val, max_val, n),
        )
    }
}

/// One trial: the largest sum of a contiguous run, the empty run included,
/// among the first `n` values that a generator seeded with `seed` yields when
/// each is mapped into `min_val..=max_val`.
pub fn max_subarray_sum_fast(n: usize, seed: u32, min_val: i32, max_val: i32) -> (r: i64)
    requires
        min_val <= max_val,
        max_val - min_val <= i32::MAX,
        n * max_val <= i64::MAX,
    ensures
        is_best_run_or_empty(
            mapped_stream(seed, min_val as int, max_val as int, n as nat),
            r as int,
        ),
        r == best_run_or_empty(mapped_stream(seed, min_val as int, max_val as int, n as nat)),
{
    let ghost lo = min_val as int;
    let ghost hi = max_val as int;
    let mut lcg = Lcg::new(seed);
    let mut reducer = Reducer::new();
    proof {
        assert(mapped_stream(seed, lo, hi, 0) =~= Seq::<int>::empty());
    }

    let mut i: usize = 0;
    while i < n
        invariant
            i <= n,
            lo == min_val,
            hi == max_val,
            lo <= hi,
            hi - lo <= i32::MAX,
            n * hi <= i64::MAX,
            lcg@ == lcg_nth(seed, i as nat),
            reducer.wf(),
            reducer.summarizes(mapped_stream(seed, lo, hi, i as nat)),
            reducer.ending() > 0 ==> reducer.ending() <= i * hi,
        decreases n - i,
    {
        let word: u32 = lcg.next().unwrap();
        let v: i32 = map_i32(word, min_val, max_val);
        proof {
            lemma_mapped_stream_push(seed, lo, hi, i as nat);
            assert((i + 1) * hi == i * hi + hi) by (nonlinear_arith);
            if hi > 0 {
                assert((i + 1) * hi <= n * hi) by (nonlinear_arith)
                    requires
                        i + 1 <= n,
                        hi > 0,
                ;
                assert(0 <= i * hi) by (nonlinear_arith)
                    requires
                        0 <= i,
                        hi > 0,
                ;
            }
        }
        reducer.push(v);
        i += 1;
    }
    proof {
        lemma_best_run_or_empty_unique(mapped_stream(seed, lo, hi, n as nat), reducer.best());
    }
    reducer.max_sum()
}

/// The driver: the sum of [`TRIALS`] trials of length `n` over
/// `min_val..=max_val`. Each trial has a generator of its own, seeded with
/// the next word drawn from a generator that starts at `initial_seed`.
pub fn total_max_subarray_sum(
    n: usize,
    initial_seed: u32,
    min_val: i32,
    max_val: i32,
) -> (total: i64)
    requires
        min_val <= max_val,
        max_val - min_val <= i32::MAX,
        TRIALS * n * max_val <= i64::MAX,
    ensures
        total == total_best_run_or_empty(
            TRIALS as nat,
            n as nat,
            initial_seed,
            min_val as int,
            max_val as int,
        ),
{
    let ghost lo = min_val as int;
    let ghost hi = max_val as int;
    // the most that one trial can yield
    let ghost cap = if hi >= 0 { n * hi } else { 0 };
    proof {
        lemma_trial_fits(n as nat, hi);
    }

    let mut total: i64 = 0;
    let mut lcg = Lcg::new(initial_seed);
    let mut i: usize = 0;
    while i < TRIALS
        invariant
            i <= TRIALS,
            lo == min_val,
            hi == max_val,
            cap == if hi >= 0 { n * hi } else { 0 },
            lo <= hi,
            hi - lo <= i32::MAX,
            TRIALS * cap <= i64::MAX,
            n * hi <= i64::MAX,
            lcg@ == lcg_nth(initial_seed, i as nat),
            total == total_best_run_or_empty(i as nat, n as nat, initial_seed, lo, hi),
            0 <= total <= i * cap,
        decreases TRIALS - i,
    {
        let seed: u32 = lcg.next().unwrap();
        let best: i64 = max_subarray_sum_fast(n, seed, min_val, max_val);
        proof {
            lemma_mapped_stream_within(seed, lo, hi, n as nat);
            lemma_best_run_or_empty_bounds(mapped_stream(seed, lo, hi, n as nat), lo, hi);
            lemma_partial_sum_fits(i as int, cap, total as int, best as int);
        }
        total += best;
        i += 1;
    }
    total
}

/// Where every result lies in `0..=cap` and `TRIALS` results of `cap` fit, so
/// does the sum of the first `i` results with one more added.
proof fn lemma_partial_sum_fits(i: int, cap: int, total: int, best: int)
    requires
        0 <= i < TRIALS,
        0 <= total <= i * cap,
        0 <= best <= cap,
        TRIALS * cap <= i64::MAX,
    ensures
        0 <= total + best <= (i + 1) * cap,
        total + best <= i64::MAX,
{
    let trials = TRIALS as int;
    assert((i + 1) * cap == i * cap + cap) by (nonlinear_arith);
    assert((i + 1) * cap <= i64::MAX) by (nonlinear_arith)
        requires
            0 <= i + 1 <= trials,
            0 <= cap,
            trials * cap <= i64::MAX,
    ;
}

/// Where the sum of all trials fits, so does one trial of length `n`.
proof fn lemma_trial_fits(n: nat, hi: int)
    requires
        TRIALS * n * hi <= i64::MAX,
    ensures
        n * hi <= i64::MAX,
        TRIALS * (if hi >= 0 { n * hi } else { 0 }) <= i64::MAX,
{
    let trials = TRIALS as int;
    assert(trials * n * hi == trials * (n * hi)) by (nonlinear_arith);
    if hi >= 0 {
        assert(0 <= n * hi <= trials * (n * hi)) by (nonlinear_arith)
            requires
                0 <= n,
                hi >= 0,
                trials >= 1,
        ;
    } else {
        assert(n * hi <= 0) by (nonlinear_arith)
            requires
                0 <= n,
                hi < 0,
        ;
    }
}

/// A trial of length one yields the mapping of the first word drawn, unless
/// that value is negative: then the empty run is the better one and the trial
/// yields zero.
pub proof fn lemma_single_draw(seed: u32, min_val: int, max_val: int)
    ensures
        bounded_value(lcg_step(seed), min_val, max_val) >= 0 ==> best_run_or_empty(
            mapped_stream(seed, min_val, max_val, 1),
        ) == bounded_value(lcg_step(seed), min_val, max_val),
        bounded_value(lcg_step(seed), min_val, max_val) < 0 ==> best_run_or_empty(
            mapped_stream(seed, min_val, max_val, 1),
        ) == 0,
{
    reveal_with_fuel(lcg_nth, 2);
    let x = bounded_value(lcg_step(seed), min_val, max_val);
    assert(mapped_stream(seed, min_val, max_val, 1) =~= seq![x]);
    lemma_best_run_single(x);
    lemma_policies_compared(seq![x]);
}

/// The driver is deterministic: its total depends on the four parameters and
/// on nothing else, so two totals that it may return for the same parameters
/// are equal.
pub proof fn lemma_total_deterministic(
    n: nat,
    initial_seed: u32,
    min_val: int,
    max_val: int,
    first: int,
    second: int,
)
    requires
        first == total_best_run_or_empty(TRIALS as nat, n, initial_seed, min_val, max_val),
        second == total_best_run_or_empty(TRIALS as nat, n, initial_seed, min_val, max_val),
    ensures
        first == second,
{
}

} // verus!
