//! The reduction over non-empty runs, on 128-bit values.
//!
//! The running state extends the run that ends at the latest value while that
//! run has a positive sum and starts afresh at the value otherwise. A stream of
//! negative values therefore yields its largest single value.

use crate::lcg::{lcg_next, lcg_nth, lcg_step};
use crate::mapper::{
    bounded_value, lemma_mapped_stream_push, lemma_mapped_stream_within, map_i128, mapped_stream,
};
use crate::runs::{
    best_run, is_best_run, is_best_suffix, lemma_best_run_bounds, lemma_best_run_push,
    lemma_best_run_single, lemma_best_run_unique,
};
use crate::TRIALS;
use vstd::prelude::*;

verus! {

/// The running state of the reduction: the best sum of any run seen so far, and
/// the best sum of a run that ends at the latest value.
pub struct Reducer {
    max_so_far: i128,
    current_max: i128,
}

impl Reducer {
    /// The best sum of a non-empty run among the values taken in.
    pub closed spec fn best(&self) -> int {
        self.max_so_far as int
    }

    /// The best sum of a non-empty run that ends at the latest value.
    pub closed spec fn ending(&self) -> int {
        self.current_max as int
    }

    /// The run that ends at the latest value is one of the runs seen.
    pub open spec fn wf(&self) -> bool {
        self.ending() <= self.best()
    }

    /// The state is the one reached by taking in exactly the values of `s`.
    pub open spec fn summarizes(&self, s: Seq<int>) -> bool {
        &&& is_best_run(s, self.best())
        &&& is_best_suffix(s, self.ending())
    }

    /// The state after the first value `x` of a stream.
    pub fn start(x: i128) -> (r: Reducer)
        ensures
            r.best() == x,
            r.ending() == x,
            r.wf(),
            r.summarizes(seq![x as int]),
    {
        proof {
            lemma_best_run_single(x as int);
        }
        Reducer { max_so_far: x, current_max: x }
    }

    /// Takes in the next value `x`.
    pub fn push(&mut self, x: i128)
        requires
            old(self).ending() > 0 ==> old(self).ending() + x <= i128::MAX,
        ensures
            final(self).ending() == if old(self).ending() > 0 {
                old(self).ending() + x
            } else {
                x as int
            },
            final(self).best() == if old(self).best() >= final(self).ending() {
                old(self).best()
            } else {
                final(self).ending()
            },
            final(self).wf(),
            forall|s: Seq<int>| #[trigger]
                old(self).summarizes(s) ==> final(self).summarizes(s.push(x as int)),
    {
        let ghost before = *self;
        if self.current_max > 0 {
            self.current_max = self.current_max + x;
        } else {
            self.current_max = x;
        }
        if self.current_max > self.max_so_far {
            self.max_so_far = self.current_max;
        }
        proof {
            assert forall|s: Seq<int>| #[trigger] before.summarizes(s) implies self.summarizes(
                s.push(x as int),
            ) by {
                lemma_best_run_push(s, before.ending(), before.best(), x as int);
            }
        }
    }

    /// The best sum of a non-empty run among the values taken in.
    pub fn max_so_far(&self) -> (r: i128)
        ensures
            r == self.best(),
    {
        self.max_so_far
    }

    /// The best sum of a non-empty run that ends at the latest value.
    pub fn current_max(&self) -> (r: i128)
        ensures
            r == self.ending(),
    {
        self.current_max
    }
}

/// The number of values that a trial of nominal length `n` draws: the first
/// value is always drawn, so a trial of length zero draws one.
pub open spec fn draws(n: nat) -> nat {
    if n == 0 {
        1
    } else {
        n
    }
}

/// The sum of the first `trials` results of the driver: the `t`-th trial runs
/// on the stream seeded with the `t`-th word drawn from `initial_seed`.
pub open spec fn total_best_run(
    trials: nat,
    n: nat,
    initial_seed: u32,
    min_val: int,
    max_val: int,
) -> int
    decreases trials,
{
    if trials == 0 {
        0
    } else {
        total_best_run((trials - 1) as nat, n, initial_seed, min_val, max_val) + best_run(
            mapped_stream(lcg_nth(initial_seed, trials), min_val, max_val, draws(n)),
        )
    }
}

/// One trial: the largest sum of a non-empty contiguous run among the first
/// `n` values that a generator seeded with `seed` yields when each is mapped
/// into `min_val..=max_val`. A trial of length zero is run as one of length
/// one.
pub fn max_subarray_sum(n: usize, seed: u32, min_val: i128, max_val: i128) -> (r: i128)
    requires
        min_val <= max_val,
        max_val - min_val <= i128::MAX,
        n * max_val <= i128::MAX,
    ensures
        is_best_run(
            mapped_stream(seed, min_val as int, max_val as int, draws(n as nat)),
            r as int,
        ),
        r == best_run(mapped_stream(seed, min_val as int, max_val as int, draws(n as nat))),
{
    let ghost lo = min_val as int;
    let ghost hi = max_val as int;
    let mut state: u32 = seed;

    let v0: u32 = lcg_next(&mut state);
    let x0: i128 = map_i128(v0, min_val, max_val);
    let mut reducer = Reducer::start(x0);
    proof {
        assert(state == lcg_nth(seed, 1)) by {
            reveal_with_fuel(lcg_nth, 2);
        }
        assert(mapped_stream(seed, lo, hi, 1) =~= seq![x0 as int]);
    }

    let mut i: usize = 1;
    while i < n
        invariant
            1 <= i,
            i <= n || i == 1,
            lo == min_val,
            hi == max_val,
            lo <= hi,
            hi - lo <= i128::MAX,
            n * hi <= i128::MAX,
            state == lcg_nth(seed, i as nat),
            reducer.summarizes(mapped_stream(seed, lo, hi, i as nat)),
            reducer.ending() > 0 ==> reducer.ending() <= i * hi,
        decreases n - i,
    {
        let v: u32 = lcg_next(&mut state);
        let x: i128 = map_i128(v, min_val, max_val);
        proof {
            lemma_mapped_stream_push(seed, lo, hi, i as nat);
            assert((i + 1) * hi == i * hi + hi) by (nonlinear_arith);
            if hi > 0 {
                assert((i + 1) * hi <= n * hi) by (nonlinear_arith)
                    requires
                        i + 1 <= n,
                        hi > 0,
                ;
                assert(0 <= i * hi) by (nonlinear_arith)
                    requires
                        0 <= i,
                        hi > 0,
                ;
            }
        }
        reducer.push(x);
        i += 1;
    }
    proof {
        lemma_best_run_unique(mapped_stream(seed, lo, hi, draws(n as nat)), reducer.best());
    }
    reducer.max_so_far()
}

/// The driver: the sum of [`TRIALS`] trials of length `n` over
/// `min_val..=max_val`. Each trial has a generator of its own, seeded with
/// the next word drawn from a generator that starts at `initial_seed`.
pub fn total_max_subarray_sum(
    n: usize,
    initial_seed: u32,
    min_val: i128,
    max_val: i128,
) -> (total: i128)
    requires
        min_val <= max_val,
        max_val - min_val <= i128::MAX,
        TRIALS * min_val >= i128::MIN,
        TRIALS * draws(n as nat) * max_val <= i128::MAX,
    ensures
        total == total_best_run(
            TRIALS as nat,
            n as nat,
            initial_seed,
            min_val as int,
            max_val as int,
        ),
{
    let ghost lo = min_val as int;
    let ghost hi = max_val as int;
    let ghost len = draws(n as nat) as int;
    // the most that one trial can yield
    let ghost cap = if hi >= 0 { len * hi } else { 0 };
    proof {
        lemma_trial_fits(n as nat, hi);
    }

    let mut total_sum: i128 = 0;
    let mut seed_state: u32 = initial_seed;
    let mut i: usize = 0;
    while i < TRIALS
        invariant
            i <= TRIALS,
            lo == min_val,
            hi == max_val,
            len == draws(n as nat),
            cap == if hi >= 0 { len * hi } else { 0 },
            lo <= hi,
            hi - lo <= i128::MAX,
            TRIALS * lo >= i128::MIN,
            TRIALS * cap <= i128::MAX,
            n * hi <= i128::MAX,
            seed_state == lcg_nth(initial_seed, i as nat),
            total_sum == total_best_run(i as nat, n as nat, initial_seed, lo, hi),
            i * lo <= total_sum <= i * cap,
        decreases TRIALS - i,
    {
        let seed: u32 = lcg_next(&mut seed_state);
        let best: i128 = max_subarray_sum(n, seed, min_val, max_val);
        proof {
            let s = mapped_stream(seed, lo, hi, draws(n as nat));
            lemma_mapped_stream_within(seed, lo, hi, draws(n as nat));
            lemma_best_run_bounds(s, lo, hi);
            lemma_partial_sum_fits(i as int, lo, cap, total_sum as int, best as int);
        }
        total_sum += best;
        i += 1;
    }
    total_sum
}

/// Where every result lies in `lo..=cap` and `TRIALS` results at either end
/// fit, so does the sum of the first `i` results with one more added.
proof fn lemma_partial_sum_fits(i: int, lo: int, cap: int, total: int, best: int)
    requires
        0 <= i < TRIALS,
        i * lo <= total <= i * cap,
        lo <= best <= cap,
        TRIALS * lo >= i128::MIN,
        TRIALS * cap <= i128::MAX,
    ensures
        (i + 1) * lo <= total + best <= (i + 1) * cap,
        i128::MIN <= total + best <= i128::MAX,
{
    let trials = TRIALS as int;
    assert((i + 1) * lo == i * lo + lo) by (nonlinear_arith);
    assert((i + 1) * cap == i * cap + cap) by (nonlinear_arith);
    assert((i + 1) * lo >= i128::MIN) by (nonlinear_arith)
        requires
            0 <= i + 1 <= trials,
            trials * lo >= i128::MIN,
    ;
    assert((i + 1) * cap <= i128::MAX) by (nonlinear_arith)
        requires
            0 <= i + 1 <= trials,
            trials * cap <= i128::MAX,
    ;
}

/// Where the sum of all trials fits, so does one trial of nominal length `n`.
proof fn lemma_trial_fits(n: nat, hi: int)
    requires
        TRIALS * draws(n) * hi <= i128::MAX,
    ensures
        n * hi <= i128::MAX,
        TRIALS * (if hi >= 0 { draws(n) * hi } else { 0 }) <= i128::MAX,
{
    let len = draws(n) as int;
    let trials = TRIALS as int;
    assert(trials * len * hi == trials * (len * hi)) by (nonlinear_arith);
    if hi >= 0 {
        assert(0 <= n * hi <= len * hi <= trials * (len * hi)) by (nonlinear_arith)
            requires
                0 <= n <= len,
                hi >= 0,
                trials >= 1,
        ;
    } else {
        assert(n * hi <= 0) by (nonlinear_arith)
            requires
                0 <= n,
                hi < 0,
        ;
    }
}

/// A trial of length one yields exactly the mapping of the first word drawn.
pub proof fn lemma_single_draw(seed: u32, min_val: int, max_val: int)
    ensures
        best_run(mapped_stream(seed, min_val, max_val, 1)) == bounded_value(
            lcg_step(seed),
            min_val,
            max_val,
        ),
{
    reveal_with_fuel(lcg_nth, 2);
    let x = bounded_value(lcg_step(seed), min_val, max_val);
    assert(mapped_stream(seed, min_val, max_val, 1) =~= seq![x]);
    lemma_best_run_single(x);
}

/// The driver is deterministic: its total depends on the four parameters and
/// on nothing else, so two totals that it may return for the same parameters
/// are equal.
pub proof fn lemma_total_deterministic(
    n: nat,
    initial_seed: u32,
    min_val: int,
    max_val: int,
    first: int,
    second: int,
)
    requires
        first == total_best_run(TRIALS as nat, n, initial_seed, min_val, max_val),
        second == total_best_run(TRIALS as nat, n, initial_seed, min_val, max_val),
    ensures
        first == second,
{
}

} // verus!
