//! Contiguous runs of a sequence and the largest sum among them.
//!
//! Everything here is specification and proof. A run is given by two positions
//! `i <= j` and covers the elements at `i, i + 1, .., j - 1`; it is empty when
//! `i == j`.

use vstd::prelude::*;

verus! {

/// The sum of the elements of `s` at positions `i..j`; zero for an empty run.
pub open spec fn run_sum(s: Seq<int>, i: int, j: int) -> int
    decreases j - i,
{
    if j <= i {
        0
    } else {
        run_sum(s, i, j - 1) + s[j - 1]
    }
}

/// `m` is the sum of some non-empty run of `s`, and no non-empty run has a
/// larger sum.
pub open spec fn is_best_run(s: Seq<int>, m: int) -> bool {
    &&& exists|i: int, j: int| 0 <= i < j <= s.len() && #[trigger] run_sum(s, i, j) == m
    &&& forall|i: int, j: int| 0 <= i < j <= s.len() ==> #[trigger] run_sum(s, i, j) <= m
}

/// `m` is the sum of some non-empty run that reaches the end of `s`, and no
/// such run has a larger sum.
pub open spec fn is_best_suffix(s: Seq<int>, m: int) -> bool {
    &&& exists|i: int| 0 <= i < s.len() && #[trigger] run_sum(s, i, s.len() as int) == m
    &&& forall|i: int| 0 <= i < s.len() ==> #[trigger] run_sum(s, i, s.len() as int) <= m
}

/// As [`is_best_run`], with the empty run admitted: `m` is never below zero.
pub open spec fn is_best_run_or_empty(s: Seq<int>, m: int) -> bool {
    &&& exists|i: int, j: int| 0 <= i <= j <= s.len() && #[trigger] run_sum(s, i, j) == m
    &&& forall|i: int, j: int| 0 <= i <= j <= s.len() ==> #[trigger] run_sum(s, i, j) <= m
}

/// As [`is_best_suffix`], with the empty run admitted.
pub open spec fn is_best_suffix_or_empty(s: Seq<int>, m: int) -> bool {
    &&& exists|i: int| 0 <= i <= s.len() && #[trigger] run_sum(s, i, s.len() as int) == m
    &&& forall|i: int| 0 <= i <= s.len() ==> #[trigger] run_sum(s, i, s.len() as int) <= m
}

/// The largest sum of a non-empty run of `s`. It is meaningful for a non-empty
/// `s` only: see [`lemma_best_run_exists`].
pub open spec fn best_run(s: Seq<int>) -> int {
    choose|m: int| is_best_run(s, m)
}

/// The largest sum of a run of `s`, the empty run included.
pub open spec fn best_run_or_empty(s: Seq<int>) -> int {
    choose|m: int| is_best_run_or_empty(s, m)
}

/// Every element of `s` lies in `lo..=hi`.
pub open spec fn all_within(s: Seq<int>, lo: int, hi: int) -> bool {
    forall|k: int| 0 <= k < s.len() ==> lo <= #[trigger] s[k] <= hi
}

/// A run's sum depends only on the elements it covers: appending to the
/// sequence changes no sum of a run inside the old part.
pub proof fn lemma_run_sum_push(s: Seq<int>, x: int, i: int, j: int)
    requires
        0 <= i,
        j <= s.len(),
    ensures
        run_sum(s.push(x), i, j) == run_sum(s, i, j),
    decreases j - i,
{
    if i < j {
        lemma_run_sum_push(s, x, i, j - 1);
    }
}

/// A run that takes in the appended element adds it to the run before it.
pub proof fn lemma_run_sum_push_last(s: Seq<int>, x: int, i: int)
    requires
        0 <= i <= s.len(),
    ensures
        run_sum(s.push(x), i, s.len() as int + 1) == run_sum(s, i, s.len() as int) + x,
{
    lemma_run_sum_push(s, x, i, s.len() as int);
}

/// A run of `len` elements that are all in `lo..=hi` has a sum in
/// `len * lo ..= len * hi`.
pub proof fn lemma_run_sum_bounds(s: Seq<int>, lo: int, hi: int, i: int, j: int)
    requires
        all_within(s, lo, hi),
        0 <= i <= j <= s.len(),
    ensures
        (j - i) * lo <= run_sum(s, i, j) <= (j - i) * hi,
    decreases j - i,
{
    let len = j - i;
    if i < j {
        lemma_run_sum_bounds(s, lo, hi, i, j - 1);
        assert(lo <= s[j - 1] <= hi);
        assert(len * lo == (len - 1) * lo + lo) by (nonlinear_arith);
        assert(len * hi == (len - 1) * hi + hi) by (nonlinear_arith);
    } else {
        assert(len * lo == 0 && len * hi == 0) by (nonlinear_arith)
            requires
                len == 0,
        ;
    }
}

/// A sequence has at most one largest non-empty run sum.
pub proof fn lemma_best_run_unique(s: Seq<int>, m: int)
    requires
        is_best_run(s, m),
    ensures
        best_run(s) == m,
{
    // the chosen sum is a best run sum as well, and each of the two is at
    // least the other
    assert(is_best_run(s, best_run(s)));
}

/// A sequence has at most one largest run sum with the empty run admitted.
pub proof fn lemma_best_run_or_empty_unique(s: Seq<int>, m: int)
    requires
        is_best_run_or_empty(s, m),
    ensures
        best_run_or_empty(s) == m,
{
    // the chosen sum is a best run sum as well, and each of the two is at
    // least the other
    assert(is_best_run_or_empty(s, best_run_or_empty(s)));
}

/// A sequence of one element has that element as its best run and best suffix.
pub proof fn lemma_best_run_single(x: int)
    ensures
        is_best_run(seq![x], x),
        is_best_suffix(seq![x], x),
        best_run(seq![x]) == x,
{
    let s = seq![x];
    reveal_with_fuel(run_sum, 2);
    assert(run_sum(s, 0, s.len() as int) == x);
    assert forall|i: int, j: int| 0 <= i < j <= s.len() implies #[trigger] run_sum(s, i, j)
        <= x by {
        assert(i == 0 && j == 1);
    }
    lemma_best_run_unique(s, x);
}

/// The step of the reduction over non-empty runs. Given the best suffix sum
/// `ending` and the best run sum `best` of `s`, one more element `x` gives a
/// best suffix of `ending + x` when `ending` is positive and of `x` alone
/// otherwise, and the best run is the larger of the old one and that suffix.
pub proof fn lemma_best_run_push(s: Seq<int>, ending: int, best: int, x: int)
    requires
        is_best_suffix(s, ending),
        is_best_run(s, best),
    ensures
        is_best_suffix(s.push(x), if ending > 0 { ending + x } else { x }),
        is_best_run(
            s.push(x),
            if best >= (if ending > 0 { ending + x } else { x }) {
                best
            } else {
                if ending > 0 { ending + x } else { x }
            },
        ),
{
    let t = s.push(x);
    let n = s.len() as int;
    let ending2 = if ending > 0 { ending + x } else { x };
    let best2 = if best >= ending2 { best } else { ending2 };

    // the best suffix of `t`: the one of `s` with `x` added, or `x` alone
    let wi = choose|i: int| 0 <= i < s.len() && #[trigger] run_sum(s, i, s.len() as int) == ending;
    lemma_run_sum_push_last(s, x, wi);
    lemma_run_sum_push_last(s, x, n);
    let si = if ending > 0 { wi } else { n };
    assert(0 <= si < t.len() && run_sum(t, si, t.len() as int) == ending2);
    assert forall|i: int| 0 <= i < t.len() implies #[trigger] run_sum(t, i, t.len() as int)
        <= ending2 by {
        lemma_run_sum_push_last(s, x, i);
        if i < n {
            assert(run_sum(s, i, s.len() as int) <= ending);
        }
    }
    assert(is_best_suffix(t, ending2));

    // the best run of `t`: the one of `s`, or the best suffix of `t`
    let (bi, bj) = choose|i: int, j: int|
        0 <= i < j <= s.len() && #[trigger] run_sum(s, i, j) == best;
    lemma_run_sum_push(s, x, bi, bj);
    if best >= ending2 {
        assert(0 <= bi < bj <= t.len() && run_sum(t, bi, bj) == best2);
    } else {
        assert(0 <= si < n + 1 <= t.len() && run_sum(t, si, n + 1) == best2);
    }
    assert forall|i: int, j: int| 0 <= i < j <= t.len() implies #[trigger] run_sum(t, i, j)
        <= best2 by {
        if j <= n {
            lemma_run_sum_push(s, x, i, j);
            assert(run_sum(s, i, j) <= best);
        } else {
            assert(run_sum(t, i, t.len() as int) <= ending2);
        }
    }
    assert(is_best_run(t, best2));
}

/// The empty sequence has zero as its best run and best suffix when the empty
/// run is admitted.
pub proof fn lemma_best_run_or_empty_of_empty()
    ensures
        is_best_run_or_empty(Seq::<int>::empty(), 0),
        is_best_suffix_or_empty(Seq::<int>::empty(), 0),
        best_run_or_empty(Seq::<int>::empty()) == 0,
{
    let s = Seq::<int>::empty();
    assert(run_sum(s, 0, s.len() as int) == 0);
    lemma_best_run_or_empty_unique(s, 0);
}

/// The step of the reduction that admits the empty run. Given the best suffix
/// sum `ending` and the best run sum `best` of `s`, one more element `x` gives
/// a best suffix of `ending + x`, or of zero where that is negative, and the
/// best run is the larger of the old one and `ending + x`.
pub proof fn lemma_best_run_or_empty_push(s: Seq<int>, ending: int, best: int, x: int)
    requires
        is_best_suffix_or_empty(s, ending),
        is_best_run_or_empty(s, best),
    ensures
        is_best_suffix_or_empty(s.push(x), if ending + x < 0 { 0 } else { ending + x }),
        is_best_run_or_empty(s.push(x), if ending + x > best { ending + x } else { best }),
{
    let t = s.push(x);
    let n = s.len() as int;
    let ending2 = if ending + x < 0 { 0 } else { ending + x };
    let best2 = if ending + x > best { ending + x } else { best };

    // the best suffix of `t`: the one of `s` with `x` added, or the empty run
    let wi = choose|i: int|
        0 <= i <= s.len() && #[trigger] run_sum(s, i, s.len() as int) == ending;
    lemma_run_sum_push_last(s, x, wi);
    let si = if ending + x < 0 { n + 1 } else { wi };
    assert(0 <= si <= t.len() && run_sum(t, si, t.len() as int) == ending2);
    assert forall|i: int| 0 <= i <= t.len() implies #[trigger] run_sum(t, i, t.len() as int)
        <= ending2 by {
        if i <= n {
            lemma_run_sum_push_last(s, x, i);
            assert(run_sum(s, i, s.len() as int) <= ending);
        }
    }
    assert(is_best_suffix_or_empty(t, ending2));

    // the best run of `t`: the one of `s`, or the best suffix of `s` with `x`
    // added
    let (bi, bj) = choose|i: int, j: int|
        0 <= i <= j <= s.len() && #[trigger] run_sum(s, i, j) == best;
    lemma_run_sum_push(s, x, bi, bj);
    assert(run_sum(s, 0, 0) == 0);
    if ending + x > best {
        assert(0 <= wi <= n + 1 <= t.len() && run_sum(t, wi, n + 1) == best2);
    } else {
        assert(0 <= bi <= bj <= t.len() && run_sum(t, bi, bj) == best2);
    }
    assert forall|i: int, j: int| 0 <= i <= j <= t.len() implies #[trigger] run_sum(t, i, j)
        <= best2 by {
        if j <= n {
            lemma_run_sum_push(s, x, i, j);
            assert(run_sum(s, i, j) <= best);
        } else {
            assert(run_sum(t, i, t.len() as int) <= ending2);
        }
    }
    assert(is_best_run_or_empty(t, best2));
}

/// Every non-empty sequence has a largest non-empty run sum, and
/// [`best_run`] is that sum.
pub proof fn lemma_best_run_exists(s: Seq<int>)
    requires
        s.len() > 0,
    ensures
        is_best_run(s, best_run(s)),
        exists|e: int| is_best_suffix(s, e),
    decreases s.len(),
{
    if s.len() == 1 {
        lemma_best_run_single(s[0]);
        assert(s =~= seq![s[0]]);
    } else {
        let front = s.drop_last();
        lemma_best_run_exists(front);
        let ending = choose|e: int| is_best_suffix(front, e);
        lemma_best_run_push(front, ending, best_run(front), s.last());
        assert(front.push(s.last()) =~= s);
        let ending2 = if ending > 0 { ending + s.last() } else { s.last() };
        assert(is_best_suffix(s, ending2));
    }
}

/// Every sequence has a largest run sum with the empty run admitted, and
/// [`best_run_or_empty`] is that sum.
pub proof fn lemma_best_run_or_empty_exists(s: Seq<int>)
    ensures
        is_best_run_or_empty(s, best_run_or_empty(s)),
        exists|e: int| is_best_suffix_or_empty(s, e),
    decreases s.len(),
{
    if s.len() == 0 {
        lemma_best_run_or_empty_of_empty();
        assert(s =~= Seq::<int>::empty());
    } else {
        let front = s.drop_last();
        lemma_best_run_or_empty_exists(front);
        let ending = choose|e: int| is_best_suffix_or_empty(front, e);
        let best = best_run_or_empty(front);
        lemma_best_run_or_empty_push(front, ending, best, s.last());
        assert(front.push(s.last()) =~= s);
        let ending2 = if ending + s.last() < 0 { 0 } else { ending + s.last() };
        assert(is_best_suffix_or_empty(s, ending2));
    }
}

/// The two policies compared: admitting the empty run changes the result
/// exactly when every non-empty run has a negative sum, and then to zero.
pub proof fn lemma_policies_compared(s: Seq<int>)
    requires
        s.len() > 0,
    ensures
        best_run_or_empty(s) == if best_run(s) < 0 { 0 } else { best_run(s) },
{
    lemma_best_run_exists(s);
    let b = best_run(s);
    let m = if b < 0 { 0 } else { b };
    let (bi, bj) = choose|i: int, j: int| 0 <= i < j <= s.len() && #[trigger] run_sum(s, i, j) == b;
    if b < 0 {
        assert(0 <= 0 <= 0 <= s.len() && run_sum(s, 0, 0) == m);
    } else {
        assert(0 <= bi <= bj <= s.len() && run_sum(s, bi, bj) == m);
    }
    assert forall|i: int, j: int| 0 <= i <= j <= s.len() implies #[trigger] run_sum(s, i, j)
        <= m by {
        if i < j {
            assert(run_sum(s, i, j) <= b);
        }
    }
    lemma_best_run_or_empty_unique(s, m);
}

/// Where every element lies in `lo..=hi`, so does the best non-empty run sum
/// from below, and it is at most `len * hi` where `hi` is positive, at most
/// `hi` otherwise.
pub proof fn lemma_best_run_bounds(s: Seq<int>, lo: int, hi: int)
    requires
        s.len() > 0,
        all_within(s, lo, hi),
    ensures
        lo <= best_run(s),
        hi >= 0 ==> best_run(s) <= s.len() * hi,
        hi < 0 ==> best_run(s) <= hi,
{
    lemma_best_run_exists(s);
    let b = best_run(s);
    let (bi, bj) = choose|i: int, j: int| 0 <= i < j <= s.len() && #[trigger] run_sum(s, i, j) == b;
    lemma_run_sum_bounds(s, lo, hi, bi, bj);
    let len = bj - bi;
    if hi >= 0 {
        assert(len * hi <= s.len() * hi) by (nonlinear_arith)
            requires
                0 <= len <= s.len(),
                hi >= 0,
        ;
    } else {
        assert(len * hi <= hi) by (nonlinear_arith)
            requires
                1 <= len,
                hi < 0,
        ;
    }
    // a single element is a run, so the best is at least `lo`
    reveal_with_fuel(run_sum, 2);
    assert(run_sum(s, 0, 1) <= b);
}

/// Where every element is at most `hi`, the best run sum with the empty run
/// admitted is at least zero, at most `len * hi` where `hi` is positive, and
/// zero otherwise.
pub proof fn lemma_best_run_or_empty_bounds(s: Seq<int>, lo: int, hi: int)
    requires
        all_within(s, lo, hi),
    ensures
        0 <= best_run_or_empty(s),
        hi >= 0 ==> best_run_or_empty(s) <= s.len() * hi,
        hi < 0 ==> best_run_or_empty(s) == 0,
{
    lemma_best_run_or_empty_exists(s);
    let b = best_run_or_empty(s);
    let (bi, bj) = choose|i: int, j: int|
        0 <= i <= j <= s.len() && #[trigger] run_sum(s, i, j) == b;
    lemma_run_sum_bounds(s, lo, hi, bi, bj);
    let len = bj - bi;
    assert(run_sum(s, 0, 0) <= b);
    if hi >= 0 {
        assert(len * hi <= s.len() * hi) by (nonlinear_arith)
            requires
                0 <= len <= s.len(),
                hi >= 0,
        ;
    } else {
        assert(len * hi <= 0) by (nonlinear_arith)
            requires
                0 <= len,
                hi < 0,
        ;
    }
}

} // verus!
