//! Early-warning detector for streaming sequences of unsigned integers.
//!
//! After an initial window of `period` values, every element of the sequence
//! must equal the sum of two *distinct* entries among the `period` values
//! immediately preceding it. The first element for which no such pair exists
//! is an early-warning failure; a fully consistent sequence is safe.
//!
//! [`collapse_check`] is the main entry point; the pair-sum search it relies
//! on is exported as [`pair_exists`].

use vstd::prelude::*;

pub mod bench_iterations;
pub mod window;

verus! {

/// Why a scan step failed: the ternary failure outcome of the pair-sum
/// oracle. All three are domain failures that end the scan; they differ only
/// in the diagnostic handed to the caller.
#[derive(Clone, Copy, Debug, PartialEq, Eq, Structural)]
pub enum FailureReason {
    /// Even the two largest window values cannot reach the target.
    MaxTooSmall,
    /// Even the two smallest window values already exceed the target.
    MinTooBig,
    /// The exhaustive search found no pair of distinct entries that sums
    /// to the target.
    NoPairFound,
}

/// The values held by a window of `(value, slot)` pairs, in window order.
pub open spec fn window_values(w: Seq<(u128, usize)>) -> Seq<u128> {
    w.map_values(|e: (u128, usize)| e.0)
}

/// The window is sorted ascending by value.
pub open spec fn sorted_by_value(w: Seq<(u128, usize)>) -> bool {
    forall|k: int, l: int| 0 <= k <= l < w.len() ==> (#[trigger] w[k]).0 <= (#[trigger] w[l]).0
}

/// Even doubling the largest value falls short of the target.
pub open spec fn max_too_small(vals: Seq<u128>, target: u128) -> bool {
    forall|i: int| 0 <= i < vals.len() ==> 2 * (#[trigger] vals[i] as int) < target as int
}

/// Even doubling the smallest value overshoots the target.
pub open spec fn min_too_big(vals: Seq<u128>, target: u128) -> bool {
    forall|i: int| 0 <= i < vals.len() ==> 2 * (#[trigger] vals[i] as int) > target as int
}

/// Two distinct positions hold values that sum exactly to the target.
/// Distinctness is positional: two positions holding equal values count.
pub open spec fn has_pair(vals: Seq<u128>, target: u128) -> bool {
    exists|i: int, j: int|
        0 <= i < vals.len() && 0 <= j < vals.len() && i != j
            && (#[trigger] vals[i]) as int + (#[trigger] vals[j]) as int == target as int
}

/// The pair-sum oracle: the two range bounds are checked first, once, in this
/// order; only then does the outcome turn on pair-sum reachability.
pub open spec fn oracle_spec(vals: Seq<u128>, target: u128) -> Result<(), FailureReason> {
    if max_too_small(vals, target) {
        Err(FailureReason::MaxTooSmall)
    } else if min_too_big(vals, target) {
        Err(FailureReason::MinTooBig)
    } else if has_pair(vals, target) {
        Ok(())
    } else {
        Err(FailureReason::NoPairFound)
    }
}

/// The trailing window of the sequence at scan position `c`: the `period`
/// values immediately preceding `seq[c]`.
pub open spec fn window_at(seq: Seq<u128>, period: int, c: int) -> Seq<u128> {
    seq.subrange(c - period, c)
}

/// The outcome of validating the single element at scan position `c`
/// against its trailing window.
pub open spec fn step_spec(seq: Seq<u128>, period: int, c: int) -> Result<(), FailureReason> {
    oracle_spec(window_at(seq, period, c), seq[c])
}

/// The outcome of scanning positions `c`, `c + 1`, ... to the end of the
/// sequence: the first failing step's reason, or success if every remaining
/// step passes.
pub open spec fn scan_from(seq: Seq<u128>, period: int, c: int) -> Result<(), FailureReason>
    decreases seq.len() - c,
{
    if c < 0 || c >= seq.len() {
        Ok(())
    } else {
        match step_spec(seq, period, c) {
            Err(reason) => Err(reason),
            Ok(()) => scan_from(seq, period, c + 1),
        }
    }
}

/// What `collapse_check` returns: sequences no longer than the window are
/// vacuously safe; otherwise the scan starts at position `period`.
pub open spec fn collapse_spec(seq: Seq<u128>, period: int) -> Result<(), FailureReason> {
    if seq.len() <= period {
        Ok(())
    } else {
        scan_from(seq, period, period)
    }
}

/// The first failing scan position at or after `c`, if any.
pub open spec fn first_failure_from(seq: Seq<u128>, period: int, c: int) -> Option<int>
    decreases seq.len() - c,
{
    if c < 0 || c >= seq.len() {
        None
    } else if step_spec(seq, period, c) is Err {
        Some(c)
    } else {
        first_failure_from(seq, period, c + 1)
    }
}

/// The index of the element reported by a failing check, if the check fails.
pub open spec fn first_failure_index(seq: Seq<u128>, period: int) -> Option<int> {
    if seq.len() <= period {
        None
    } else {
        first_failure_from(seq, period, period)
    }
}

/// Position `i` is the first half of a pair: some other position holds
/// exactly the value that completes the target sum.
pub open spec fn pair_at(vals: Seq<u128>, target: u128, i: int) -> bool {
    exists|j: int|
        0 <= j < vals.len() && j != i && vals[i] as int + (#[trigger] vals[j]) as int
            == target as int
}

/// Binary search for a value over the sorted tail `values[lo..]`.
/// Returns some position holding `x`, or `None` when the tail holds no `x`.
pub(crate) fn binary_search_from(values: &Vec<(u128, usize)>, lo: usize, x: u128) -> (r: Option<
    usize,
>)
    requires
        sorted_by_value(values@),
        lo <= values@.len(),
    ensures
        match r {
            Some(l) => lo <= l < values@.len() && values@[l as int].0 == x,
            None => forall|m: int| lo <= m < values@.len() ==> (#[trigger] values@[m]).0 != x,
        },
{
    let mut low = lo;
    let mut high = values.len();
    while low < high
        invariant
            lo <= low <= high <= values@.len(),
            sorted_by_value(values@),
            forall|m: int| lo <= m < low ==> (#[trigger] values@[m]).0 < x,
            forall|m: int| high <= m < values@.len() ==> (#[trigger] values@[m]).0 > x,
        decreases high - low,
    {
        let mid = low + (high - low) / 2;
        let v = values[mid].0;
        if v == x {
            return Some(mid);
        } else if v < x {
            low = mid + 1;
        } else {
            high = mid;
        }
    }
    None
}

/// Decides whether two distinct entries of the sorted window sum exactly to
/// `target`. The two range bounds are checked first, once, before the
/// per-element scan; a target they rule out is reported as `MaxTooSmall` or
/// `MinTooBig` without searching.
///
/// The complement of an entry `v` is only meaningful when `v <= target`
/// (the values are unsigned, so a larger entry cannot take part in a pair);
/// larger entries are skipped rather than searched with a wrapped
/// difference. When the complement equals `v` itself, a pair needs a second
/// entry of the same value, found adjacent to `v` in the sorted order.
pub fn pair_exists(values: &Vec<(u128, usize)>, target: u128) -> (r: Result<(), FailureReason>)
    requires
        values@.len() >= 1,
        sorted_by_value(values@),
    ensures
        r == oracle_spec(window_values(values@), target),
{
    let ghost vals = window_values(values@);
    let n = values.len();
    let min = values[0].0;
    let max = values[n - 1].0;
    let half = u128::MAX / 2;

    let too_small = max <= half && 2 * max < target;
    proof {
        if max > half {
            assert(2 * (max as int) > u128::MAX as int);
        }
        assert(too_small == max_too_small(vals, target)) by {
            if 2 * (max as int) < target as int {
                assert forall|i: int| 0 <= i < vals.len() implies 2 * (#[trigger] vals[i] as int)
                    < target as int by {
                    assert(values@[i].0 <= values@[n - 1].0);
                }
            } else {
                assert(vals[n - 1] == values@[n - 1].0);
            }
        }
    }
    if too_small {
        return Err(FailureReason::MaxTooSmall);
    }

    let too_big = min > half || 2 * min > target;
    proof {
        if min > half {
            assert(2 * (min as int) > u128::MAX as int);
        }
        assert(too_big == min_too_big(vals, target)) by {
            if 2 * (min as int) > target as int {
                assert forall|i: int| 0 <= i < vals.len() implies 2 * (#[trigger] vals[i] as int)
                    > target as int by {
                    assert(values@[0].0 <= values@[i].0);
                }
            } else {
                assert(vals[0] == values@[0].0);
            }
        }
    }
    if too_big {
        return Err(FailureReason::MinTooBig);
    }

    let mut k: usize = 0;
    while k < n
        invariant
            0 <= k <= n,
            n == values@.len(),
            vals == window_values(values@),
            sorted_by_value(values@),
            !max_too_small(vals, target),
            !min_too_big(vals, target),
            forall|i: int| 0 <= i < k ==> !(#[trigger] pair_at(vals, target, i)),
        decreases n - k,
    {
        let v = values[k].0;
        if v <= target {
            let complement = target - v;
            if complement == v {
                if (k > 0 && values[k - 1].0 == v) || (k + 1 < n && values[k + 1].0 == v) {
                    proof {
                        if k > 0 && values@[k as int - 1].0 == v {
                            assert(vals[k as int - 1] as int + vals[k as int] as int
                                == target as int);
                        } else {
                            assert(vals[k as int + 1] as int + vals[k as int] as int
                                == target as int);
                        }
                    }
                    return Ok(());
                }
                proof {
                    assert forall|j: int|
                        0 <= j < vals.len() && j != k as int implies vals[j] != v by {
                        if j < k as int {
                            assert(values@[j].0 <= values@[k as int - 1].0);
                        } else {
                            assert(values@[k as int + 1].0 <= values@[j].0);
                        }
                    }
                    assert(!pair_at(vals, target, k as int));
                }
            } else {
                match binary_search_from(values, 0, complement) {
                    Some(l) => {
                        proof {
                            assert(vals[l as int] == complement);
                            assert(l as int != k as int);
                            assert(vals[k as int] as int + vals[l as int] as int == target as int);
                        }
                        return Ok(());
                    },
                    None => {
                        proof {
                            assert forall|j: int|
                                0 <= j < vals.len() && j != k as int && vals[k as int] as int
                                    + vals[j] as int == target as int implies false by {
                                assert(values@[j].0 == complement);
                            }
                            assert(!pair_at(vals, target, k as int));
                        }
                    },
                }
            }
        } else {
            proof {
                assert(!pair_at(vals, target, k as int));
            }
        }
        k += 1;
    }
    proof {
        assert(!has_pair(vals, target)) by {
            if has_pair(vals, target) {
                let (i, j) = choose|i: int, j: int|
                    0 <= i < vals.len() && 0 <= j < vals.len() && i != j && (#[trigger] vals[i])
                        as int + (#[trigger] vals[j]) as int == target as int;
                assert(pair_at(vals, target, i));
            }
        }
    }
    Err(FailureReason::NoPairFound)
}

/// Checks the whole sequence for an imminent failure: every element past
/// the first `period` must be the sum of two distinct entries among the
/// `period` values immediately preceding it.
///
/// A sequence no longer than `period` is trivially safe. Otherwise the scan
/// stops at the first offending element and reports why no pair reaches it;
/// the sequence itself is left untouched.
pub fn collapse_check(vector: &mut Vec<u128>, period: usize) -> (r: Result<(), FailureReason>)
    requires
        period >= 1,
    ensures
        final(vector)@ == old(vector)@,
        r == collapse_spec(old(vector)@, period as int),
{
    if vector.len() <= period {
        return Ok(());
    }
    let ghost seqv = vector@;
    let mut values = window::init_window(vector, period);
    let mut c: usize = period;
    while c < vector.len()
        invariant
            1 <= period <= c <= seqv.len(),
            vector@ == seqv,
            seqv.len() > period,
            window::wf_window(values@, seqv, period as int, c as int),
            sorted_by_value(values@),
            scan_from(seqv, period as int, period as int) == scan_from(
                seqv,
                period as int,
                c as int,
            ),
        decreases seqv.len() - c,
    {
        let target = vector[c];
        let r = pair_exists(&values, target);
        proof {
            window::lemma_window_oracle(values@, seqv, period as int, c as int, target);
        }
        if let Err(reason) = r {
            return Err(reason);
        }
        let ghost before = values@;
        window::advance_window(&mut values, target, period);
        proof {
            window::lemma_slide_wf(before, seqv, period, c as int);
            window::lemma_wf_window_transfer(
                before.map_values(|e: (u128, usize)| window::slide_entry(e, target, period)),
                values@,
                seqv,
                period as int,
                c as int + 1,
            );
        }
        c += 1;
    }
    Ok(())
}

/// Locates the first failing scan position, if any: the index of the first
/// element past the initial window that is not the sum of two distinct
/// entries of its trailing window, together with the reason no pair
/// reaches it. `collapse_check` fails exactly when this finds a position,
/// and with the same reason; this form hands the caller the index and —
/// through it — the offending value as well.
pub fn first_failure(vector: &Vec<u128>, period: usize) -> (r: Option<(usize, FailureReason)>)
    requires
        period >= 1,
    ensures
        match r {
            None => first_failure_index(vector@, period as int) is None,
            Some((c, reason)) => first_failure_index(vector@, period as int) == Some(c as int)
                && Err::<(), FailureReason>(reason) == step_spec(vector@, period as int, c as int),
        },
{
    if vector.len() <= period {
        return None;
    }
    let ghost seqv = vector@;
    let mut values = window::init_window(vector, period);
    let mut c: usize = period;
    while c < vector.len()
        invariant
            1 <= period <= c <= seqv.len(),
            vector@ == seqv,
            seqv.len() > period,
            window::wf_window(values@, seqv, period as int, c as int),
            sorted_by_value(values@),
            first_failure_from(seqv, period as int, period as int) == first_failure_from(
                seqv,
                period as int,
                c as int,
            ),
        decreases seqv.len() - c,
    {
        let target = vector[c];
        let r = pair_exists(&values, target);
        proof {
            window::lemma_window_oracle(values@, seqv, period as int, c as int, target);
        }
        if let Err(reason) = r {
            return Some((c, reason));
        }
        let ghost before = values@;
        window::advance_window(&mut values, target, period);
        proof {
            window::lemma_slide_wf(before, seqv, period, c as int);
            window::lemma_wf_window_transfer(
                before.map_values(|e: (u128, usize)| window::slide_entry(e, target, period)),
                values@,
                seqv,
                period as int,
                c as int + 1,
            );
        }
        c += 1;
    }
    None
}

/// A sequence no longer than the window is vacuously safe: no element ever
/// needs validating, so the check succeeds whatever the values are.
pub proof fn lemma_short_sequence_safe(seq: Seq<u128>, period: int)
    requires
        seq.len() <= period,
    ensures
        collapse_spec(seq, period) == Ok::<(), FailureReason>(()),
{
}

/// A target beyond twice the window's maximum — the last entry of the
/// sorted window — is reported as `MaxTooSmall`: even the two largest
/// entries cannot reach it.
pub proof fn lemma_target_beyond_maximum(w: Seq<(u128, usize)>, target: u128)
    requires
        w.len() >= 1,
        sorted_by_value(w),
        target as int > 2 * (w[w.len() - 1].0 as int),
    ensures
        oracle_spec(window_values(w), target) == Err::<(), FailureReason>(
            FailureReason::MaxTooSmall,
        ),
{
    let vals = window_values(w);
    assert forall|i: int| 0 <= i < vals.len() implies 2 * (#[trigger] vals[i] as int)
        < target as int by {
        assert(w[i].0 <= w[w.len() - 1].0);
    }
}

/// A target below twice the window's minimum — the first entry of the
/// sorted window — is reported as `MinTooBig`: even the two smallest
/// entries overshoot it. (The maximum bound cannot fire first: a minimum
/// that overshoots rules it out.)
pub proof fn lemma_target_below_minimum(w: Seq<(u128, usize)>, target: u128)
    requires
        w.len() >= 1,
        sorted_by_value(w),
        (target as int) < 2 * (w[0].0 as int),
    ensures
        oracle_spec(window_values(w), target) == Err::<(), FailureReason>(FailureReason::MinTooBig),
{
    let vals = window_values(w);
    assert(vals[0] == w[0].0);
    assert forall|i: int| 0 <= i < vals.len() implies 2 * (#[trigger] vals[i] as int)
        > target as int by {
        assert(w[0].0 <= w[i].0);
    }
}

/// The check's outcome is a function of the sequence and the period alone:
/// two runs over the same input report the same result, and in particular
/// the same first failing index. There is no hidden state.
pub proof fn lemma_detection_deterministic(
    seq: Seq<u128>,
    period: int,
    r1: Result<(), FailureReason>,
    r2: Result<(), FailureReason>,
)
    requires
        r1 == collapse_spec(seq, period),
        r2 == collapse_spec(seq, period),
    ensures
        r1 == r2,
{
}

/// The oracle succeeds exactly when a pair reaches the target: whenever one
/// of the two bound verdicts fires, no pair could have reached the target
/// anyway, so the bounds are a sound short-circuit.
pub proof fn lemma_oracle_ok_iff_pair(vals: Seq<u128>, target: u128)
    ensures
        (oracle_spec(vals, target) is Ok) <==> has_pair(vals, target),
{
    if has_pair(vals, target) {
        let (i, j) = choose|i: int, j: int|
            0 <= i < vals.len() && 0 <= j < vals.len() && i != j && (#[trigger] vals[i]) as int
                + (#[trigger] vals[j]) as int == target as int;
        assert(!max_too_small(vals, target)) by {
            if max_too_small(vals, target) {
                assert(2 * (vals[i] as int) < target as int);
                assert(2 * (vals[j] as int) < target as int);
            }
        }
        assert(!min_too_big(vals, target)) by {
            if min_too_big(vals, target) {
                assert(2 * (vals[i] as int) > target as int);
                assert(2 * (vals[j] as int) > target as int);
            }
        }
    }
}

proof fn lemma_scan_ok_iff_pairs(seq: Seq<u128>, period: int, c: int)
    requires
        period >= 0,
        c >= period,
    ensures
        (scan_from(seq, period, c) is Ok) <==> (forall|b: int|
            c <= b < seq.len() ==> has_pair(#[trigger] window_at(seq, period, b), seq[b])),
    decreases seq.len() - c,
{
    if c >= seq.len() {
    } else {
        lemma_oracle_ok_iff_pair(window_at(seq, period, c), seq[c]);
        lemma_scan_ok_iff_pairs(seq, period, c + 1);
    }
}

/// What safety means: the check succeeds exactly when every element past
/// the initial window is the sum of two distinct entries of the `period`
/// values immediately preceding it.
pub proof fn lemma_safe_iff_pairs_reachable(seq: Seq<u128>, period: int)
    requires
        period >= 0,
    ensures
        (collapse_spec(seq, period) is Ok) <==> (forall|c: int|
            period <= c < seq.len() ==> has_pair(#[trigger] window_at(seq, period, c), seq[c])),
{
    if seq.len() > period {
        lemma_scan_ok_iff_pairs(seq, period, period);
    }
}

proof fn lemma_scan_first_failure(seq: Seq<u128>, period: int, c: int)
    ensures
        (scan_from(seq, period, c) is Ok) <==> (first_failure_from(seq, period, c) is None),
        first_failure_from(seq, period, c) matches Some(f) ==> c <= f < seq.len() && step_spec(
            seq,
            period,
            f,
        ) is Err && scan_from(seq, period, c) == step_spec(seq, period, f) && (forall|b: int|
            c <= b < f ==> step_spec(seq, period, b) is Ok),
    decreases seq.len() - c,
{
    if c < 0 || c >= seq.len() {
    } else {
        lemma_scan_first_failure(seq, period, c + 1);
    }
}

/// A failing check pins down a unique first failing index: the step there
/// fails, every earlier step passes, and the reported reason is that
/// step's; a passing check has no failing index at all.
pub proof fn lemma_first_failure_characterized(seq: Seq<u128>, period: int)
    ensures
        (collapse_spec(seq, period) is Ok) <==> (first_failure_index(seq, period) is None),
        first_failure_index(seq, period) matches Some(f) ==> period <= f < seq.len() && step_spec(
            seq,
            period,
            f,
        ) is Err && collapse_spec(seq, period) == step_spec(seq, period, f) && (forall|b: int|
            period <= b < f ==> step_spec(seq, period, b) is Ok),
{
    if seq.len() > period {
        lemma_scan_first_failure(seq, period, period);
    }
}

} // verus!
