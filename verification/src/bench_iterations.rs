//! Alternative scan strategies for the collapse check.
//!
//! Each function here decides exactly what [`crate::collapse_check`] decides
//! — same first failing element, same reason — but organises the work
//! differently: rebuilding the window each step instead of maintaining it,
//! scanning linearly instead of binary-searching, re-checking the range
//! bounds inside the scan, or narrowing the search range as the scan
//! advances. They are kept as swappable implementations of the one contract,
//! convenient for timing against each other.

use vstd::prelude::*;

use crate::FailureReason;
use crate::binary_search_from;
use crate::collapse_spec;
use crate::has_pair;
use crate::max_too_small;
use crate::min_too_big;
use crate::oracle_spec;
use crate::pair_at;
use crate::pair_exists;
use crate::scan_from;
use crate::sorted_by_value;
use crate::window;
use crate::window_values;

verus! {

/// The two range-bound verdicts of the oracle, checked in the oracle's
/// order: the maximum first, then the minimum. `None` means neither bound
/// rules the target out.
fn check_bounds(values: &Vec<(u128, usize)>, target: u128) -> (r: Option<FailureReason>)
    requires
        values@.len() >= 1,
        sorted_by_value(values@),
    ensures
        r == (if max_too_small(window_values(values@), target) {
            Some(FailureReason::MaxTooSmall)
        } else if min_too_big(window_values(values@), target) {
            Some(FailureReason::MinTooBig)
        } else {
            None::<FailureReason>
        }),
{
    let ghost vals = window_values(values@);
    let n = values.len();
    let min = values[0].0;
    let max = values[n - 1].0;
    let half = u128::MAX / 2;

    let too_small = max <= half && 2 * max < target;
    proof {
        if max > half {
            assert(2 * (max as int) > u128::MAX as int);
        }
        assert(too_small == max_too_small(vals, target)) by {
            if 2 * (max as int) < target as int {
                assert forall|i: int| 0 <= i < vals.len() implies 2 * (#[trigger] vals[i] as int)
                    < target as int by {
                    assert(values@[i].0 <= values@[n - 1].0);
                }
            } else {
                assert(vals[n - 1] == values@[n - 1].0);
            }
        }
    }
    if too_small {
        return Some(FailureReason::MaxTooSmall);
    }

    let too_big = min > half || 2 * min > target;
    proof {
        if min > half {
            assert(2 * (min as int) > u128::MAX as int);
        }
        assert(too_big == min_too_big(vals, target)) by {
            if 2 * (min as int) > target as int {
                assert forall|i: int| 0 <= i < vals.len() implies 2 * (#[trigger] vals[i] as int)
                    > target as int by {
                    assert(values@[0].0 <= values@[i].0);
                }
            } else {
                assert(vals[0] == values@[0].0);
            }
        }
    }
    if too_big {
        return Some(FailureReason::MinTooBig);
    }
    None
}

/// Linear lookup of a value, skipping one position: the plain alternative
/// to binary search, needing no order on the entries.
fn find_complement_linear(values: &Vec<(u128, usize)>, x: u128, except: usize) -> (r: Option<
    usize,
>)
    ensures
        match r {
            Some(l) => l < values@.len() && l != except && values@[l as int].0 == x,
            None => forall|m: int|
                0 <= m < values@.len() && m != except as int ==> (#[trigger] values@[m]).0 != x,
        },
{
    let mut l: usize = 0;
    while l < values.len()
        invariant
            l <= values@.len(),
            forall|m: int|
                0 <= m < l && m != except as int ==> (#[trigger] values@[m]).0 != x,
        decreases values@.len() - l,
    {
        if l != except && values[l].0 == x {
            return Some(l);
        }
        l += 1;
    }
    None
}

/// The exhaustive part of the oracle on its own, with no bound checks in
/// front: succeeds exactly when two distinct entries sum to the target,
/// and otherwise reports that no pair was found — never a bound verdict.
/// Needs no order on the entries, since it looks complements up linearly.
fn pair_exists_no_short_circuit(values: &Vec<(u128, usize)>, target: u128) -> (r: Result<
    (),
    FailureReason,
>)
    ensures
        r == (if has_pair(window_values(values@), target) {
            Ok::<(), FailureReason>(())
        } else {
            Err(FailureReason::NoPairFound)
        }),
{
    let ghost vals = window_values(values@);
    let n = values.len();
    let mut k: usize = 0;
    while k < n
        invariant
            k <= n,
            n == values@.len(),
            vals == window_values(values@),
            forall|i: int| 0 <= i < k ==> !(#[trigger] pair_at(vals, target, i)),
        decreases n - k,
    {
        let v = values[k].0;
        if v <= target {
            let complement = target - v;
            match find_complement_linear(values, complement, k) {
                Some(l) => {
                    proof {
                        assert(vals[k as int] as int + vals[l as int] as int == target as int);
                    }
                    return Ok(());
                },
                None => {
                    proof {
                        assert forall|j: int|
                            0 <= j < vals.len() && j != k as int && vals[k as int] as int
                                + vals[j] as int == target as int implies false by {
                            assert(values@[j].0 == complement);
                        }
                        assert(!pair_at(vals, target, k as int));
                    }
                },
            }
        } else {
            proof {
                assert(!pair_at(vals, target, k as int));
            }
        }
        k += 1;
    }
    proof {
        assert(!has_pair(vals, target)) by {
            if has_pair(vals, target) {
                let (i, j) = choose|i: int, j: int|
                    0 <= i < vals.len() && 0 <= j < vals.len() && i != j && (#[trigger] vals[i])
                        as int + (#[trigger] vals[j]) as int == target as int;
                assert(pair_at(vals, target, i));
            }
        }
    }
    Err(FailureReason::NoPairFound)
}

/// The full oracle with a linear complement lookup in place of the binary
/// search: bounds first, once, then the per-element scan.
fn pair_exists_references(values: &Vec<(u128, usize)>, target: u128) -> (r: Result<
    (),
    FailureReason,
>)
    requires
        values@.len() >= 1,
        sorted_by_value(values@),
    ensures
        r == oracle_spec(window_values(values@), target),
{
    match check_bounds(values, target) {
        Some(reason) => Err(reason),
        None => pair_exists_no_short_circuit(values, target),
    }
}

/// The oracle with the bound checks folded into the scan: both bounds are
/// re-tested on every iteration rather than once up front. The bounds do
/// not change while the scan runs, so the verdict is the same as checking
/// them once — a triggered bound returns on the very first iteration.
fn pair_exists_references_with_short_circuit(values: &Vec<(u128, usize)>, target: u128) -> (r:
    Result<(), FailureReason>)
    requires
        values@.len() >= 1,
        sorted_by_value(values@),
    ensures
        r == oracle_spec(window_values(values@), target),
{
    let ghost vals = window_values(values@);
    let n = values.len();
    let mut k: usize = 0;
    while k < n
        invariant
            k <= n,
            n == values@.len(),
            values@.len() >= 1,
            vals == window_values(values@),
            sorted_by_value(values@),
            k > 0 ==> !max_too_small(vals, target) && !min_too_big(vals, target),
            forall|i: int| 0 <= i < k ==> !(#[trigger] pair_at(vals, target, i)),
        decreases n - k,
    {
        match check_bounds(values, target) {
            Some(reason) => {
                return Err(reason);
            },
            None => {},
        }
        let v = values[k].0;
        if v <= target {
            let complement = target - v;
            if complement == v {
                if (k > 0 && values[k - 1].0 == v) || (k + 1 < n && values[k + 1].0 == v) {
                    proof {
                        if k > 0 && values@[k as int - 1].0 == v {
                            assert(vals[k as int - 1] as int + vals[k as int] as int
                                == target as int);
                        } else {
                            assert(vals[k as int + 1] as int + vals[k as int] as int
                                == target as int);
                        }
                    }
                    return Ok(());
                }
                proof {
                    assert forall|j: int|
                        0 <= j < vals.len() && j != k as int implies vals[j] != v by {
                        if j < k as int {
                            assert(values@[j].0 <= values@[k as int - 1].0);
                        } else {
                            assert(values@[k as int + 1].0 <= values@[j].0);
                        }
                    }
                    assert(!pair_at(vals, target, k as int));
                }
            } else {
                match binary_search_from(values, 0, complement) {
                    Some(l) => {
                        proof {
                            assert(vals[l as int] == complement);
                            assert(vals[k as int] as int + vals[l as int] as int == target as int);
                        }
                        return Ok(());
                    },
                    None => {
                        proof {
                            assert forall|j: int|
                                0 <= j < vals.len() && j != k as int && vals[k as int] as int
                                    + vals[j] as int == target as int implies false by {
                                assert(values@[j].0 == complement);
                            }
                            assert(!pair_at(vals, target, k as int));
                        }
                    },
                }
            }
        } else {
            proof {
                assert(!pair_at(vals, target, k as int));
            }
        }
        k += 1;
    }
    proof {
        assert(!has_pair(vals, target)) by {
            if has_pair(vals, target) {
                let (i, j) = choose|i: int, j: int|
                    0 <= i < vals.len() && 0 <= j < vals.len() && i != j && (#[trigger] vals[i])
                        as int + (#[trigger] vals[j]) as int == target as int;
                assert(pair_at(vals, target, i));
            }
        }
    }
    Err(FailureReason::NoPairFound)
}

/// The oracle with a shrinking search range: once the scan has passed
/// position `k`, any pair it could still find has both halves at or beyond
/// `k`, so the complement lookup binary-searches only the tail `[k..]`.
/// A complement equal to the entry itself is sought as an adjacent
/// duplicate on the right, for the same reason.
fn pair_exists_narrowing(values: &Vec<(u128, usize)>, target: u128) -> (r: Result<
    (),
    FailureReason,
>)
    requires
        values@.len() >= 1,
        sorted_by_value(values@),
    ensures
        r == oracle_spec(window_values(values@), target),
{
    let ghost vals = window_values(values@);
    match check_bounds(values, target) {
        Some(reason) => {
            return Err(reason);
        },
        None => {},
    }
    let n = values.len();
    let mut k: usize = 0;
    while k < n
        invariant
            k <= n,
            n == values@.len(),
            vals == window_values(values@),
            sorted_by_value(values@),
            !max_too_small(vals, target),
            !min_too_big(vals, target),
            forall|i: int| 0 <= i < k ==> !(#[trigger] pair_at(vals, target, i)),
        decreases n - k,
    {
        let v = values[k].0;
        if v <= target {
            let complement = target - v;
            if complement == v {
                if k + 1 < n && values[k + 1].0 == v {
                    proof {
                        assert(vals[k as int + 1] as int + vals[k as int] as int == target as int);
                    }
                    return Ok(());
                }
                proof {
                    assert(!pair_at(vals, target, k as int)) by {
                        if pair_at(vals, target, k as int) {
                            let j = choose|j: int|
                                0 <= j < vals.len() && j != k as int && vals[k as int] as int
                                    + (#[trigger] vals[j]) as int == target as int;
                            if j < k as int {
                                // A pair reaching back before `k` would have
                                // been found when the scan stood there.
                                assert(vals[j] as int + vals[k as int] as int == target as int);
                                assert(pair_at(vals, target, j));
                            } else {
                                // Equal values sit together in the sorted
                                // order, and the right neighbour differs.
                                assert(values@[k as int + 1].0 <= values@[j].0);
                            }
                        }
                    }
                }
            } else {
                match binary_search_from(values, k, complement) {
                    Some(l) => {
                        proof {
                            assert(vals[l as int] == complement);
                            assert(vals[k as int] as int + vals[l as int] as int == target as int);
                        }
                        return Ok(());
                    },
                    None => {
                        proof {
                            assert(!pair_at(vals, target, k as int)) by {
                                if pair_at(vals, target, k as int) {
                                    let j = choose|j: int|
                                        0 <= j < vals.len() && j != k as int && vals[k as int]
                                            as int + (#[trigger] vals[j]) as int == target as int;
                                    if j < k as int {
                                        assert(vals[j] as int + vals[k as int] as int
                                            == target as int);
                                        assert(pair_at(vals, target, j));
                                    } else {
                                        assert(values@[j].0 == complement);
                                    }
                                }
                            }
                        }
                    },
                }
            }
        } else {
            proof {
                assert(!pair_at(vals, target, k as int));
            }
        }
        k += 1;
    }
    proof {
        assert(!has_pair(vals, target)) by {
            if has_pair(vals, target) {
                let (i, j) = choose|i: int, j: int|
                    0 <= i < vals.len() && 0 <= j < vals.len() && i != j && (#[trigger] vals[i])
                        as int + (#[trigger] vals[j]) as int == target as int;
                assert(pair_at(vals, target, i));
            }
        }
    }
    Err(FailureReason::NoPairFound)
}

/// The collapse check without a maintained window: every scan step
/// allocates a fresh window over the `period` values before the current
/// element and sorts it from scratch. The slow, correctness-first baseline
/// the sliding window improves on.
pub fn collapse_check_alloc_and_sort_on_each_loop(vector: &mut Vec<u128>, period: usize) -> (r:
    Result<(), FailureReason>)
    requires
        period >= 1,
    ensures
        final(vector)@ == old(vector)@,
        r == collapse_spec(old(vector)@, period as int),
{
    if vector.len() <= period {
        return Ok(());
    }
    let ghost seqv = vector@;
    let mut c: usize = period;
    while c < vector.len()
        invariant
            1 <= period <= c <= seqv.len(),
            vector@ == seqv,
            seqv.len() > period,
            scan_from(seqv, period as int, period as int) == scan_from(
                seqv,
                period as int,
                c as int,
            ),
        decreases seqv.len() - c,
    {
        let mut values: Vec<(u128, usize)> = Vec::new();
        let mut x: usize = 0;
        while x < period
            invariant
                x <= period,
                period <= c < seqv.len(),
                vector@ == seqv,
                values@.len() == x,
                forall|k: int|
                    0 <= k < x ==> #[trigger] values@[k] == (seqv[c - period + k], k as usize),
            decreases period - x,
        {
            values.push((vector[c - period + x], x));
            x += 1;
        }
        proof {
            assert forall|s: int| 0 <= s < period as int implies #[trigger] window::has_slot(
                values@,
                s,
            ) by {
                assert(values@[s] == (seqv[c - period + s], s as usize));
            }
            assert(window::wf_window(values@, seqv, period as int, c as int));
        }
        let ghost unsorted = values@;
        window::sort_window(&mut values);
        proof {
            window::lemma_wf_window_transfer(unsorted, values@, seqv, period as int, c as int);
        }
        let target = vector[c];
        let r = pair_exists(&values, target);
        proof {
            window::lemma_window_oracle(values@, seqv, period as int, c as int, target);
        }
        if let Err(reason) = r {
            return Err(reason);
        }
        c += 1;
    }
    Ok(())
}

/// The sliding-window collapse check driven by the linear-lookup oracle
/// [`pair_exists_references`] instead of the binary-searching one.
pub fn collapse_check_are_references_better(vector: &mut Vec<u128>, period: usize) -> (r: Result<
    (),
    FailureReason,
>)
    requires
        period >= 1,
    ensures
        final(vector)@ == old(vector)@,
        r == collapse_spec(old(vector)@, period as int),
{
    if vector.len() <= period {
        return Ok(());
    }
    let ghost seqv = vector@;
    let mut values = window::init_window(vector, period);
    let mut c: usize = period;
    while c < vector.len()
        invariant
            1 <= period <= c <= seqv.len(),
            vector@ == seqv,
            seqv.len() > period,
            window::wf_window(values@, seqv, period as int, c as int),
            sorted_by_value(values@),
            scan_from(seqv, period as int, period as int) == scan_from(
                seqv,
                period as int,
                c as int,
            ),
        decreases seqv.len() - c,
    {
        let target = vector[c];
        let r = pair_exists_references(&values, target);
        proof {
            window::lemma_window_oracle(values@, seqv, period as int, c as int, target);
        }
        if let Err(reason) = r {
            return Err(reason);
        }
        let ghost before = values@;
        window::advance_window(&mut values, target, period);
        proof {
            window::lemma_slide_wf(before, seqv, period, c as int);
            window::lemma_wf_window_transfer(
                before.map_values(|e: (u128, usize)| window::slide_entry(e, target, period)),
                values@,
                seqv,
                period as int,
                c as int + 1,
            );
        }
        c += 1;
    }
    Ok(())
}

/// The sliding-window collapse check driven by the oracle that re-tests
/// the range bounds on every scan iteration,
/// [`pair_exists_references_with_short_circuit`].
pub fn collapse_check_with_more_short_circuiting(vector: &mut Vec<u128>, period: usize) -> (r:
    Result<(), FailureReason>)
    requires
        period >= 1,
    ensures
        final(vector)@ == old(vector)@,
        r == collapse_spec(old(vector)@, period as int),
{
    if vector.len() <= period {
        return Ok(());
    }
    let ghost seqv = vector@;
    let mut values = window::init_window(vector, period);
    let mut c: usize = period;
    while c < vector.len()
        invariant
            1 <= period <= c <= seqv.len(),
            vector@ == seqv,
            seqv.len() > period,
            window::wf_window(values@, seqv, period as int, c as int),
            sorted_by_value(values@),
            scan_from(seqv, period as int, period as int) == scan_from(
                seqv,
                period as int,
                c as int,
            ),
        decreases seqv.len() - c,
    {
        let target = vector[c];
        let r = pair_exists_references_with_short_circuit(&values, target);
        proof {
            window::lemma_window_oracle(values@, seqv, period as int, c as int, target);
        }
        if let Err(reason) = r {
            return Err(reason);
        }
        let ghost before = values@;
        window::advance_window(&mut values, target, period);
        proof {
            window::lemma_slide_wf(before, seqv, period, c as int);
            window::lemma_wf_window_transfer(
                before.map_values(|e: (u128, usize)| window::slide_entry(e, target, period)),
                values@,
                seqv,
                period as int,
                c as int + 1,
            );
        }
        c += 1;
    }
    Ok(())
}

/// The sliding-window collapse check whose scan does no short-circuiting
/// of its own: the two bound verdicts the contract owes are established
/// once before each scan, and the scan itself is the plain exhaustive
/// [`pair_exists_no_short_circuit`].
pub fn collapse_check_no_short_ciruit(vector: &mut Vec<u128>, period: usize) -> (r: Result<
    (),
    FailureReason,
>)
    requires
        period >= 1,
    ensures
        final(vector)@ == old(vector)@,
        r == collapse_spec(old(vector)@, period as int),
{
    if vector.len() <= period {
        return Ok(());
    }
    let ghost seqv = vector@;
    let mut values = window::init_window(vector, period);
    let mut c: usize = period;
    while c < vector.len()
        invariant
            1 <= period <= c <= seqv.len(),
            vector@ == seqv,
            seqv.len() > period,
            window::wf_window(values@, seqv, period as int, c as int),
            sorted_by_value(values@),
            scan_from(seqv, period as int, period as int) == scan_from(
                seqv,
                period as int,
                c as int,
            ),
        decreases seqv.len() - c,
    {
        let target = vector[c];
        let r = match check_bounds(&values, target) {
            Some(reason) => Err(reason),
            None => pair_exists_no_short_circuit(&values, target),
        };
        proof {
            window::lemma_window_oracle(values@, seqv, period as int, c as int, target);
        }
        if let Err(reason) = r {
            return Err(reason);
        }
        let ghost before = values@;
        window::advance_window(&mut values, target, period);
        proof {
            window::lemma_slide_wf(before, seqv, period, c as int);
            window::lemma_wf_window_transfer(
                before.map_values(|e: (u128, usize)| window::slide_entry(e, target, period)),
                values@,
                seqv,
                period as int,
                c as int + 1,
            );
        }
        c += 1;
    }
    Ok(())
}

/// The sliding-window collapse check driven by the narrowing-range oracle
/// [`pair_exists_narrowing`].
pub fn collapse_check_narrowing_search(vector: &mut Vec<u128>, period: usize) -> (r: Result<
    (),
    FailureReason,
>)
    requires
        period >= 1,
    ensures
        final(vector)@ == old(vector)@,
        r == collapse_spec(old(vector)@, period as int),
{
    if vector.len() <= period {
        return Ok(());
    }
    let ghost seqv = vector@;
    let mut values = window::init_window(vector, period);
    let mut c: usize = period;
    while c < vector.len()
        invariant
            1 <= period <= c <= seqv.len(),
            vector@ == seqv,
            seqv.len() > period,
            window::wf_window(values@, seqv, period as int, c as int),
            sorted_by_value(values@),
            scan_from(seqv, period as int, period as int) == scan_from(
                seqv,
                period as int,
                c as int,
            ),
        decreases seqv.len() - c,
    {
        let target = vector[c];
        let r = pair_exists_narrowing(&values, target);
        proof {
            window::lemma_window_oracle(values@, seqv, period as int, c as int, target);
        }
        if let Err(reason) = r {
            return Err(reason);
        }
        let ghost before = values@;
        window::advance_window(&mut values, target, period);
        proof {
            window::lemma_slide_wf(before, seqv, period, c as int);
            window::lemma_wf_window_transfer(
                before.map_values(|e: (u128, usize)| window::slide_entry(e, target, period)),
                values@,
                seqv,
                period as int,
                c as int + 1,
            );
        }
        c += 1;
    }
    Ok(())
}

} // verus!
