//! The window maintainer: a fixed set of `period` `(value, slot)` pairs
//! standing for the values immediately preceding the current scan position.
//!
//! The `slot` of an entry is its recency rank: `0` is the logically oldest
//! value, `period - 1` the newest. Advancing the window decrements every
//! nonzero slot and overwrites the unique zero-slot entry with the incoming
//! value, so the oldest value is evicted and the newest inserted without
//! changing the window's length; the entries are then re-sorted by value so
//! the pair-sum search can rely on the order.

use vstd::prelude::*;
use vstd::seq_lib::group_to_multiset_ensures;

use crate::has_pair;
use crate::max_too_small;
use crate::min_too_big;
use crate::oracle_spec;
use crate::sorted_by_value;
use crate::window_at;
use crate::window_values;

verus! {

/// Every slot is below `period`.
pub open spec fn slots_bounded(w: Seq<(u128, usize)>, period: int) -> bool {
    forall|k: int| 0 <= k < w.len() ==> (#[trigger] w[k]).1 < period
}

/// Some entry carries slot `s`.
pub open spec fn has_slot(w: Seq<(u128, usize)>, s: int) -> bool {
    exists|k: int| 0 <= k < w.len() && (#[trigger] w[k]).1 == s
}

/// Every slot below `period` is carried by some entry.
pub open spec fn slots_complete(w: Seq<(u128, usize)>, period: int) -> bool {
    forall|s: int| 0 <= s < period ==> #[trigger] has_slot(w, s)
}

/// No two entries carry the same slot.
pub open spec fn slots_unique(w: Seq<(u128, usize)>) -> bool {
    forall|k: int, l: int|
        0 <= k < l < w.len() ==> (#[trigger] w[k]).1 != (#[trigger] w[l]).1
}

/// The slot structure of a well-formed window: exactly `period` entries,
/// one for each slot in `0..period`.
pub open spec fn wf_slots(w: Seq<(u128, usize)>, period: int) -> bool {
    &&& w.len() == period
    &&& slots_bounded(w, period)
    &&& slots_unique(w)
    &&& slots_complete(w, period)
}

/// The window is faithful to the sequence at scan position `c`: the entry
/// with slot `s` holds `seq[c - period + s]`, and the slots are exactly
/// `0..period`, one entry each.
pub open spec fn wf_window(w: Seq<(u128, usize)>, seq: Seq<u128>, period: int, c: int) -> bool {
    &&& 1 <= period <= c <= seq.len()
    &&& wf_slots(w, period)
    &&& forall|k: int|
        0 <= k < w.len() ==> (#[trigger] w[k]).0 == seq[c - period + w[k].1]
}

/// One entry's part in an advance: the zero-slot entry is overwritten with
/// the incoming value at the newest slot, every other entry's slot drops
/// by one.
pub open spec fn slide_entry(e: (u128, usize), incoming: u128, period: usize) -> (u128, usize) {
    if e.1 == 0 {
        (incoming, (period - 1) as usize)
    } else {
        (e.0, (e.1 - 1) as usize)
    }
}

/// A well-formed window holds no entry twice: distinct entries carry
/// distinct slots.
proof fn lemma_wf_no_duplicates(w: Seq<(u128, usize)>, period: int)
    requires
        slots_unique(w),
    ensures
        w.no_duplicates(),
{
    assert forall|k: int, l: int| 0 <= k < w.len() && 0 <= l < w.len() && k != l implies w[k]
        != w[l] by {
        if k < l {
            assert(w[k].1 != w[l].1);
        } else {
            assert(w[l].1 != w[k].1);
        }
    }
}

/// The slot structure survives any reordering: it is a property of the
/// multiset of entries alone.
pub proof fn lemma_slots_transfer(w1: Seq<(u128, usize)>, w2: Seq<(u128, usize)>, period: int)
    requires
        wf_slots(w1, period),
        w1.to_multiset() == w2.to_multiset(),
    ensures
        wf_slots(w2, period),
        forall|k: int| 0 <= k < w2.len() ==> w1.contains(#[trigger] w2[k]),
{
    broadcast use group_to_multiset_ensures;

    assert(w2.len() == period) by {
        assert(w1.to_multiset().len() == w1.len());
    }
    assert forall|k: int| 0 <= k < w2.len() implies w1.contains(#[trigger] w2[k]) by {
        assert(w2.contains(w2[k]));
        assert(w2.to_multiset().count(w2[k]) > 0);
        assert(w1.to_multiset().count(w2[k]) > 0);
    }
    assert(slots_bounded(w2, period));
    assert forall|s: int| 0 <= s < period implies #[trigger] has_slot(w2, s) by {
        assert(has_slot(w1, s));
        let k1 = choose|k1: int| 0 <= k1 < w1.len() && (#[trigger] w1[k1]).1 == s;
        assert(w1.contains(w1[k1]));
        assert(w1.to_multiset().count(w1[k1]) > 0);
        assert(w2.to_multiset().count(w1[k1]) > 0);
        assert(w2.contains(w1[k1]));
        let k2 = choose|k2: int| 0 <= k2 < w2.len() && w2[k2] == w1[k1];
        assert(w2[k2].1 == s);
    }
    assert(w2.no_duplicates()) by {
        lemma_wf_no_duplicates(w1, period);
        w1.lemma_multiset_has_no_duplicates();
        w2.lemma_multiset_has_no_duplicates_conv();
    }
    assert forall|k: int, l: int| 0 <= k < l < w2.len() implies (#[trigger] w2[k]).1
        != (#[trigger] w2[l]).1 by {
        if w2[k].1 == w2[l].1 {
            // Distinct entries with one slot would have to be distinct pairs,
            // yet two entries of w1 never share a slot.
            if w2[k] == w2[l] {
                assert(false);
            } else {
                let k1 = choose|k1: int| 0 <= k1 < w1.len() && w1[k1] == w2[k];
                let l1 = choose|l1: int| 0 <= l1 < w1.len() && w1[l1] == w2[l];
                assert(k1 != l1);
                if k1 < l1 {
                    assert(w1[k1].1 != w1[l1].1);
                } else {
                    assert(w1[l1].1 != w1[k1].1);
                }
            }
        }
    }
}

/// Faithfulness to the sequence also survives any reordering of the
/// window's entries.
pub proof fn lemma_wf_window_transfer(
    w1: Seq<(u128, usize)>,
    w2: Seq<(u128, usize)>,
    seq: Seq<u128>,
    period: int,
    c: int,
)
    requires
        wf_window(w1, seq, period, c),
        w1.to_multiset() == w2.to_multiset(),
    ensures
        wf_window(w2, seq, period, c),
{
    lemma_slots_transfer(w1, w2, period);
    assert forall|k: int| 0 <= k < w2.len() implies (#[trigger] w2[k]).0 == seq[c - period
        + w2[k].1] by {
        let k1 = choose|k1: int| 0 <= k1 < w1.len() && w1[k1] == w2[k];
    }
}

/// Advancing a faithful window for position `c` yields a faithful window
/// for position `c + 1`.
pub proof fn lemma_slide_wf(w: Seq<(u128, usize)>, seq: Seq<u128>, period: usize, c: int)
    requires
        wf_window(w, seq, period as int, c),
        c < seq.len(),
    ensures
        wf_window(
            w.map_values(|e: (u128, usize)| slide_entry(e, seq[c], period)),
            seq,
            period as int,
            c + 1,
        ),
{
    let w2 = w.map_values(|e: (u128, usize)| slide_entry(e, seq[c], period));
    assert(w2.len() == w.len());
    assert forall|k: int| 0 <= k < w2.len() implies (#[trigger] w2[k]).1 < period as int
        && w2[k].0 == seq[c + 1 - period + w2[k].1] by {
        assert(w2[k] == slide_entry(w[k], seq[c], period));
    }
    assert forall|k: int, l: int| 0 <= k < l < w2.len() implies (#[trigger] w2[k]).1
        != (#[trigger] w2[l]).1 by {
        assert(w2[k] == slide_entry(w[k], seq[c], period));
        assert(w2[l] == slide_entry(w[l], seq[c], period));
        assert(w[k].1 != w[l].1);
    }
    assert forall|s: int| 0 <= s < period as int implies #[trigger] has_slot(w2, s) by {
        if s == period - 1 {
            assert(has_slot(w, 0));
            let k = choose|k: int| 0 <= k < w.len() && (#[trigger] w[k]).1 == 0;
            assert(w2[k] == slide_entry(w[k], seq[c], period));
            assert(w2[k].1 == s);
        } else {
            assert(has_slot(w, s + 1));
            let k = choose|k: int| 0 <= k < w.len() && (#[trigger] w[k]).1 == s + 1;
            assert(w2[k] == slide_entry(w[k], seq[c], period));
            assert(w2[k].1 == s);
        }
    }
}

/// The pair-sum oracle cannot tell a faithful window from the stretch of
/// the sequence it stands for: same bounds verdicts, same pairs.
pub proof fn lemma_window_oracle(
    w: Seq<(u128, usize)>,
    seq: Seq<u128>,
    period: int,
    c: int,
    target: u128,
)
    requires
        wf_window(w, seq, period, c),
        c < seq.len(),
    ensures
        oracle_spec(window_values(w), target) == oracle_spec(window_at(seq, period, c), target),
{
    let vals = window_values(w);
    let sub = window_at(seq, period, c);
    assert(vals.len() == period && sub.len() == period);
    assert forall|k: int| 0 <= k < vals.len() implies #[trigger] vals[k] == sub[w[k].1 as int] by {
        assert(w[k].0 == seq[c - period + w[k].1]);
    }

    assert(max_too_small(vals, target) == max_too_small(sub, target)) by {
        if max_too_small(vals, target) {
            assert forall|s: int| 0 <= s < sub.len() implies 2 * (#[trigger] sub[s] as int)
                < target as int by {
                assert(has_slot(w, s));
                let k = choose|k: int| 0 <= k < w.len() && (#[trigger] w[k]).1 == s;
                assert(vals[k] == sub[s]);
                assert(2 * (vals[k] as int) < target as int);
            }
        }
        if max_too_small(sub, target) {
            assert forall|k: int| 0 <= k < vals.len() implies 2 * (#[trigger] vals[k] as int)
                < target as int by {
                assert(vals[k] == sub[w[k].1 as int]);
                assert(2 * (sub[w[k].1 as int] as int) < target as int);
            }
        }
    }
    assert(min_too_big(vals, target) == min_too_big(sub, target)) by {
        if min_too_big(vals, target) {
            assert forall|s: int| 0 <= s < sub.len() implies 2 * (#[trigger] sub[s] as int)
                > target as int by {
                assert(has_slot(w, s));
                let k = choose|k: int| 0 <= k < w.len() && (#[trigger] w[k]).1 == s;
                assert(vals[k] == sub[s]);
                assert(2 * (vals[k] as int) > target as int);
            }
        }
        if min_too_big(sub, target) {
            assert forall|k: int| 0 <= k < vals.len() implies 2 * (#[trigger] vals[k] as int)
                > target as int by {
                assert(vals[k] == sub[w[k].1 as int]);
                assert(2 * (sub[w[k].1 as int] as int) > target as int);
            }
        }
    }
    assert(has_pair(vals, target) == has_pair(sub, target)) by {
        if has_pair(vals, target) {
            let (k, l) = choose|k: int, l: int|
                0 <= k < vals.len() && 0 <= l < vals.len() && k != l && (#[trigger] vals[k]) as int
                    + (#[trigger] vals[l]) as int == target as int;
            assert(w[k].1 != w[l].1) by {
                if k < l {
                    assert(w[k].1 != w[l].1);
                } else {
                    assert(w[l].1 != w[k].1);
                }
            }
            assert(sub[w[k].1 as int] as int + sub[w[l].1 as int] as int == target as int);
            assert(has_pair(sub, target));
        }
        if has_pair(sub, target) {
            let (i, j) = choose|i: int, j: int|
                0 <= i < sub.len() && 0 <= j < sub.len() && i != j && (#[trigger] sub[i]) as int
                    + (#[trigger] sub[j]) as int == target as int;
            assert(has_slot(w, i));
            assert(has_slot(w, j));
            let ki = choose|k: int| 0 <= k < w.len() && (#[trigger] w[k]).1 == i;
            let kj = choose|k: int| 0 <= k < w.len() && (#[trigger] w[k]).1 == j;
            assert(ki != kj);
            assert(vals[ki] as int + vals[kj] as int == target as int);
            assert(has_pair(vals, target));
        }
    }
}

/// The multiset of slots present in a well-formed window is exactly
/// `{0, 1, ..., period - 1}`, each slot appearing once.
pub proof fn lemma_window_slots(w: Seq<(u128, usize)>, period: int)
    requires
        wf_slots(w, period),
        period <= usize::MAX,
    ensures
        w.map_values(|e: (u128, usize)| e.1).to_multiset() == Seq::new(
            period as nat,
            |s: int| s as usize,
        ).to_multiset(),
{
    broadcast use group_to_multiset_ensures;

    let a = w.map_values(|e: (u128, usize)| e.1);
    let b = Seq::new(period as nat, |s: int| s as usize);
    assert(a.no_duplicates());
    assert(b.no_duplicates());
    assert forall|x: usize| a.contains(x) == b.contains(x) by {
        if a.contains(x) {
            let k = choose|k: int| 0 <= k < a.len() && a[k] == x;
            assert(w[k].1 == x);
            assert(b[x as int] == x);
            assert(b.contains(x));
        }
        if b.contains(x) {
            assert(x < period);
            assert(has_slot(w, x as int));
            let k = choose|k: int| 0 <= k < w.len() && (#[trigger] w[k]).1 == x as int;
            assert(a[k] == x);
            assert(a.contains(x));
        }
    }
    a.lemma_multiset_has_no_duplicates();
    b.lemma_multiset_has_no_duplicates();
    assert forall|x: usize| a.to_multiset().count(x) == b.to_multiset().count(x) by {
        if a.contains(x) {
            assert(a.to_multiset().count(x) == 1);
            assert(b.to_multiset().contains(x));
            assert(b.to_multiset().count(x) == 1);
        } else {
            assert(a.to_multiset().count(x) == 0);
            assert(b.to_multiset().count(x) == 0);
        }
    }
    assert(a.to_multiset() =~= b.to_multiset());
}

/// Builds the sorted window for the first `period` values of the sequence:
/// pair each value with its position as the slot, then order by value.
pub fn init_window(vector: &Vec<u128>, period: usize) -> (w: Vec<(u128, usize)>)
    requires
        1 <= period <= vector@.len(),
    ensures
        wf_window(w@, vector@, period as int, period as int),
        sorted_by_value(w@),
{
    let mut w: Vec<(u128, usize)> = Vec::new();
    let mut x: usize = 0;
    while x < period
        invariant
            x <= period <= vector@.len(),
            w@.len() == x,
            forall|k: int| 0 <= k < x ==> #[trigger] w@[k] == (vector@[k], k as usize),
        decreases period - x,
    {
        w.push((vector[x], x));
        x += 1;
    }
    proof {
        assert forall|s: int| 0 <= s < period as int implies #[trigger] has_slot(w@, s) by {
            assert(w@[s] == (vector@[s], s as usize));
        }
        assert(wf_window(w@, vector@, period as int, period as int));
    }
    let ghost unsorted = w@;
    sort_window(&mut w);
    proof {
        lemma_wf_window_transfer(unsorted, w@, vector@, period as int, period as int);
    }
    w
}

/// Sorts the window ascending by value, by insertion into a fresh vector.
/// The entries themselves — which values pair with which slots — are kept;
/// only their order changes.
pub(crate) fn sort_window(v: &mut Vec<(u128, usize)>)
    ensures
        sorted_by_value(final(v)@),
        final(v)@.to_multiset() == old(v)@.to_multiset(),
        final(v)@.len() == old(v)@.len(),
{
    broadcast use group_to_multiset_ensures;

    let mut out: Vec<(u128, usize)> = Vec::new();
    let mut i: usize = 0;
    while i < v.len()
        invariant
            i <= v@.len(),
            v@ == old(v)@,
            out@.len() == i,
            sorted_by_value(out@),
            out@.to_multiset() == v@.subrange(0, i as int).to_multiset(),
        decreases v@.len() - i,
    {
        let x = v[i];
        let mut j: usize = 0;
        while j < out.len() && out[j].0 <= x.0
            invariant
                j <= out@.len(),
                sorted_by_value(out@),
                forall|m: int| 0 <= m < j ==> (#[trigger] out@[m]).0 <= x.0,
            decreases out@.len() - j,
        {
            j += 1;
        }
        let ghost before = out@;
        out.insert(j, x);
        proof {
            broadcast use group_to_multiset_ensures;

            assert forall|k: int, l: int| 0 <= k <= l < out@.len() implies (#[trigger] out@[k]).0
                <= (#[trigger] out@[l]).0 by {
                if k < j as int {
                    assert(out@[k] == before[k]);
                }
                if l < j as int {
                    assert(out@[l] == before[l]);
                }
                if k > j as int {
                    assert(out@[k] == before[k - 1]);
                    assert(before[j as int].0 > x.0);
                }
                if l > j as int {
                    assert(out@[l] == before[l - 1]);
                    assert(j as int <= l - 1);
                    assert(before[j as int].0 > x.0);
                }
            }
            assert(v@.subrange(0, i as int + 1) =~= v@.subrange(0, i as int).push(v@[i as int]));
            assert(out@.to_multiset() == v@.subrange(0, i as int + 1).to_multiset());
        }
        i += 1;
    }
    proof {
        assert(v@.subrange(0, v@.len() as int) =~= v@);
    }
    *v = out;
}

/// Advances the window by one scan step: the unique zero-slot entry — the
/// logically oldest value — is overwritten in place with
/// `(incoming, period - 1)`, every other entry's slot drops by one, and the
/// entries are re-sorted ascending by value.
///
/// The last two postconditions are the maintainer's invariants: the value
/// sequence is non-decreasing after every advance, and the multiset of slots
/// present is exactly `{0, 1, ..., period - 1}`, each appearing once.
pub fn advance_window(v: &mut Vec<(u128, usize)>, incoming: u128, period: usize)
    requires
        period >= 1,
        wf_slots(old(v)@, period as int),
    ensures
        final(v)@.to_multiset() == old(v)@.map_values(
            |e: (u128, usize)| slide_entry(e, incoming, period),
        ).to_multiset(),
        wf_slots(final(v)@, period as int),
        sorted_by_value(final(v)@),
        final(v)@.map_values(|e: (u128, usize)| e.1).to_multiset() == Seq::new(
            period as nat,
            |s: int| s as usize,
        ).to_multiset(),
{
    let ghost w0 = v@;
    let ghost slid = w0.map_values(|e: (u128, usize)| slide_entry(e, incoming, period));
    let mut k: usize = 0;
    while k < v.len()
        invariant
            k <= v@.len(),
            v@.len() == w0.len(),
            slid == w0.map_values(|e: (u128, usize)| slide_entry(e, incoming, period)),
            period >= 1,
            forall|m: int| 0 <= m < k ==> v@[m] == slid[m],
            forall|m: int| k <= m < v@.len() ==> v@[m] == w0[m],
        decreases v@.len() - k,
    {
        let e = v[k];
        if e.1 != 0 {
            v.set(k, (e.0, e.1 - 1));
        } else {
            v.set(k, (incoming, period - 1));
        }
        k += 1;
    }
    proof {
        assert(v@ =~= slid);
        // The slot structure survives the slide: nonzero slots shift down by
        // one, the zero slot reappears as the newest.
        assert forall|a: int, b: int| 0 <= a < b < slid.len() implies (#[trigger] slid[a]).1
            != (#[trigger] slid[b]).1 by {
            assert(slid[a] == slide_entry(w0[a], incoming, period));
            assert(slid[b] == slide_entry(w0[b], incoming, period));
            assert(w0[a].1 != w0[b].1);
        }
        assert forall|a: int| 0 <= a < slid.len() implies (#[trigger] slid[a]).1
            < period as int by {
            assert(slid[a] == slide_entry(w0[a], incoming, period));
        }
        assert forall|s: int| 0 <= s < period as int implies #[trigger] has_slot(slid, s) by {
            if s == period - 1 {
                assert(has_slot(w0, 0));
                let a = choose|a: int| 0 <= a < w0.len() && (#[trigger] w0[a]).1 == 0;
                assert(slid[a] == slide_entry(w0[a], incoming, period));
                assert(slid[a].1 == s);
            } else {
                assert(has_slot(w0, s + 1));
                let a = choose|a: int| 0 <= a < w0.len() && (#[trigger] w0[a]).1 == s + 1;
                assert(slid[a] == slide_entry(w0[a], incoming, period));
                assert(slid[a].1 == s);
            }
        }
        assert(wf_slots(slid, period as int));
    }
    sort_window(v);
    proof {
        lemma_slots_transfer(slid, v@, period as int);
        lemma_window_slots(v@, period as int);
    }
}

} // verus!
