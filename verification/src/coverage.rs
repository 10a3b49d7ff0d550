//! Counting the windows that accept a rank, and finding the rank that the
//! most windows accept.

use crate::window::covers;
use vstd::prelude::*;

verus! {

/// Every window's lowest rank is at most its highest rank.
pub open spec fn ordered(ws: Seq<(usize, usize)>) -> bool {
    forall|i: int| 0 <= i < ws.len() ==> (#[trigger] ws[i]).0 <= ws[i].1
}

/// `lo` is the lowest rank that any window accepts and `hi` the highest.
pub open spec fn is_bounds(ws: Seq<(usize, usize)>, lo: usize, hi: usize) -> bool {
    &&& exists|i: int| 0 <= i < ws.len() && (#[trigger] ws[i]).0 == lo
    &&& exists|i: int| 0 <= i < ws.len() && (#[trigger] ws[i]).1 == hi
    &&& forall|i: int| 0 <= i < ws.len() ==> lo <= (#[trigger] ws[i]).0
    &&& forall|i: int| 0 <= i < ws.len() ==> (#[trigger] ws[i]).1 <= hi
}

/// The number of windows in `ws` that accept the rank `r`.
pub open spec fn coverage(ws: Seq<(usize, usize)>, r: int) -> nat
    decreases ws.len(),
{
    if ws.len() == 0 {
        0
    } else {
        coverage(ws.drop_last(), r) + if covers(ws.last(), r) { 1nat } else { 0nat }
    }
}

/// `r` is the lowest of the ranks that the greatest number of windows accept.
pub open spec fn is_best_rank(ws: Seq<(usize, usize)>, r: int) -> bool {
    &&& 0 <= r
    &&& forall|q: int| 0 <= q ==> #[trigger] coverage(ws, q) <= coverage(ws, r)
    &&& forall|q: int| 0 <= q < r ==> #[trigger] coverage(ws, q) < coverage(ws, r)
}

/// The number of windows that open at rank `r` less the number of windows
/// that closed just below it.
spec fn delta(ws: Seq<(usize, usize)>, r: int) -> int
    decreases ws.len(),
{
    if ws.len() == 0 {
        0
    } else {
        delta(ws.drop_last(), r) + (if ws.last().0 == r { 1int } else { 0int }) - (if ws.last().1
            + 1 == r { 1int } else { 0int })
    }
}

/// Neither count exceeds the number of windows.
proof fn lemma_counts_bounded(ws: Seq<(usize, usize)>, r: int)
    ensures
        coverage(ws, r) <= ws.len(),
        -ws.len() <= delta(ws, r) <= ws.len(),
    decreases ws.len(),
{
    if ws.len() > 0 {
        lemma_counts_bounded(ws.drop_last(), r);
    }
}

/// Moving one rank up changes the coverage by the windows that open there
/// less those that closed.
proof fn lemma_coverage_step(ws: Seq<(usize, usize)>, r: int)
    requires
        ordered(ws),
    ensures
        coverage(ws, r + 1) == coverage(ws, r) + delta(ws, r + 1),
    decreases ws.len(),
{
    if ws.len() > 0 {
        lemma_coverage_step(ws.drop_last(), r);
        assert(ws.last() == ws[ws.len() - 1]);
    }
}

/// At a rank that no window starts below, the windows covering it are those
/// that open there.
proof fn lemma_coverage_base(ws: Seq<(usize, usize)>, lo: int)
    requires
        ordered(ws),
        forall|i: int| 0 <= i < ws.len() ==> lo <= (#[trigger] ws[i]).0,
    ensures
        coverage(ws, lo) == delta(ws, lo),
    decreases ws.len(),
{
    if ws.len() > 0 {
        lemma_coverage_base(ws.drop_last(), lo);
        assert(ws.last() == ws[ws.len() - 1]);
    }
}

/// A rank outside every window is covered by none.
pub proof fn lemma_coverage_outside(ws: Seq<(usize, usize)>, r: int)
    requires
        forall|i: int| 0 <= i < ws.len() ==> !covers(#[trigger] ws[i], r),
    ensures
        coverage(ws, r) == 0,
    decreases ws.len(),
{
    if ws.len() > 0 {
        lemma_coverage_outside(ws.drop_last(), r);
        assert(ws.last() == ws[ws.len() - 1]);
    }
}

/// A rank inside some window is covered at least once.
pub proof fn lemma_coverage_inside(ws: Seq<(usize, usize)>, i: int, r: int)
    requires
        0 <= i < ws.len(),
        covers(ws[i], r),
    ensures
        coverage(ws, r) >= 1,
    decreases ws.len(),
{
    if i < ws.len() - 1 {
        lemma_coverage_inside(ws.drop_last(), i, r);
    }
}

/// At most one rank is the best one.
pub proof fn lemma_best_rank_unique(ws: Seq<(usize, usize)>, r1: int, r2: int)
    requires
        is_best_rank(ws, r1),
        is_best_rank(ws, r2),
    ensures
        r1 == r2,
{
    if r1 < r2 {
        assert(coverage(ws, r1) < coverage(ws, r2));
        assert(coverage(ws, r2) <= coverage(ws, r1));
    } else if r2 < r1 {
        assert(coverage(ws, r2) < coverage(ws, r1));
        assert(coverage(ws, r1) <= coverage(ws, r2));
    }
}

/// The lowest and the highest rank that any window accepts, or `None` when
/// there is no window.
pub fn rank_bounds(ws: &Vec<(usize, usize)>) -> (bounds: Option<(usize, usize)>)
    ensures
        bounds is None <==> ws@.len() == 0,
        bounds matches Some((lo, hi)) ==> is_bounds(ws@, lo, hi),
{
    if ws.len() == 0 {
        return None;
    }
    let mut lo: usize = ws[0].0;
    let mut hi: usize = ws[0].1;
    let ghost mut at_lo: int = 0;
    let ghost mut at_hi: int = 0;
    let mut t: usize = 1;
    while t < ws.len()
        invariant
            1 <= t <= ws.len(),
            0 <= at_lo < t,
            0 <= at_hi < t,
            ws@[at_lo].0 == lo,
            ws@[at_hi].1 == hi,
            forall|i: int| 0 <= i < t ==> lo <= (#[trigger] ws@[i]).0,
            forall|i: int| 0 <= i < t ==> (#[trigger] ws@[i]).1 <= hi,
        decreases ws.len() - t,
    {
        let w = ws[t];
        if w.0 < lo {
            lo = w.0;
            proof {
                at_lo = t as int;
            }
        }
        if w.1 > hi {
            hi = w.1;
            proof {
                at_hi = t as int;
            }
        }
        t += 1;
    }
    Some((lo, hi))
}

/// The best rank of a non-empty list of windows whose bounds are `lo` and
/// `hi`, found by counting openings and closings per rank and summing them
/// from the lowest rank up.
pub fn best_rank_between(ws: &Vec<(usize, usize)>, lo: usize, hi: usize) -> (best: usize)
    requires
        ordered(ws@),
        is_bounds(ws@, lo, hi),
        hi - lo + 2 <= usize::MAX,
    ensures
        is_best_rank(ws@, best as int),
        lo <= best <= hi,
{
    let slots: usize = hi - lo + 2;
    // A counter holds at most the number of windows, which an `i128` holds
    // whatever that number is.
    let mut cnt: Vec<i128> = vec![0i128; slots];
    let mut t: usize = 0;
    while t < ws.len()
        invariant
            t <= ws.len(),
            ordered(ws@),
            is_bounds(ws@, lo, hi),
            slots == hi - lo + 2,
            cnt@.len() == slots,
            forall|i: int| 0 <= i < slots ==> #[trigger] cnt@[i] == delta(ws@.take(t as int), lo + i),
        decreases ws.len() - t,
    {
        let w = ws[t];
        let opens: usize = w.0 - lo;
        let closes: usize = w.1 - lo + 1;
        proof {
            lemma_counts_bounded(ws@.take(t as int), lo + opens);
            lemma_counts_bounded(ws@.take(t as int), lo + closes);
            assert(ws@.take(t + 1).drop_last() == ws@.take(t as int));
            assert(ws@.take(t + 1).last() == w);
        }
        cnt[opens] = cnt[opens] + 1;
        cnt[closes] = cnt[closes] - 1;
        t += 1;
    }
    proof {
        assert(ws@.take(t as int) == ws@);
        lemma_coverage_base(ws@, lo as int);
    }
    let mut best_count: i128 = cnt[0];
    let mut best_slot: usize = 0;
    let mut i: usize = 1;
    while i < slots
        invariant
            1 <= i <= slots,
            ordered(ws@),
            slots == hi - lo + 2,
            cnt@.len() == slots,
            best_slot < i,
            best_count == coverage(ws@, lo + best_slot),
            forall|k: int| 0 <= k < i ==> #[trigger] cnt@[k] == coverage(ws@, lo + k),
            forall|k: int| i <= k < slots ==> #[trigger] cnt@[k] == delta(ws@, lo + k),
            forall|k: int| 0 <= k < i ==> #[trigger] cnt@[k] <= best_count,
            forall|k: int| 0 <= k < best_slot ==> #[trigger] cnt@[k] < best_count,
        decreases slots - i,
    {
        proof {
            lemma_coverage_step(ws@, lo + i - 1);
            lemma_counts_bounded(ws@, lo + i - 1);
            lemma_counts_bounded(ws@, lo + i);
            assert(cnt@[i - 1] == coverage(ws@, lo + (i - 1)));
            assert(cnt@[i as int] == delta(ws@, lo + i));
            assert(ws@.len() == ws.len());
        }
        cnt[i] = cnt[i] + cnt[i - 1];
        if cnt[i] > best_count {
            best_slot = i;
            best_count = cnt[i];
        }
        i += 1;
    }
    proof {
        let first = choose|k: int| 0 <= k < ws@.len() && (#[trigger] ws@[k]).0 == lo;
        lemma_coverage_inside(ws@, first, lo as int);
        assert(cnt@[0] <= best_count);
        lemma_coverage_outside(ws@, hi + 1);
        assert(cnt@[slots - 1] == 0);
        assert(best_slot != slots - 1);
        assert forall|q: int| 0 <= q implies #[trigger] coverage(ws@, q) <= coverage(
            ws@,
            lo + best_slot,
        ) by {
            if q < lo || q > hi {
                lemma_coverage_outside(ws@, q);
            } else {
                assert(cnt@[q - lo] <= best_count);
            }
        }
        assert forall|q: int| 0 <= q < lo + best_slot implies #[trigger] coverage(ws@, q)
            < coverage(ws@, lo + best_slot) by {
            if q < lo {
                lemma_coverage_outside(ws@, q);
            } else {
                assert(cnt@[q - lo] < best_count);
            }
        }
    }
    lo + best_slot
}

} // verus!
