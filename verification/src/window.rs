//! Rank windows: closed intervals of ranks that widen by one on each side
//! per tick, stopping at the ends of the representable range.

use vstd::prelude::*;

verus! {

/// Whether the window `w` accepts the rank `r`.
pub open spec fn covers(w: (usize, usize), r: int) -> bool {
    w.0 <= r <= w.1
}

/// The window `w` after one tick.
pub open spec fn widened(w: (usize, usize)) -> (usize, usize) {
    (
        if w.0 > 0 { (w.0 - 1) as usize } else { w.0 },
        if w.1 < usize::MAX { (w.1 + 1) as usize } else { w.1 },
    )
}

/// The window `w` after `k` ticks.
pub open spec fn widened_by(w: (usize, usize), k: nat) -> (usize, usize)
    decreases k,
{
    if k == 0 {
        w
    } else {
        widened(widened_by(w, (k - 1) as nat))
    }
}

/// A tick takes no rank away from a window: what it accepted before, it
/// accepts after.
pub proof fn lemma_widened_accepts_more(w: (usize, usize), r: int)
    requires
        covers(w, r),
    ensures
        covers(widened(w), r),
{
}

/// After `k` ticks each end of a window has moved by `k` ranks, or as far
/// as ranks go.
pub proof fn lemma_widened_by(w: (usize, usize), k: nat)
    ensures
        widened_by(w, k).0 == if w.0 >= k { w.0 - k } else { 0 },
        widened_by(w, k).1 == if w.1 + k <= usize::MAX { w.1 + k } else { usize::MAX as int },
    decreases k,
{
    if k > 0 {
        lemma_widened_by(w, (k - 1) as nat);
    }
}

/// After `k` ticks a window that has reached neither end of the ranks
/// accepts `2 * k` ranks more than before.
pub proof fn lemma_width_after_ticks(w: (usize, usize), k: nat)
    requires
        k <= w.0,
        w.1 + k <= usize::MAX,
    ensures
        widened_by(w, k).1 - widened_by(w, k).0 == w.1 - w.0 + 2 * k,
{
    lemma_widened_by(w, k);
}

/// Widens a window by one rank on each side, saturating at both ends.
pub fn widen(w: (usize, usize)) -> (r: (usize, usize))
    ensures
        r == widened(w),
{
    let lo: usize = if w.0 > usize::MIN { w.0 - 1 } else { w.0 };
    let hi: usize = if w.1 < usize::MAX { w.1 + 1 } else { w.1 };
    (lo, hi)
}

} // verus!
