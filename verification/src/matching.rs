//! What a match is: which rank the participants are matched at, and who
//! is matched there.

use crate::coverage::{coverage, is_best_rank};
use crate::window::{
    covers, lemma_widened_accepts_more, lemma_width_after_ticks, widened, widened_by,
};
use vstd::prelude::*;
use vstd::std_specs::hash::{borrowed_key_removed, maps_borrowed_key_to_value};

verus! {

/// The participants of `m` whose window accepts the rank `r`.
pub open spec fn accepting<T>(m: Map<T, (usize, usize)>, r: int) -> Set<T> {
    Set::new(|id: T| m.contains_key(id) && covers(m[id], r))
}

/// The number of participants of `m` whose window accepts the rank `r`.
pub open spec fn support<T>(m: Map<T, (usize, usize)>, r: int) -> nat {
    accepting(m, r).len()
}

/// `r` is the lowest of the ranks that the greatest number of participants
/// accept.
pub open spec fn is_best<T>(m: Map<T, (usize, usize)>, r: int) -> bool {
    &&& 0 <= r
    &&& forall|q: int| 0 <= q ==> #[trigger] support(m, q) <= support(m, r)
    &&& forall|q: int| 0 <= q < r ==> #[trigger] support(m, q) < support(m, r)
}

/// The rank at which the participants of `m` are matched.
pub open spec fn best_of<T>(m: Map<T, (usize, usize)>) -> int {
    choose|r: int| is_best(m, r)
}

/// `ids` names, each once, the participants that accept the best rank.
pub open spec fn is_match<T>(m: Map<T, (usize, usize)>, ids: Seq<&T>) -> bool {
    &&& ids.no_duplicates()
    &&& ids.unref().to_set() == accepting(m, best_of(m))
}

/// One counter per rank, from the lowest rank that anyone accepts to the
/// rank after the highest, can be addressed by a `usize`.
pub open spec fn ranks_fit<T>(m: Map<T, (usize, usize)>) -> bool {
    forall|a: T, b: T|
        m.contains_key(a) && m.contains_key(b) ==> (#[trigger] m[b]).1 - (#[trigger] m[a]).0 + 2
            <= usize::MAX
}

/// Every window after one tick.
pub open spec fn ticked<T>(m: Map<T, (usize, usize)>) -> Map<T, (usize, usize)> {
    m.map_values(|w: (usize, usize)| widened(w))
}

/// Every window after `k` ticks.
pub open spec fn ticked_by<T>(m: Map<T, (usize, usize)>, k: nat) -> Map<T, (usize, usize)>
    decreases k,
{
    if k == 0 {
        m
    } else {
        ticked(ticked_by(m, (k - 1) as nat))
    }
}

/// Every window's lowest rank is at most its highest rank.
pub open spec fn windows_ordered<T>(m: Map<T, (usize, usize)>) -> bool {
    forall|id: T| #[trigger] m.contains_key(id) ==> m[id].0 <= m[id].1
}

/// `ps` lists every entry of `m` once.
pub open spec fn is_listing<T>(m: Map<T, (usize, usize)>, ps: Seq<(T, (usize, usize))>) -> bool {
    &&& ps.no_duplicates()
    &&& ps.to_set() == m.kv_pairs()
}

/// The windows of a list of entries, in the list's order.
pub open spec fn windows_of<T>(ps: Seq<(T, (usize, usize))>) -> Seq<(usize, usize)> {
    ps.map_values(|p: (T, (usize, usize))| p.1)
}

/// The participants of the entries `ps` whose window accepts the rank `r`,
/// in the order of `ps`.
pub open spec fn accepting_in<T>(ps: Seq<(T, (usize, usize))>, r: int) -> Seq<T>
    decreases ps.len(),
{
    if ps.len() == 0 {
        Seq::empty()
    } else if covers(ps.last().1, r) {
        accepting_in(ps.drop_last(), r).push(ps.last().0)
    } else {
        accepting_in(ps.drop_last(), r)
    }
}

/// A listing holds the entries of the map and nothing else, and names no
/// participant twice.
pub proof fn lemma_listing_entries<T>(m: Map<T, (usize, usize)>, ps: Seq<(T, (usize, usize))>)
    requires
        is_listing(m, ps),
    ensures
        forall|i: int|
            0 <= i < ps.len() ==> m.contains_key((#[trigger] ps[i]).0) && m[ps[i].0] == ps[i].1,
        forall|id: T| #[trigger]
            m.contains_key(id) ==> exists|i: int| 0 <= i < ps.len() && ps[i] == (id, m[id]),
        forall|i: int, j: int| 0 <= i < j < ps.len() ==> (#[trigger] ps[i]).0 != (#[trigger] ps[j]).0,
{
    assert forall|i: int| 0 <= i < ps.len() implies m.contains_key((#[trigger] ps[i]).0)
        && m[ps[i].0] == ps[i].1 by {
        assert(ps.to_set().contains(ps[i]));
        assert(m.kv_pairs().contains(ps[i]));
    }
    assert forall|id: T| #[trigger] m.contains_key(id) implies exists|i: int|
        0 <= i < ps.len() && ps[i] == (id, m[id]) by {
        assert(m.kv_pairs().contains((id, m[id])));
        assert(ps.to_set().contains((id, m[id])));
    }
}

/// Who is picked from a list of entries: the participants of those entries
/// whose window accepts the rank.
pub proof fn lemma_accepting_in_entries<T>(ps: Seq<(T, (usize, usize))>, r: int)
    ensures
        forall|x: T|
            accepting_in(ps, r).contains(x) <==> exists|i: int|
                0 <= i < ps.len() && (#[trigger] ps[i]).0 == x && covers(ps[i].1, r),
    decreases ps.len(),
{
    if ps.len() > 0 {
        let n = ps.len() - 1;
        let rest = ps.drop_last();
        let picked = accepting_in(rest, r);
        lemma_accepting_in_entries(rest, r);
        assert forall|x: T|
            accepting_in(ps, r).contains(x) <==> exists|i: int|
                0 <= i < ps.len() && (#[trigger] ps[i]).0 == x && covers(ps[i].1, r) by {
            if accepting_in(ps, r).contains(x) {
                if picked.contains(x) {
                    let i = choose|i: int|
                        0 <= i < rest.len() && (#[trigger] rest[i]).0 == x && covers(rest[i].1, r);
                    assert(ps[i].0 == x);
                } else {
                    let j = choose|j: int|
                        0 <= j < accepting_in(ps, r).len() && accepting_in(ps, r)[j] == x;
                    if j < picked.len() {
                        assert(picked[j] == x);
                    }
                    assert(ps[n].0 == x);
                }
            }
            if exists|i: int| 0 <= i < ps.len() && (#[trigger] ps[i]).0 == x && covers(ps[i].1, r) {
                let i = choose|i: int|
                    0 <= i < ps.len() && (#[trigger] ps[i]).0 == x && covers(ps[i].1, r);
                if i < n {
                    assert(rest[i].0 == x);
                    assert(picked.contains(x));
                    let j = choose|j: int| 0 <= j < picked.len() && picked[j] == x;
                    assert(accepting_in(ps, r)[j] == x);
                } else {
                    assert(accepting_in(ps, r)[picked.len() as int] == x);
                }
            }
        }
    }
}

/// Picked from a listing of the entries, the participants that accept a
/// rank are named once each, and all of them are named.
pub proof fn lemma_accepting_in<T>(
    m: Map<T, (usize, usize)>,
    ps: Seq<(T, (usize, usize))>,
    r: int,
)
    requires
        is_listing(m, ps),
    ensures
        accepting_in(ps, r).no_duplicates(),
        accepting_in(ps, r).to_set() == accepting(m, r),
{
    lemma_listing_entries(m, ps);
    lemma_accepting_in_entries(ps, r);
    assert(accepting_in(ps, r).to_set() =~= accepting(m, r));
    lemma_accepting_in_once(ps, r);
}

/// Picked from entries that name no participant twice, no participant is
/// named twice.
pub proof fn lemma_accepting_in_once<T>(ps: Seq<(T, (usize, usize))>, r: int)
    requires
        forall|i: int, j: int| 0 <= i < j < ps.len() ==> (#[trigger] ps[i]).0 != (#[trigger] ps[j]).0,
    ensures
        accepting_in(ps, r).no_duplicates(),
    decreases ps.len(),
{
    if ps.len() > 0 {
        let n = ps.len() - 1;
        let rest = ps.drop_last();
        lemma_accepting_in_once(rest, r);
        lemma_accepting_in_entries(rest, r);
        if accepting_in(rest, r).contains(ps[n].0) {
            let i = choose|i: int|
                0 <= i < rest.len() && (#[trigger] rest[i]).0 == ps[n].0 && covers(rest[i].1, r);
            assert(ps[i].0 == ps[n].0);
        }
    }
}

/// Counting over a listing of the entries counts the participants.
pub proof fn lemma_listing_counts<T>(
    m: Map<T, (usize, usize)>,
    ps: Seq<(T, (usize, usize))>,
    r: int,
)
    requires
        m.dom().finite(),
        is_listing(m, ps),
    ensures
        accepting(m, r).finite(),
        coverage(windows_of(ps), r) == support(m, r),
    decreases ps.len(),
{
    let ws = windows_of(ps);
    if ps.len() == 0 {
        assert forall|id: T| !accepting(m, r).contains(id) by {
            if m.contains_key(id) {
                assert(m.kv_pairs().contains((id, m[id])));
                assert(ps.to_set().contains((id, m[id])));
            }
        }
        assert(accepting(m, r) =~= Set::empty());
    } else {
        let n = ps.len() - 1;
        let last = ps[n];
        let rest = ps.drop_last();
        let smaller = m.remove(last.0);
        assert(ps.to_set().contains(last));
        assert(m.kv_pairs().contains(last));
        assert forall|p: (T, (usize, usize))|
            rest.to_set().contains(p) <==> smaller.kv_pairs().contains(p) by {
            if rest.to_set().contains(p) {
                let i = choose|i: int| 0 <= i < rest.len() && rest[i] == p;
                assert(ps[i] == p);
                assert(ps.to_set().contains(p));
                assert(m.kv_pairs().contains(p));
            }
            if smaller.kv_pairs().contains(p) {
                assert(m.kv_pairs().contains(p));
                assert(ps.to_set().contains(p));
                let i = choose|i: int| 0 <= i < ps.len() && ps[i] == p;
                assert(rest[i] == p);
            }
        }
        assert(rest.to_set() =~= smaller.kv_pairs());
        lemma_listing_counts(smaller, rest, r);
        assert(ws.drop_last() =~= windows_of(rest));
        assert(ws.last() == last.1);
        if covers(last.1, r) {
            assert(accepting(m, r) =~= accepting(smaller, r).insert(last.0));
        } else {
            assert(accepting(m, r) =~= accepting(smaller, r));
        }
    }
}

/// The best rank of a listing's windows is the best rank of the
/// participants.
pub proof fn lemma_listing_best<T>(
    m: Map<T, (usize, usize)>,
    ps: Seq<(T, (usize, usize))>,
    r: int,
)
    requires
        m.dom().finite(),
        is_listing(m, ps),
        is_best_rank(windows_of(ps), r),
    ensures
        is_best(m, r),
        best_of(m) == r,
{
    let ws = windows_of(ps);
    lemma_listing_counts(m, ps, r);
    assert forall|q: int| 0 <= q implies #[trigger] support(m, q) <= support(m, r) by {
        lemma_listing_counts(m, ps, q);
        assert(coverage(ws, q) <= coverage(ws, r));
    }
    assert forall|q: int| 0 <= q < r implies #[trigger] support(m, q) < support(m, r) by {
        lemma_listing_counts(m, ps, q);
        assert(coverage(ws, q) < coverage(ws, r));
    }
    assert(is_best(m, r));
    lemma_best_unique(m, r, best_of(m));
}

/// Where nobody waits, no rank is accepted, and the best rank is the lowest
/// rank there is.
pub proof fn lemma_nobody_waits<T>(m: Map<T, (usize, usize)>)
    requires
        m.dom() == Set::<T>::empty(),
    ensures
        is_best(m, 0),
        best_of(m) == 0,
        is_match(m, Seq::<&T>::empty()),
{
    assert forall|q: int| #[trigger] support(m, q) == 0 by {
        assert(accepting(m, q) =~= Set::<T>::empty());
    }
    lemma_best_unique(m, 0, best_of(m));
    assert(accepting(m, 0) =~= Set::<T>::empty());
    assert(Seq::<&T>::empty().unref().to_set() =~= Set::<T>::empty());
}

/// At most one rank is the best one.
pub proof fn lemma_best_unique<T>(m: Map<T, (usize, usize)>, r1: int, r2: int)
    requires
        is_best(m, r1),
        is_best(m, r2),
    ensures
        r1 == r2,
{
    if r1 < r2 {
        assert(support(m, r1) < support(m, r2));
        assert(support(m, r2) <= support(m, r1));
    } else if r2 < r1 {
        assert(support(m, r2) < support(m, r1));
        assert(support(m, r1) <= support(m, r2));
    }
}

/// Ticks change no one's place in the arena: after `k` of them the same
/// participants wait, each with its window widened `k` times.
pub proof fn lemma_ticked_by<T>(m: Map<T, (usize, usize)>, k: nat)
    ensures
        ticked_by(m, k).dom() == m.dom(),
        forall|id: T| #[trigger]
            m.contains_key(id) ==> ticked_by(m, k)[id] == widened_by(m[id], k),
    decreases k,
{
    if k > 0 {
        lemma_ticked_by(m, (k - 1) as nat);
        assert(ticked_by(m, k).dom() =~= m.dom());
    }
}

/// A tick loses nobody: who accepted a rank before accepts it after.
pub proof fn lemma_tick_keeps_acceptance<T>(m: Map<T, (usize, usize)>, r: int)
    ensures
        accepting(m, r).subset_of(accepting(ticked(m), r)),
{
    assert forall|id: T| accepting(m, r).contains(id) implies accepting(ticked(m), r).contains(
        id,
    ) by {
        lemma_widened_accepts_more(m[id], r);
    }
}

/// After `k` ticks the window of a participant accepts `2 * k` ranks more
/// than before, unless it has reached an end of the ranks.
pub proof fn lemma_ticks_widen<T>(m: Map<T, (usize, usize)>, k: nat, id: T)
    requires
        m.contains_key(id),
        k <= m[id].0,
        m[id].1 + k <= usize::MAX,
    ensures
        ticked_by(m, k).contains_key(id),
        ticked_by(m, k)[id].1 - ticked_by(m, k)[id].0 == m[id].1 - m[id].0 + 2 * k,
{
    lemma_ticked_by(m, k);
    lemma_width_after_ticks(m[id], k);
}

/// A participant that joins and leaves at once leaves the arena as it was
/// before, if it did not wait there already.
pub proof fn lemma_insert_then_remove<T>(
    before: Map<T, (usize, usize)>,
    id: T,
    rank: usize,
    after: Map<T, (usize, usize)>,
)
    requires
        !before.contains_key(id),
        borrowed_key_removed(before.insert(id, (rank, rank)), after, &id),
    ensures
        after == before,
        maps_borrowed_key_to_value(before.insert(id, (rank, rank)), &id, (rank, rank)),
{
    assert(before.insert(id, (rank, rank)).remove(id) =~= before);
}

/// A participant that waits alone is matched at the rank it joined with.
pub proof fn lemma_single_participant<T>(id: T, rank: usize)
    ensures
        is_best(map![id => (rank, rank)], rank as int),
        best_of(map![id => (rank, rank)]) == rank,
        accepting(map![id => (rank, rank)], rank as int) == set![id],
{
    let m = map![id => (rank, rank)];
    assert(accepting(m, rank as int) =~= set![id]);
    assert forall|q: int| q != rank implies #[trigger] support(m, q) == 0 by {
        assert(accepting(m, q) =~= Set::<T>::empty());
    }
    lemma_best_unique(m, rank as int, best_of(m));
}

/// The participants picked from a listing at the best rank are a match.
pub proof fn lemma_listed_match<T>(
    m: Map<T, (usize, usize)>,
    ps: Seq<(T, (usize, usize))>,
    ids: Seq<&T>,
)
    requires
        is_listing(m, ps),
        ids.unref() == accepting_in(ps, best_of(m)),
    ensures
        is_match(m, ids),
{
    lemma_accepting_in(m, ps, best_of(m));
    assert forall|j: int, k: int| 0 <= j < ids.len() && 0 <= k < ids.len() && j != k implies ids[j]
        != ids[k] by {
        assert(ids.unref()[j] != ids.unref()[k]);
    }
}

/// Asked twice of an arena that has not changed in between, the answers
/// are the same.
pub proof fn lemma_match_repeats<T>(
    ps: Seq<(T, (usize, usize))>,
    r: int,
    first: Seq<&T>,
    second: Seq<&T>,
)
    requires
        first.unref() == accepting_in(ps, r),
        second.unref() == accepting_in(ps, r),
    ensures
        first == second,
{
    assert(first.len() == first.unref().len());
    assert(second.len() == second.unref().len());
    assert forall|i: int| 0 <= i < first.len() implies first[i] == second[i] by {
        assert(*first[i] == first.unref()[i]);
        assert(*second[i] == second.unref()[i]);
    }
    assert(first =~= second);
}

/// Two answers to the same question name the same participants, in
/// whatever order each names them.
pub proof fn lemma_match_determined<T>(
    m: Map<T, (usize, usize)>,
    first: Seq<&T>,
    second: Seq<&T>,
)
    requires
        is_match(m, first),
        is_match(m, second),
    ensures
        first.unref().to_set() == second.unref().to_set(),
        first.len() == second.len(),
{
    assert(first.unref().no_duplicates());
    assert(second.unref().no_duplicates());
    first.unref().unique_seq_to_set();
    second.unref().unique_seq_to_set();
}

} // verus!
