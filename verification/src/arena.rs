//! The arena: who is waiting, and which ranks each of them accepts.

use crate::coverage::{best_rank_between, is_bounds, rank_bounds};
use crate::matching::{
    accepting_in, best_of, is_best, is_listing, is_match, lemma_listed_match, lemma_listing_best,
    lemma_listing_entries, lemma_nobody_waits, ranks_fit, ticked, windows_of, windows_ordered,
};
use crate::window::{widen, widened};
use std::borrow::Borrow;
use std::collections::HashMap;
use std::hash::Hash;
use vstd::prelude::*;
use vstd::std_specs::hash::{
    borrowed_key_removed, contains_borrowed_key, maps_borrowed_key_to_value, obeys_key_model,
};
use vstd::std_specs::iter::IteratorSpec;

verus! {

/// The participants that wait for a match, each with the window of ranks
/// that it accepts.
pub struct Arena<T> {
    players: HashMap<T, (usize, usize)>,
}

impl<T> View for Arena<T> {
    type V = Map<T, (usize, usize)>;

    closed spec fn view(&self) -> Map<T, (usize, usize)> {
        self.players@
    }
}

impl<T> Arena<T> {
    #[verifier::type_invariant]
    spec fn inv(self) -> bool {
        &&& obeys_key_model::<T>()
        &&& windows_ordered(self.players@)
    }

    /// The entries in the order in which the arena goes through them. The
    /// order is the map's own: it stays as it is while the arena does.
    pub closed spec fn listing(&self) -> Seq<(T, (usize, usize))> {
        vstd::std_specs::hash::into_iter(self.players.iter())
    }
}

/// Calls `HashMap::remove_entry`, which takes out the entry whose key matches
/// `id` and hands that entry back, stored key and all. The contract says that
/// this entry and no other has left the map, and that the map is as it was
/// when no key matches.
#[verifier::external_body]
fn take_entry<T, Q>(players: &mut HashMap<T, (usize, usize)>, id: &Q) -> (taken: Option<
    (T, (usize, usize)),
>) where T: Borrow<Q> + Hash + Eq, Q: Hash + Eq
    ensures
        obeys_key_model::<T>() ==> {
            &&& borrowed_key_removed(old(players)@, final(players)@, id)
            &&& taken is Some <==> contains_borrowed_key(old(players)@, id)
            &&& match taken {
                Some((k, w)) => {
                    &&& maps_borrowed_key_to_value(old(players)@, id, w)
                    &&& old(players)@.contains_key(k)
                    &&& old(players)@[k] == w
                    &&& final(players)@ == old(players)@.remove(k)
                },
                None => final(players)@ == old(players)@,
            }
        },
{
    players.remove_entry(id)
}

/// Calls `Vec::from_iter` on the map, which moves every entry out of it, in
/// an order of the map's choosing. The contract says that each entry of the
/// map is listed once.
#[verifier::external_body]
fn into_entries<T>(players: HashMap<T, (usize, usize)>) -> (entries: Vec<(T, (usize, usize))>)
    ensures
        obeys_key_model::<T>() ==> is_listing(players@, entries@),
{
    Vec::from_iter(players)
}

impl<T> Arena<T> where T: Hash + Eq {
    /// An arena in which nobody waits.
    pub fn new() -> (arena: Self)
        requires
            obeys_key_model::<T>(),
        ensures
            arena@ == Map::<T, (usize, usize)>::empty(),
    {
        Arena { players: HashMap::new() }
    }

    /// Lets `id` wait with a window that accepts `rank` alone, in place of
    /// the window it had, which is handed back.
    pub fn insert(&mut self, id: T, rank: usize) -> (previous: Option<(usize, usize)>)
        ensures
            final(self)@ == old(self)@.insert(id, (rank, rank)),
            previous == (if old(self)@.contains_key(id) {
                Some(old(self)@[id])
            } else {
                None
            }),
            previous matches Some(w) ==> w.0 <= w.1,
    {
        proof {
            use_type_invariant(&*self);
        }
        let mut players = HashMap::new();
        std::mem::swap(&mut players, &mut self.players);
        let previous = players.insert(id, (rank, rank));
        self.players = players;
        previous
    }

    /// Takes the participant that `id` names out of the arena and hands its
    /// window back; where `id` names nobody, nothing changes.
    pub fn remove<Q>(&mut self, id: &Q) -> (removed: Option<(usize, usize)>) where
        T: Borrow<Q>,
        Q: Hash + Eq,
        ensures
            removed is Some <==> contains_borrowed_key(old(self)@, id),
            borrowed_key_removed(old(self)@, final(self)@, id),
            match removed {
                Some(w) => {
                    &&& maps_borrowed_key_to_value(old(self)@, id, w)
                    &&& exists|k: T|
                        {
                            &&& #[trigger] old(self)@.contains_key(k)
                            &&& old(self)@[k] == w
                            &&& final(self)@ == old(self)@.remove(k)
                        }
                },
                None => final(self)@ == old(self)@,
            },
            removed matches Some(w) ==> w.0 <= w.1,
    {
        proof {
            use_type_invariant(&*self);
        }
        let mut players = HashMap::new();
        std::mem::swap(&mut players, &mut self.players);
        let taken = take_entry(&mut players, id);
        self.players = players;
        match taken {
            Some(entry) => Some(entry.1),
            None => None,
        }
    }

    /// Lets one tick pass: every window grows by one rank on each side, as
    /// far as the range of ranks goes.
    pub fn rank_update(&mut self)
        ensures
            final(self)@ == ticked(old(self)@),
    {
        proof {
            use_type_invariant(&*self);
        }
        let mut waiting = HashMap::new();
        std::mem::swap(&mut waiting, &mut self.players);
        let ghost before = waiting@;
        let mut entries = into_entries(waiting);
        let ghost listed = entries@;
        let mut players: HashMap<T, (usize, usize)> = HashMap::new();
        while entries.len() > 0
            invariant
                obeys_key_model::<T>(),
                is_listing(before, listed),
                windows_ordered(before),
                entries@ == listed.take(entries@.len() as int),
                entries@.len() <= listed.len(),
                forall|id: T| #[trigger]
                    players@.contains_key(id) ==> before.contains_key(id) && players@[id]
                        == widened(before[id]),
                forall|i: int|
                    entries@.len() <= i < listed.len() ==> players@.contains_key(
                        (#[trigger] listed[i]).0,
                    ),
            decreases entries@.len(),
        {
            let ghost last = entries@.len() - 1;
            let entry = entries.pop();
            match entry {
                Some((id, w)) => {
                    proof {
                        assert(listed[last] == (id, w));
                        assert(listed.to_set().contains(listed[last]));
                        assert(before.kv_pairs().contains((id, w)));
                    }
                    players.insert(id, widen(w));
                },
                None => {},
            }
        }
        proof {
            assert forall|id: T| before.contains_key(id) implies #[trigger] players@.contains_key(
                id,
            ) by {
                assert(before.kv_pairs().contains((id, before[id])));
                assert(listed.to_set().contains((id, before[id])));
                let i = choose|i: int| 0 <= i < listed.len() && listed[i] == (id, before[id]);
                assert(players@.contains_key(listed[i].0));
            }
            assert(players@ =~= ticked(before));
        }
        self.players = players;
    }

    /// The windows of all participants, in the order of the listing.
    fn windows(&self) -> (ws: Vec<(usize, usize)>)
        ensures
            is_listing(self@, self.listing()),
            ws@ == windows_of(self.listing()),
    {
        proof {
            use_type_invariant(&*self);
        }
        let mut ws: Vec<(usize, usize)> = Vec::new();
        for entry in it: self.players.iter()
            invariant
                it.seq().unref() == self.listing(),
                ws@.len() == it.index(),
                forall|i: int| 0 <= i < it.index() ==> #[trigger] ws@[i] == self.listing()[i].1,
        {
            ws.push(*entry.1);
        }
        proof {
            assert(ws@ =~= windows_of(self.listing()));
        }
        ws
    }

    /// The participants whose window accepts the rank `r`, in the order of
    /// the listing.
    fn accepting_at(&self, r: usize) -> (ids: Vec<&T>)
        ensures
            is_listing(self@, self.listing()),
            ids@.unref() == accepting_in(self.listing(), r as int),
    {
        proof {
            use_type_invariant(&*self);
        }
        let mut ids: Vec<&T> = Vec::new();
        for entry in it: self.players.iter()
            invariant
                it.seq().unref() == self.listing(),
                ids@.unref() == accepting_in(self.listing().take(it.index()), r as int),
        {
            let (id, w) = entry;
            proof {
                let sofar = self.listing().take(it.index() + 1);
                assert(sofar.drop_last() == self.listing().take(it.index()));
                assert(sofar.last() == (*id, *w));
            }
            if w.0 <= r && r <= w.1 {
                ids.push(id);
                proof {
                    assert(ids@.unref() =~= accepting_in(
                        self.listing().take(it.index()),
                        r as int,
                    ).push(*id));
                }
            }
        }
        proof {
            assert(self.listing().take(self.listing().len() as int) == self.listing());
        }
        ids
    }

    /// The match among the windows `ws`, whose bounds are `bounds`.
    fn match_within(&self, ws: &Vec<(usize, usize)>, bounds: Option<(usize, usize)>) -> (matched:
        Vec<&T>)
        requires
            is_listing(self@, self.listing()),
            ws@ == windows_of(self.listing()),
            bounds is None <==> ws@.len() == 0,
            bounds matches Some((lo, hi)) ==> is_bounds(ws@, lo, hi) && hi - lo + 2 <= usize::MAX,
        ensures
            is_best(self@, best_of(self@)),
            matched@.unref() == accepting_in(self.listing(), best_of(self@)),
            is_match(self@, matched@),
            self@.dom().is_empty() ==> matched@.len() == 0,
    {
        proof {
            use_type_invariant(&*self);
            lemma_listing_entries(self@, self.listing());
        }
        let matched = match bounds {
            None => {
                proof {
                    assert(self@.dom() =~= Set::<T>::empty());
                    lemma_nobody_waits(self@);
                }
                Vec::new()
            },
            Some((lo, hi)) => {
                let best = best_rank_between(ws, lo, hi);
                proof {
                    lemma_listing_best(self@, self.listing(), best as int);
                    assert(self@.contains_key(self.listing()[0].0));
                }
                self.accepting_at(best)
            },
        };
        proof {
            assert(matched@.unref() =~= accepting_in(self.listing(), best_of(self@)));
            lemma_listed_match(self@, self.listing(), matched@);
        }
        matched
    }

    /// The participants that accept the rank which the greatest number of
    /// participants accept, the lowest such rank where there are several;
    /// nobody where nobody waits. They come in the order of the listing.
    ///
    /// The ranks are counted in an array with one counter per rank from the
    /// lowest accepted rank to the rank after the highest, so that array has
    /// to be addressable; `checked_rank_match` tests that first.
    pub fn rank_match(&self) -> (matched: Vec<&T>)
        requires
            ranks_fit(self@),
        ensures
            is_listing(self@, self.listing()),
            is_best(self@, best_of(self@)),
            matched@.unref() == accepting_in(self.listing(), best_of(self@)),
            is_match(self@, matched@),
            self@.dom().is_empty() ==> matched@.len() == 0,
    {
        let ws = self.windows();
        let bounds = rank_bounds(&ws);
        proof {
            lemma_listing_entries(self@, self.listing());
        }
        self.match_within(&ws, bounds)
    }

    /// As `rank_match`, for any arena: `None` where the ranks that the
    /// participants accept lie too far apart to be counted.
    pub fn checked_rank_match(&self) -> (matched: Option<Vec<&T>>)
        ensures
            matched is Some <==> ranks_fit(self@),
            matched matches Some(ids) ==> {
                &&& is_listing(self@, self.listing())
                &&& is_best(self@, best_of(self@))
                &&& ids@.unref() == accepting_in(self.listing(), best_of(self@))
                &&& is_match(self@, ids@)
                &&& self@.dom().is_empty() ==> ids@.len() == 0
            },
    {
        proof {
            use_type_invariant(&*self);
        }
        let ws = self.windows();
        let bounds = rank_bounds(&ws);
        let ghost listed = self.listing();
        proof {
            lemma_listing_entries(self@, listed);
        }
        let fits = match bounds {
            None => true,
            Some((lo, hi)) => {
                proof {
                    let i = choose|i: int| 0 <= i < ws@.len() && (#[trigger] ws@[i]).0 == lo;
                    let j = choose|j: int| 0 <= j < ws@.len() && (#[trigger] ws@[j]).1 == hi;
                    assert(lo <= ws@[j].0);
                    assert(self@[listed[j].0].1 - self@[listed[i].0].0 == hi - lo);
                }
                hi - lo <= usize::MAX - 2
            },
        };
        if fits {
            proof {
                assert forall|a: T, b: T|
                    self@.contains_key(a) && self@.contains_key(b) implies (#[trigger] self@[b]).1
                    - (#[trigger] self@[a]).0 + 2 <= usize::MAX by {
                    let i = choose|i: int| 0 <= i < listed.len() && listed[i] == (a, self@[a]);
                    let j = choose|j: int| 0 <= j < listed.len() && listed[j] == (b, self@[b]);
                    assert(ws@[i] == self@[a]);
                    assert(ws@[j] == self@[b]);
                }
            }
            Some(self.match_within(&ws, bounds))
        } else {
            None
        }
    }
}

impl<T: Clone> Clone for Arena<T> {
    /// A second arena in which the same participants wait with the same
    /// windows.
    fn clone(&self) -> (copy: Self)
        ensures
            copy@ == self@,
    {
        proof {
            use_type_invariant(self);
        }
        Arena { players: self.players.clone() }
    }
}

} // verus!
