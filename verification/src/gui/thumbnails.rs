//! Bookkeeping for thumbnails being loaded in the background: one slot per entry, from
//! the request until the finished result is handed to the cache.
use vstd::prelude::*;

use crate::entry;
use crate::id_map::IdMap;

verus! {

/// The loads under way, by entry uid; a slot holds the result once its load is done.
pub struct LoadSlots<R> {
    slots: IdMap<Option<R>>,
}

impl<R> LoadSlots<R> {
    /// The slots, by entry uid.
    pub closed spec fn view(&self) -> Map<u64, Option<R>> {
        self.slots@
    }

    /// The slots as (uid, result) pairs, oldest request first.
    pub closed spec fn pairs(&self) -> Seq<(u64, Option<R>)> {
        self.slots.pairs()
    }

    pub closed spec fn wf(&self) -> bool {
        self.slots.wf()
    }

    /// No load under way.
    pub fn new() -> (r: Self)
        ensures
            r.wf(),
            r@ == Map::<u64, Option<R>>::empty(),
            r.pairs() == Seq::<(u64, Option<R>)>::empty(),
    {
        LoadSlots { slots: IdMap::new() }
    }

    /// Asks for the thumbnail of `uid`. Returns whether a load has to start: only when
    /// none is under way or waiting to be taken for that entry.
    pub fn request(&mut self, uid: entry::Id) -> (start: bool)
        requires
            old(self).wf(),
        ensures
            final(self).wf(),
            start == !old(self)@.dom().contains(uid.0),
            final(self)@ == if start {
                old(self)@.insert(uid.0, None)
            } else {
                old(self)@
            },
    {
        if self.slots.contains(uid.0) {
            false
        } else {
            let _ = self.slots.insert(uid.0, None);
            true
        }
    }

    /// Records the result of the load for `uid`.
    pub fn complete(&mut self, uid: entry::Id, result: R)
        requires
            old(self).wf(),
        ensures
            final(self).wf(),
            final(self)@ == old(self)@.insert(uid.0, Some(result)),
    {
        let _ = self.slots.insert(uid.0, Some(result));
    }

    /// The entries whose loads are under way or waiting to be taken, oldest request first.
    pub fn busy_with(&self) -> (r: Vec<entry::Id>)
        ensures
            r@ == self.pairs().map_values(|p: (u64, Option<R>)| entry::Id(p.0)),
    {
        let keys = self.slots.keys();
        let mut r: Vec<entry::Id> = Vec::new();
        let mut i: usize = 0;
        while i < keys.len()
            invariant
                i <= keys@.len(),
                keys@ == self.slots.key_seq(),
                r@ == self.pairs().take(i as int).map_values(|p: (u64, Option<R>)| entry::Id(p.0)),
            decreases keys@.len() - i,
        {
            r.push(entry::Id(keys[i]));
            i = i + 1;
            proof {
                assert(r@ =~= self.pairs().take(i as int).map_values(|p: (u64, Option<R>)| entry::Id(p.0)));
            }
        }
        proof {
            assert(self.pairs().take(i as int) =~= self.pairs());
        }
        r
    }

    /// Takes the finished results out, oldest request first; the slots still loading
    /// stay.
    pub fn take_finished(&mut self) -> (r: Vec<(entry::Id, R)>)
        requires
            old(self).wf(),
        ensures
            final(self).wf(),
            r@.map_values(|p: (entry::Id, R)| p.0.0) == old(self).pairs().filter(
                |p: (u64, Option<R>)| p.1 is Some,
            ).map_values(|p: (u64, Option<R>)| p.0),
            forall|i: int|
                0 <= i < r@.len() ==> old(self)@.dom().contains((#[trigger] r@[i]).0.0) && old(self)@[r@[i].0.0]
                    == Some(r@[i].1),
            forall|k: u64|
                #[trigger] final(self)@.dom().contains(k) <==> old(self)@.dom().contains(k) && old(self)@[k] is None,
            forall|k: u64| #[trigger] final(self)@.dom().contains(k) ==> final(self)@[k] is None,
    {
        let ghost old_pairs = self.slots.pairs();
        let ghost pred = |p: (u64, Option<R>)| p.1 is Some;
        let ghost g = |p: (u64, Option<R>)| p.0;
        let ghost h = |p: (entry::Id, R)| p.0.0;
        let n = self.slots.len();
        let mut keep: Vec<bool> = Vec::new();
        let mut taken: Vec<(entry::Id, R)> = Vec::new();
        let mut i: usize = 0;
        while i < n
            invariant
                i <= n,
                n == old_pairs.len(),
                old_pairs == old(self).slots.pairs(),
                old(self).wf(),
                self.wf(),
                self.slots.key_seq() == old(self).slots.key_seq(),
                self.slots.pairs().len() == n,
                forall|j: int| i <= j < n ==> #[trigger] self.slots.pairs()[j] == old_pairs[j],
                forall|j: int| 0 <= j < i ==> (#[trigger] self.slots.pairs()[j]).1 is None,
                keep@.len() == i,
                forall|j: int| 0 <= j < i ==> #[trigger] keep@[j] == old_pairs[j].1 is None,
                pred == (|p: (u64, Option<R>)| p.1 is Some),
                g == (|p: (u64, Option<R>)| p.0),
                h == (|p: (entry::Id, R)| p.0.0),
                taken@.map_values(h) == old_pairs.take(i as int).filter(pred).map_values(g),
                forall|t: int|
                    0 <= t < taken@.len() ==> old(self)@.dom().contains((#[trigger] taken@[t]).0.0)
                        && old(self)@[taken@[t].0.0] == Some(taken@[t].1),
            decreases n - i,
        {
            proof {
                assert(old_pairs.take(i + 1) =~= old_pairs.take(i as int).push(old_pairs[i as int]));
                old_pairs.take(i as int).lemma_filter_push(old_pairs[i as int], pred);
                old(self).slots.lemma_view_at(i as int);
            }
            let ghost before = self.slots;
            let uid = self.slots.key_at(i);
            let slot = self.slots.value_at_mut(i);
            let mut result: Option<R> = None;
            std::mem::swap(&mut result, slot);
            proof {
                IdMap::lemma_same_keys(&before, &self.slots);
            }
            match result {
                Some(res) => {
                    let ghost tb = taken@;
                    keep.push(false);
                    taken.push((entry::Id(uid), res));
                    proof {
                        old_pairs.take(i as int).filter(pred).lemma_push_map_commute(g, old_pairs[i as int]);
                        tb.lemma_push_map_commute(h, (entry::Id(uid), res));
                    }
                },
                None => {
                    keep.push(true);
                },
            }
            i = i + 1;
        }
        let ghost mid = self.slots;
        proof {
            assert(old_pairs.take(i as int) =~= old_pairs);
        }
        self.slots.retain_mask(&keep);
        proof {
            assert forall|k: u64| #[trigger] self.slots@.dom().contains(k) implies old(self)@.dom().contains(k)
                && old(self)@[k] is None && self.slots@[k] is None by {
                mid.lemma_key_index(k);
                let j = mid.index_of_key(k);
                if !keep@[j] {
                    assert(!self.slots@.dom().contains(mid.key_seq()[j]));
                }
                old(self).slots.lemma_view_at(j);
                assert(mid.key_seq()[j] == old(self).slots.key_seq()[j]);
            }
            assert forall|k: u64| #[trigger] old(self)@.dom().contains(k) && old(self)@[k] is None implies self.slots@.dom().contains(k) by {
                old(self).slots.lemma_key_index(k);
                let j = old(self).slots.index_of_key(k);
                assert(keep@[j]);
                assert(mid.key_seq()[j] == k);
            }
        }
        taken
    }
}

} // verus!
