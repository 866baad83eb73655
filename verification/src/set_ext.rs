//! Switching an item's membership in a hash set.
use std::collections::HashSet;
use std::hash::{BuildHasher, Hash};

use vstd::prelude::*;
use vstd::std_specs::hash::{builds_valid_hashers, obeys_key_model};

verus! {

broadcast use vstd::std_specs::hash::group_hash_axioms;

/// `s` with `item` taken out if it is there, put in if it is not.
pub open spec fn toggled_set<T>(s: Set<T>, item: T) -> Set<T> {
    if s.contains(item) {
        s.remove(item)
    } else {
        s.insert(item)
    }
}

/// Toggling an item twice leaves the set as it was.
pub proof fn law_toggle_twice_restores_set<T>(s: Set<T>, item: T)
    ensures
        toggled_set(toggled_set(s, item), item) == s,
{
    if s.contains(item) {
        assert(s.remove(item).insert(item) =~= s);
    } else {
        assert(s.insert(item).remove(item) =~= s);
    }
}

/// Turning a set's membership of an item on and off.
pub trait SetExt<T>: Sized {
    /// The items of the set.
    spec fn members(&self) -> Set<T>;

    /// Whether the set's operations follow its model (true for the hashers and item types
    /// whose behaviour vstd describes).
    spec fn follows_model() -> bool;

    /// Removes `item` if it is there, inserts it if it is not.
    fn toggle(&mut self, item: T)
        ensures
            Self::follows_model() ==> final(self).members() == toggled_set(old(self).members(), item),
    ;

    /// Inserts `item` when `on`, removes it otherwise.
    fn toggle_by(&mut self, item: T, on: bool)
        ensures
            Self::follows_model() ==> final(self).members() == if on {
                old(self).members().insert(item)
            } else {
                old(self).members().remove(item)
            },
    ;
}

impl<T: Hash + Eq, S: BuildHasher> SetExt<T> for HashSet<T, S> {
    open spec fn members(&self) -> Set<T> {
        self@
    }

    open spec fn follows_model() -> bool {
        obeys_key_model::<T>() && builds_valid_hashers::<S>()
    }

    fn toggle(&mut self, item: T) {
        let on = !self.contains(&item);
        self.toggle_by(item, on);
    }

    fn toggle_by(&mut self, item: T, on: bool) {
        if on {
            self.insert(item);
        } else {
            self.remove(&item);
        }
    }
}

} // verus!
