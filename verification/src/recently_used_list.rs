//! A short history of the items used most recently.
use vstd::prelude::*;
use vstd::laws_eq::obeys_concrete_eq;

use crate::util::position::{first_pos, lemma_first_pos, position_of};

verus! {

/// The items used most recently, each once, the most recent last.
pub struct RecentlyUsedList<T> {
    items: Vec<T>,
    max_items: usize,
}

/// The items after `item` is used: it moves (or is added) to the end, and when that
/// makes the list longer than `max_items`, the oldest item leaves.
pub open spec fn used<T>(items: Seq<T>, max_items: nat, item: T) -> Seq<T> {
    let without = if first_pos(items, item) >= 0 {
        items.remove(first_pos(items, item))
    } else {
        items
    };
    let with = without.push(item);
    if with.len() > max_items {
        with.drop_first()
    } else {
        with
    }
}

impl<T> RecentlyUsedList<T> {
    #[verifier::type_invariant]
    spec fn inv(&self) -> bool {
        &&& self.items@.no_duplicates()
        &&& self.items@.len() <= self.max_items
        &&& self.max_items >= 1
    }

    /// The items, oldest first.
    pub closed spec fn items(&self) -> Seq<T> {
        self.items@
    }

    /// How many items the list keeps at most.
    pub closed spec fn max_items(&self) -> nat {
        self.max_items as nat
    }

    /// The most recently used item.
    pub fn most_recent(&self) -> (r: Option<&T>)
        ensures
            self.items().len() == 0 ==> r is None,
            self.items().len() > 0 ==> r == Some(&self.items().last()),
    {
        if self.items.len() == 0 {
            None
        } else {
            Some(&self.items[self.items.len() - 1])
        }
    }

    pub fn len(&self) -> (r: usize)
        ensures
            r == self.items().len(),
    {
        self.items.len()
    }

    /// The items, most recent first.
    pub fn iter(&self) -> (r: Vec<&T>)
        ensures
            r@.len() == self.items().len(),
            forall|i: int|
                0 <= i < r@.len() ==> *r@[i] == self.items()[self.items().len() - 1 - i],
    {
        let mut r: Vec<&T> = Vec::new();
        let mut i: usize = self.items.len();
        while i > 0
            invariant
                i <= self.items@.len(),
                r@.len() == self.items@.len() - i,
                forall|j: int|
                    0 <= j < r@.len() ==> *r@[j] == self.items@[self.items@.len() - 1 - j],
            decreases i,
        {
            i = i - 1;
            r.push(&self.items[i]);
        }
        r
    }
}

impl<T: PartialEq> RecentlyUsedList<T> {
    /// Marks `item` as the most recently used one.
    pub fn use_(&mut self, item: T)
        requires
            obeys_concrete_eq::<T>(),
        ensures
            final(self).items() == used(old(self).items(), old(self).max_items(), item),
            final(self).max_items() == old(self).max_items(),
            final(self).items().last() == item,
    {
        proof {
            use_type_invariant(&*self);
            lemma_first_pos(self.items@, item);
        }
        let ghost old_items = self.items@;
        let mut items: Vec<T> = Vec::new();
        std::mem::swap(&mut items, &mut self.items);
        let pos = position_of(items.as_slice(), &item);
        if let Some(pos) = pos {
            items.remove(pos);
        }
        let ghost without = items@;
        assert(without.no_duplicates() && !without.contains(item)) by {
            if first_pos(old_items, item) >= 0 {
                let p = first_pos(old_items, item);
                assert forall|a: int, b: int| 0 <= a < b < without.len() implies without[a]
                    != without[b] by {
                    let a2 = if a < p { a } else { a + 1 };
                    let b2 = if b < p { b } else { b + 1 };
                    assert(old_items[a2] != old_items[b2]);
                }
                if without.contains(item) {
                    let j = choose|j: int| 0 <= j < without.len() && without[j] == item;
                    let j2 = if j < p { j } else { j + 1 };
                    assert(old_items[j2] == item);
                    assert(old_items[p] == item);
                }
            }
        }
        items.push(item);
        assert(items@.no_duplicates()) by {
            assert forall|a: int, b: int| 0 <= a < b < items@.len() implies items@[a]
                != items@[b] by {
                if b == items@.len() - 1 {
                    assert(without.contains(items@[a]));
                }
            }
        }
        if items.len() > self.max_items {
            let ghost full = items@;
            items.remove(0);
            assert(items@.no_duplicates()) by {
                assert forall|a: int, b: int| 0 <= a < b < items@.len() implies items@[a]
                    != items@[b] by {
                    assert(items@[a] == full[a + 1] && items@[b] == full[b + 1]);
                }
            }
            assert(items@ =~= full.drop_first());
        }
        self.items = items;
    }
}

impl<T> Default for RecentlyUsedList<T> {
    fn default() -> (r: Self)
        ensures
            r.items() == Seq::<T>::empty(),
            r.max_items() == 7,
    {
        RecentlyUsedList { items: Vec::new(), max_items: 7 }
    }
}

} // verus!
