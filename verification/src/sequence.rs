//! Sequences: named, ordered lists of entries.
use vstd::prelude::*;

use crate::db::Uid;
use crate::entry;
use crate::util::position::{first_pos, lemma_first_pos, lemma_first_pos_unique};

verus! {

/// Uid of a sequence.
#[derive(Clone, Copy, PartialEq, Eq, Structural, Hash, Debug)]
pub struct Id(pub Uid);

/// An ordered sequence of entries.
pub struct Sequence {
    pub name: String,
    pub entries: Vec<entry::Id>,
}

/// The position of the first occurrence of `id` in `v`.
pub fn entry_position(v: &[entry::Id], id: entry::Id) -> (r: Option<usize>)
    ensures
        match r {
            Some(i) => i == first_pos(v@, id) && i < v@.len() && v@[i as int] == id,
            None => first_pos(v@, id) < 0 && !v@.contains(id),
        },
        r is Some <==> v@.contains(id),
{
    proof {
        lemma_first_pos(v@, id);
    }
    let mut i: usize = 0;
    while i < v.len()
        invariant
            i <= v@.len(),
            forall|j: int| 0 <= j < i ==> v@[j] != id,
        decreases v.len() - i,
    {
        if v[i] == id {
            proof {
                lemma_first_pos_unique(v@, id, i as int);
            }
            return Some(i);
        }
        i = i + 1;
    }
    None
}

impl Sequence {
    /// An empty sequence with the given name.
    pub fn new_with_name(name: &str) -> (r: Self)
        ensures
            r.name@ == name@,
            r.entries@ == Seq::<entry::Id>::empty(),
    {
        Sequence { name: name.to_owned(), entries: Vec::new() }
    }

    /// Where `id` first occurs in the sequence, or -1.
    pub open spec fn pos_of(&self, id: entry::Id) -> int {
        first_pos(self.entries@, id)
    }

    /// Moves `id` to the front.
    pub fn reinsert_first(&mut self, id: entry::Id)
        requires
            old(self).entries@.contains(id),
        ensures
            final(self).name == old(self).name,
            final(self).entries@ == seq![id] + old(self).entries@.remove(old(self).pos_of(id)),
    {
        let pos = entry_position(self.entries.as_slice(), id).unwrap();
        self.entries.remove(pos);
        self.entries.insert(0, id);
        assert(self.entries@ =~= seq![id] + old(self).entries@.remove(pos as int));
    }

    /// Moves `id` to the back.
    pub fn reinsert_last(&mut self, id: entry::Id)
        requires
            old(self).entries@.contains(id),
        ensures
            final(self).name == old(self).name,
            final(self).entries@ == old(self).entries@.remove(old(self).pos_of(id)).push(id),
    {
        let pos = entry_position(self.entries.as_slice(), id).unwrap();
        self.entries.remove(pos);
        self.entries.push(id);
    }

    /// Moves `id` to position `at` (counted after it was taken out).
    pub fn reinsert_at(&mut self, id: entry::Id, at: usize)
        requires
            old(self).entries@.contains(id),
            at < old(self).entries@.len(),
        ensures
            final(self).name == old(self).name,
            final(self).entries@ == old(self).entries@.remove(old(self).pos_of(id)).insert(
                at as int,
                id,
            ),
    {
        let pos = entry_position(self.entries.as_slice(), id).unwrap();
        self.entries.remove(pos);
        self.entries.insert(at, id);
    }

    /// Swaps `id` with the entry before it.
    pub fn swap_entry_left(&mut self, id: entry::Id)
        requires
            old(self).entries@.contains(id),
            old(self).pos_of(id) > 0,
        ensures
            final(self).name == old(self).name,
            final(self).entries@ == old(self).entries@.update(
                old(self).pos_of(id) - 1,
                id,
            ).update(old(self).pos_of(id), old(self).entries@[old(self).pos_of(id) - 1]),
    {
        let pos = entry_position(self.entries.as_slice(), id).unwrap();
        let before = self.entries[pos - 1];
        self.entries.set(pos - 1, id);
        self.entries.set(pos, before);
    }

    /// Swaps `id` with the entry after it.
    pub fn swap_entry_right(&mut self, id: entry::Id)
        requires
            old(self).entries@.contains(id),
            old(self).pos_of(id) + 1 < old(self).entries@.len(),
        ensures
            final(self).name == old(self).name,
            final(self).entries@ == old(self).entries@.update(
                old(self).pos_of(id) + 1,
                id,
            ).update(old(self).pos_of(id), old(self).entries@[old(self).pos_of(id) + 1]),
    {
        let pos = entry_position(self.entries.as_slice(), id).unwrap();
        let n = self.entries.len();
        assert(pos + 1 < n);
        let after = self.entries[pos + 1];
        self.entries.set(pos + 1, id);
        self.entries.set(pos, after);
    }

    /// Removes the first occurrence of `id`.
    pub fn remove_entry(&mut self, id: entry::Id)
        requires
            old(self).entries@.contains(id),
        ensures
            final(self).name == old(self).name,
            final(self).entries@ == old(self).entries@.remove(old(self).pos_of(id)),
    {
        let pos = entry_position(self.entries.as_slice(), id).unwrap();
        self.entries.remove(pos);
    }

    /// The entries starting from `img_uid`, wrapping around to the ones before it.
    pub fn entry_uids_wrapped_from(&self, img_uid: entry::Id) -> (r: Vec<entry::Id>)
        requires
            self.entries@.contains(img_uid),
        ensures
            r@ == self.entries@.subrange(self.pos_of(img_uid), self.entries@.len() as int)
                + self.entries@.subrange(0, self.pos_of(img_uid)),
    {
        let pos = entry_position(self.entries.as_slice(), img_uid).unwrap();
        let mut uids: Vec<entry::Id> = Vec::new();
        let mut i: usize = pos;
        while i < self.entries.len()
            invariant
                pos <= i <= self.entries@.len(),
                uids@ == self.entries@.subrange(pos as int, i as int),
            decreases self.entries.len() - i,
        {
            uids.push(self.entries[i]);
            i = i + 1;
            assert(uids@ =~= self.entries@.subrange(pos as int, i as int));
        }
        let mut j: usize = 0;
        while j < pos
            invariant
                pos <= self.entries@.len(),
                j <= pos,
                uids@ == self.entries@.subrange(pos as int, self.entries@.len() as int)
                    + self.entries@.subrange(0, j as int),
            decreases pos - j,
        {
            uids.push(self.entries[j]);
            j = j + 1;
            assert(uids@ =~= self.entries@.subrange(pos as int, self.entries@.len() as int)
                + self.entries@.subrange(0, j as int));
        }
        uids
    }

    pub fn contains_entry(&self, id: entry::Id) -> (r: bool)
        ensures
            r == self.entries@.contains(id),
    {
        entry_position(self.entries.as_slice(), id).is_some()
    }
}

impl Default for Sequence {
    fn default() -> (r: Self)
        ensures
            r.name@ == Seq::<char>::empty(),
            r.entries@ == Seq::<entry::Id>::empty(),
    {
        Sequence { name: String::new(), entries: Vec::new() }
    }
}

/// Moving an entry left and then right puts the sequence back as it was, when the entry
/// occurs only once.
pub proof fn law_swap_left_then_right(before: Sequence, middle: Sequence, after: Sequence, id: entry::Id)
    requires
        before.entries@.contains(id),
        before.pos_of(id) > 0,
        middle.entries@ == before.entries@.update(before.pos_of(id) - 1, id).update(
            before.pos_of(id),
            before.entries@[before.pos_of(id) - 1],
        ),
        middle.entries@.contains(id),
        middle.pos_of(id) + 1 < middle.entries@.len(),
        after.entries@ == middle.entries@.update(middle.pos_of(id) + 1, id).update(
            middle.pos_of(id),
            middle.entries@[middle.pos_of(id) + 1],
        ),
    ensures
        after.entries@ == before.entries@,
{
    let p = before.pos_of(id);
    lemma_first_pos(before.entries@, id);
    lemma_first_pos_unique(middle.entries@, id, p - 1);
    assert(after.entries@ =~= before.entries@);
}

} // verus!
