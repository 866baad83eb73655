//! Uids, the uid counter, sets of tags, folder changes, and the register of collections.
use vstd::prelude::*;

use crate::id_map::IdMap;
use crate::tag;
use crate::util::position::{first_where, lemma_first_where, lemma_first_where_unique};
use crate::util::string::str_eq;

verus! {

/// Unique identifier for entries/tags.
///
/// 64 bits, so new uids can be handed out indefinitely without running out.
pub type Uid = u64;

/// Map from entry uids to values.
pub type EntryMap<V> = IdMap<V>;

/// Map from collection uids to values.
pub type CollMap<V> = IdMap<V>;

/// Hands out uids: each call of `next` gives the next one.
pub struct UidCounter(Uid);

impl UidCounter {
    /// The uid that the next call of `next` hands out.
    pub closed spec fn value(&self) -> Uid {
        self.0
    }

    /// A counter that starts at `start`.
    pub fn starting_at(start: Uid) -> (r: Self)
        ensures
            r.value() == start,
    {
        UidCounter(start)
    }

    /// The uid that the next call of `next` hands out.
    pub fn peek(&self) -> (r: Uid)
        ensures
            r == self.value(),
    {
        self.0
    }

    /// Hands out the current uid and moves on to the following one.
    pub fn next(&mut self) -> (uid: Uid)
        requires
            old(self).value() < u64::MAX,
        ensures
            uid == old(self).value(),
            final(self).value() == old(self).value() + 1,
    {
        let uid = self.0;
        self.0 = self.0 + 1;
        uid
    }
}

impl Default for UidCounter {
    fn default() -> (r: Self)
        ensures
            r.value() == 0,
    {
        UidCounter(0)
    }
}

/// A set of tag ids.
pub struct TagSet {
    ids: Vec<tag::Id>,
}

impl TagSet {
    #[verifier::type_invariant]
    spec fn inv(&self) -> bool {
        self.ids@.no_duplicates()
    }

    /// The ids, in the order in which they were inserted.
    pub closed spec fn seq(&self) -> Seq<tag::Id> {
        self.ids@
    }

    /// The set of ids.
    pub open spec fn view(&self) -> Set<tag::Id> {
        self.seq().to_set()
    }

    /// The empty set.
    pub fn new() -> (r: Self)
        ensures
            r@ == Set::<tag::Id>::empty(),
            r.seq() == Seq::<tag::Id>::empty(),
    {
        let r = TagSet { ids: Vec::new() };
        assert(r@ =~= Set::<tag::Id>::empty());
        r
    }

    /// Holds no id twice.
    pub fn seq_has_no_duplicates(&self)
        ensures
            self.seq().no_duplicates(),
            self@.finite(),
            self@.len() == self.seq().len(),
    {
        proof {
            use_type_invariant(self);
            self.seq().unique_seq_to_set();
        }
    }

    pub fn len(&self) -> (r: usize)
        ensures
            r == self@.len(),
            r == self.seq().len(),
    {
        self.seq_has_no_duplicates();
        self.ids.len()
    }

    pub fn is_empty(&self) -> (r: bool)
        ensures
            r == (self@.len() == 0),
            r == (self@ == Set::<tag::Id>::empty()),
    {
        self.seq_has_no_duplicates();
        if self.ids.len() == 0 {
            assert(self@ =~= Set::<tag::Id>::empty());
            true
        } else {
            assert(self@.contains(self.seq()[0]));
            false
        }
    }

    /// The ids, as a slice (in insertion order).
    pub fn as_slice(&self) -> (r: &[tag::Id])
        ensures
            r@ == self.seq(),
    {
        self.ids.as_slice()
    }

    /// The position of `id` in `seq()`, if it is there.
    fn position(&self, id: tag::Id) -> (r: Option<usize>)
        ensures
            match r {
                Some(i) => i < self.seq().len() && self.seq()[i as int] == id,
                None => !self@.contains(id),
            },
    {
        let mut i: usize = 0;
        while i < self.ids.len()
            invariant
                i <= self.ids@.len(),
                forall|j: int| 0 <= j < i ==> self.ids@[j] != id,
            decreases self.ids.len() - i,
        {
            if self.ids[i] == id {
                return Some(i);
            }
            i = i + 1;
        }
        None
    }

    pub fn contains(&self, id: tag::Id) -> (r: bool)
        ensures
            r == self@.contains(id),
    {
        self.position(id).is_some()
    }

    /// Adds `id`; returns whether it was new.
    pub fn insert(&mut self, id: tag::Id) -> (r: bool)
        ensures
            final(self)@ == old(self)@.insert(id),
            r == !old(self)@.contains(id),
            r ==> final(self).seq() == old(self).seq().push(id),
            !r ==> final(self).seq() == old(self).seq(),
    {
        proof {
            use_type_invariant(&*self);
        }
        if self.contains(id) {
            assert(self@ =~= self@.insert(id));
            false
        } else {
            proof {
                self.seq().lemma_push_to_set_commute(id);
            }
            let mut ids: Vec<tag::Id> = Vec::new();
            std::mem::swap(&mut ids, &mut self.ids);
            ids.push(id);
            proof {
                assert forall|a: int, b: int| 0 <= a < b < ids@.len() implies ids@[a]
                    != ids@[b] by {
                    if b == ids@.len() - 1 {
                        assert(old(self).seq().contains(ids@[a]));
                    }
                }
            }
            self.ids = ids;
            true
        }
    }

    /// Removes `id`; returns whether it was there.
    pub fn remove(&mut self, id: tag::Id) -> (r: bool)
        ensures
            final(self)@ == old(self)@.remove(id),
            r == old(self)@.contains(id),
    {
        proof {
            use_type_invariant(&*self);
        }
        match self.position(id) {
            Some(i) => {
                let ghost s = self.ids@;
                let mut ids: Vec<tag::Id> = Vec::new();
                std::mem::swap(&mut ids, &mut self.ids);
                ids.remove(i);
                proof {
                    assert forall|a: int, b: int| 0 <= a < b < ids@.len() implies ids@[a]
                        != ids@[b] by {
                        let a2 = if a < i { a } else { a + 1 };
                        let b2 = if b < i { b } else { b + 1 };
                        assert(s[a2] != s[b2]);
                    }
                }
                self.ids = ids;
                proof {
                    assert forall|x: tag::Id| #[trigger] self@.contains(x) <==> s.to_set().remove(id).contains(x) by {
                        if self@.contains(x) {
                            let j = choose|j: int| 0 <= j < self.ids@.len() && self.ids@[j] == x;
                            let j2 = if j < i { j } else { j + 1 };
                            assert(s[j2] == x);
                            assert(j2 != i);
                        }
                        if s.to_set().remove(id).contains(x) {
                            let j = choose|j: int| 0 <= j < s.len() && s[j] == x;
                            assert(j != i);
                            let j2 = if j < i { j } else { j - 1 };
                            assert(self.ids@[j2] == x);
                        }
                    }
                    assert(self@ =~= old(self)@.remove(id));
                }
                true
            },
            None => {
                assert(self@ =~= self@.remove(id));
                false
            },
        }
    }
}

impl Default for TagSet {
    fn default() -> (r: Self)
        ensures
            r@ == Set::<tag::Id>::empty(),
            r.seq() == Seq::<tag::Id>::empty(),
    {
        TagSet::new()
    }
}

/// Additions and removals found when comparing a collection with its folder.
pub struct FolderChanges {
    /// Paths that the folder has and the collection does not.
    pub add: Vec<String>,
    /// Paths that the collection has and the folder does not.
    pub remove: Vec<String>,
}

impl FolderChanges {
    /// Whether nothing changed.
    pub fn empty(&self) -> (r: bool)
        ensures
            r == (self.add@.len() == 0 && self.remove@.len() == 0),
    {
        self.add.len() == 0 && self.remove.len() == 0
    }
}

impl Default for FolderChanges {
    fn default() -> (r: Self)
        ensures
            r.add@.len() == 0,
            r.remove@.len() == 0,
    {
        FolderChanges { add: Vec::new(), remove: Vec::new() }
    }
}

/// The global database that is shared by all collections; it holds nothing yet.
pub struct GlobalDb {}

/// Registers a collection rooted at `root` under a fresh uid.
pub fn insert_collection(uid_counter: &mut UidCounter, collections: &mut CollMap<String>, root: String) -> (r:
    crate::collection::Id)
    requires
        old(collections).wf(),
        forall|k: u64| #[trigger] old(collections)@.dom().contains(k) ==> k < old(uid_counter).value(),
        old(uid_counter).value() < u64::MAX,
    ensures
        final(collections).wf(),
        r.0 == old(uid_counter).value(),
        final(uid_counter).value() == old(uid_counter).value() + 1,
        !old(collections)@.dom().contains(r.0),
        final(collections)@ == old(collections)@.insert(r.0, root),
        forall|k: u64| #[trigger] final(collections)@.dom().contains(k) ==> k < final(uid_counter).value(),
{
    let key = crate::collection::Id(uid_counter.next());
    collections.insert(key.0, root);
    key
}

/// The first collection (in order) rooted at `path`.
pub fn find_collection_by_path(collections: &CollMap<String>, path: &str) -> (r: Option<crate::collection::Id>)
    requires
        collections.wf(),
    ensures
        ({
            let f = first_where(collections.pairs(), |p: (u64, String)| p.1@ == path@);
            &&& f < 0 ==> r is None
            &&& f >= 0 ==> r == Some(crate::collection::Id(collections.key_seq()[f]))
        }),
{
    let ghost pred = |p: (u64, String)| p.1@ == path@;
    proof {
        lemma_first_where(collections.pairs(), pred);
    }
    let mut i: usize = 0;
    while i < collections.len()
        invariant
            i <= collections.pairs().len(),
            pred == (|p: (u64, String)| p.1@ == path@),
            forall|j: int| 0 <= j < i ==> !pred(#[trigger] collections.pairs()[j]),
        decreases collections.pairs().len() - i,
    {
        if str_eq(collections.value_at(i).as_str(), path) {
            proof {
                lemma_first_where_unique(collections.pairs(), pred, i as int);
            }
            return Some(crate::collection::Id(collections.key_at(i)));
        }
        i = i + 1;
    }
    proof {
        let f = first_where(collections.pairs(), pred);
        if f >= 0 {
            assert(!pred(collections.pairs()[f]));
        }
    }
    None
}

} // verus!
