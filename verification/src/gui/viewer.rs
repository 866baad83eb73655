//! The built-in viewer: which entries it shows, which one is current, and the cache of
//! loaded images.
use vstd::prelude::*;

use crate::collection::Collection;
use crate::entry;
use crate::gui::selection::SelectionBufs;
use crate::sequence::Sequence;
use crate::util::position::{first_where, lemma_first_where, lemma_first_where_unique};

verus! {

/// The cache `items` after adding `kv`: at the end, with the oldest dropped when that
/// makes more than `cap`.
pub open spec fn cache_after_insert<V>(items: Seq<(entry::Id, V)>, kv: (entry::Id, V), cap: nat) -> Seq<
    (entry::Id, V),
> {
    if items.len() + 1 > cap {
        items.push(kv).drop_first()
    } else {
        items.push(kv)
    }
}

/// A newly added image that was not cached before is found, in a cache that has room for
/// at least one image.
pub proof fn law_inserted_image_is_found<V>(items: Seq<(entry::Id, V)>, kv: (entry::Id, V), cap: nat)
    requires
        cap > 0,
        items.len() <= cap,
        forall|j: int| 0 <= j < items.len() ==> (#[trigger] items[j]).0 != kv.0,
    ensures
        ({
            let after = cache_after_insert(items, kv, cap);
            let f = first_where(after, |p: (entry::Id, V)| p.0 == kv.0);
            f >= 0 && after[f].1 == kv.1
        }),
{
    let after = cache_after_insert(items, kv, cap);
    let pred = |p: (entry::Id, V)| p.0 == kv.0;
    lemma_first_where(after, pred);
    assert(after.last() == kv);
    assert forall|j: int| 0 <= j < after.len() - 1 implies !pred(#[trigger] after[j]) by {
        if items.len() + 1 > cap {
            assert(after[j] == items[j + 1]);
        } else {
            assert(after[j] == items[j]);
        }
    }
    lemma_first_where_unique(after, pred, after.len() - 1);
}

/// Loaded images, most recent last; the oldest go once there are more than `capacity`.
pub struct ImageCache<V> {
    img_results: Vec<(entry::Id, V)>,
    capacity: usize,
}

impl<V> ImageCache<V> {
    /// The cached pairs, oldest first.
    pub closed spec fn items(&self) -> Seq<(entry::Id, V)> {
        self.img_results@
    }

    pub closed spec fn cap(&self) -> nat {
        self.capacity as nat
    }

    /// An empty cache of `capacity` images.
    pub fn with_capacity(capacity: usize) -> (r: Self)
        ensures
            r.items() == Seq::<(entry::Id, V)>::empty(),
            r.cap() == capacity,
    {
        ImageCache { img_results: Vec::new(), capacity }
    }

    /// An empty cache of 100 images.
    pub fn new() -> (r: Self)
        ensures
            r.items() == Seq::<(entry::Id, V)>::empty(),
            r.cap() == 100,
    {
        Self::with_capacity(100)
    }

    /// The oldest cached image of `id`.
    pub fn get(&self, id: entry::Id) -> (r: Option<&V>)
        ensures
            ({
                let f = first_where(self.items(), |p: (entry::Id, V)| p.0 == id);
                &&& f < 0 ==> r is None
                &&& f >= 0 ==> r == Some(&self.items()[f].1)
            }),
    {
        let ghost pred = |p: (entry::Id, V)| p.0 == id;
        proof {
            lemma_first_where(self.items(), pred);
        }
        let mut i: usize = 0;
        while i < self.img_results.len()
            invariant
                i <= self.items().len(),
                self.items() == self.img_results@,
                pred == (|p: (entry::Id, V)| p.0 == id),
                forall|j: int| 0 <= j < i ==> !pred(#[trigger] self.items()[j]),
            decreases self.items().len() - i,
        {
            if self.img_results[i].0 == id {
                proof {
                    lemma_first_where_unique(self.items(), pred, i as int);
                }
                return Some(&self.img_results[i].1);
            }
            i = i + 1;
        }
        proof {
            let f = first_where(self.items(), pred);
            if f >= 0 {
                assert(!pred(self.items()[f]));
            }
        }
        None
    }

    /// Adds an image; the oldest goes when that makes the cache hold more than its
    /// capacity.
    pub fn insert(&mut self, kvpair: (entry::Id, V))
        ensures
            final(self).cap() == old(self).cap(),
            final(self).items() == cache_after_insert(old(self).items(), kvpair, old(self).cap()),
    {
        self.img_results.push(kvpair);
        if self.img_results.len() > self.capacity {
            self.img_results.remove(0);
        }
    }
}

/// The position after `i` in a list of `len`, from the last back to the first.
pub open spec fn next_index(i: int, len: int) -> int {
    if i == len - 1 {
        0
    } else {
        i + 1
    }
}

/// The position before `i` in a list of `len`, from the first on to the last.
pub open spec fn prev_index(i: int, len: int) -> int {
    if i == 0 {
        len - 1
    } else {
        i - 1
    }
}

/// Going forward then back, or back then forward, returns to the same entry.
pub proof fn law_next_prev_inverse(i: int, len: int)
    requires
        0 <= i < len,
    ensures
        prev_index(next_index(i, len), len) == i,
        next_index(prev_index(i, len), len) == i,
{
}

/// Which entries the viewer goes through, and which of them it shows.
pub struct ViewerState {
    pub index: usize,
    pub image_list: Vec<entry::Id>,
    pub slideshow_timer_ms: u32,
}

impl ViewerState {
    /// Nothing to show.
    pub fn new() -> (r: Self)
        ensures
            r.index == 0,
            r.image_list@.len() == 0,
            r.slideshow_timer_ms == 0,
    {
        ViewerState { index: 0, image_list: Vec::new(), slideshow_timer_ms: 0 }
    }

    /// Shows `image_list`, starting at `starting_index`.
    pub fn open_list(&mut self, image_list: Vec<entry::Id>, starting_index: usize)
        ensures
            final(self).image_list@ == image_list@,
            final(self).index == starting_index,
            final(self).slideshow_timer_ms == old(self).slideshow_timer_ms,
    {
        self.image_list = image_list;
        self.index = starting_index;
    }

    /// The entry shown, if the index is within the list.
    pub fn shown_entry(&self) -> (r: Option<entry::Id>)
        ensures
            r == if self.index < self.image_list@.len() {
                Some(self.image_list@[self.index as int])
            } else {
                None
            },
    {
        if self.index < self.image_list.len() {
            Some(self.image_list[self.index])
        } else {
            None
        }
    }

    /// On to the next entry, from the last back to the first.
    pub fn next(&mut self)
        requires
            old(self).image_list@.len() > 0,
            old(self).index < usize::MAX,
        ensures
            final(self).index == next_index(old(self).index as int, old(self).image_list@.len() as int),
            final(self).image_list == old(self).image_list,
            final(self).slideshow_timer_ms == old(self).slideshow_timer_ms,
    {
        if self.index == self.image_list.len() - 1 {
            self.index = 0;
        } else {
            self.index = self.index + 1;
        }
    }

    /// Back to the previous entry, from the first on to the last.
    pub fn prev(&mut self)
        requires
            old(self).image_list@.len() > 0,
        ensures
            final(self).index == prev_index(old(self).index as int, old(self).image_list@.len() as int),
            final(self).image_list == old(self).image_list,
            final(self).slideshow_timer_ms == old(self).slideshow_timer_ms,
    {
        if self.index == 0 {
            self.index = self.image_list.len() - 1;
        } else {
            self.index = self.index - 1;
        }
    }

    /// Takes the shown entry out of the list; the entry before it is shown next.
    pub fn remove_from_view_list(&mut self)
        requires
            old(self).index < old(self).image_list@.len(),
        ensures
            final(self).image_list@ == old(self).image_list@.remove(old(self).index as int),
            final(self).index == if old(self).index > 0 {
                old(self).index - 1
            } else {
                0
            },
            final(self).slideshow_timer_ms == old(self).slideshow_timer_ms,
    {
        self.image_list.remove(self.index);
        self.index = if self.index > 0 {
            self.index - 1
        } else {
            0
        };
    }
}

/// A copy of `ids`.
fn copy_ids(ids: &[entry::Id]) -> (r: Vec<entry::Id>)
    ensures
        r@ == ids@,
{
    let mut r: Vec<entry::Id> = Vec::new();
    let mut i: usize = 0;
    while i < ids.len()
        invariant
            i <= ids@.len(),
            r@ == ids@.take(i as int),
        decreases ids@.len() - i,
    {
        r.push(ids[i]);
        i = i + 1;
        proof {
            assert(r@ =~= ids@.take(i as int));
        }
    }
    proof {
        assert(ids@.take(ids@.len() as int) =~= ids@);
    }
    r
}

/// What the viewer goes through when enter is pressed: the entries on view when nothing is
/// selected, the selection otherwise; it starts at the first.
pub fn on_enter_list(sel: &SelectionBufs, view_uids: &[entry::Id]) -> (r: Vec<entry::Id>)
    requires
        sel.wf(),
    ensures
        r@ == if sel.current_buf().buf@.len() == 0 {
            view_uids@
        } else {
            sel.current_buf().buf@
        },
{
    if sel.none_selected() {
        copy_ids(view_uids)
    } else {
        copy_ids(sel.selected_ids())
    }
}

/// The list to open the viewer with on the entry `entry_id`, and where in it to start:
/// the first sequence that holds the entry, from the entry on and wrapping around, or
/// else the entries on view, starting at `thumb_index`.
pub fn list_for_single(
    entry_id: entry::Id,
    coll: &Collection,
    view_uids: &[entry::Id],
    thumb_index: usize,
) -> (r: (Vec<entry::Id>, usize))
    requires
        coll.wf(),
    ensures
        ({
            let f = first_where(coll.sequences.pairs(), |p: (u64, Sequence)| p.1.entries@.contains(entry_id));
            let s = coll.sequences.pairs()[f].1;
            &&& f >= 0 ==> r.0@ == s.entries@.subrange(s.pos_of(entry_id), s.entries@.len() as int)
                + s.entries@.subrange(0, s.pos_of(entry_id)) && r.1 == 0
            &&& f < 0 ==> r.0@ == view_uids@ && r.1 == thumb_index
        }),
{
    proof {
        lemma_first_where(coll.sequences.pairs(), |p: (u64, Sequence)| p.1.entries@.contains(entry_id));
    }
    match coll.get_first_related_sequence_of(entry_id) {
        Some(seq) => (seq.entry_uids_wrapped_from(entry_id), 0),
        None => (copy_ids(view_uids), thumb_index),
    }
}

} // verus!
