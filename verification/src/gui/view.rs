//! The list of entries on view: its order, searching in it, and picking entries from it.
use vstd::prelude::*;

use crate::collection::sequences::{sort_by_path, sorted_by_path, stable_rearrangement, with_path};
use crate::collection::Collection;
use crate::entry::{self, Entry};
use crate::filter_reqs::{reqs_hold, Requirements};
use crate::gui::selection::SelectionBuf;
use crate::sequence::entry_position;

verus! {

broadcast use vstd::seq_lib::to_multiset_insert, vstd::seq_lib::to_multiset_len;

/// The order of the entries on view.
#[derive(Clone, Copy, PartialEq, Eq, Structural, Debug)]
pub enum SortBy {
    Path,
    Id,
}

/// Whether the uids along `ids` never decrease.
pub open spec fn sorted_by_id(ids: Seq<entry::Id>) -> bool {
    forall|i: int, j: int| 0 <= i < j < ids.len() ==> (#[trigger] ids[i]).0 <= (#[trigger] ids[j]).0
}

/// `ids`, ordered by uid (insertion sort, so equal uids keep their order).
fn sort_by_id(ids: &[entry::Id]) -> (r: Vec<entry::Id>)
    ensures
        r@.to_multiset() == ids@.to_multiset(),
        sorted_by_id(r@),
{
    let mut sorted: Vec<entry::Id> = Vec::new();
    let mut i: usize = 0;
    proof {
        assert(sorted@ =~= ids@.take(0));
    }
    while i < ids.len()
        invariant
            i <= ids@.len(),
            sorted@.to_multiset() == ids@.take(i as int).to_multiset(),
            sorted_by_id(sorted@),
        decreases ids@.len() - i,
    {
        let id = ids[i];
        let mut p: usize = 0;
        while p < sorted.len() && sorted[p].0 <= id.0
            invariant
                p <= sorted@.len(),
                forall|q: int| 0 <= q < p ==> (#[trigger] sorted@[q]).0 <= id.0,
            decreases sorted@.len() - p,
        {
            p = p + 1;
        }
        let ghost before = sorted@;
        sorted.insert(p, id);
        proof {
            assert(ids@.take(i + 1) =~= ids@.take(i as int).push(id));
            assert(ids@.take(i as int).push(id).to_multiset() =~= ids@.take(i as int).to_multiset().insert(id))
                by {
                broadcast use vstd::seq_lib::to_multiset_build;
            }
            assert forall|a: int, b: int| 0 <= a < b < sorted@.len() implies (#[trigger] sorted@[a]).0
                <= (#[trigger] sorted@[b]).0 by {
                if b < p {
                    assert(sorted@[a] == before[a] && sorted@[b] == before[b]);
                } else if b == p {
                    assert(sorted@[a] == before[a]);
                } else if a < p {
                    assert(sorted@[a] == before[a] && sorted@[b] == before[b - 1]);
                    if p < before.len() {
                        assert(before[p as int].0 > id.0);
                        assert(before[a].0 <= id.0);
                    }
                } else if a == p {
                    assert(sorted@[b] == before[b - 1]);
                    assert(before[p as int].0 > id.0);
                    if b - 1 > p {
                        assert(before[p as int].0 <= before[b - 1].0);
                    }
                } else {
                    assert(sorted@[a] == before[a - 1] && sorted@[b] == before[b - 1]);
                }
            }
        }
        i = i + 1;
    }
    proof {
        assert(ids@.take(ids@.len() as int) =~= ids@);
    }
    sorted
}

/// Orders `ids` as `by` says: by uid, or by the paths of their entries.
pub fn sort_ids(ids: &mut Vec<entry::Id>, by: SortBy, coll: &Collection)
    requires
        coll.entries.wf(),
        forall|t: int| 0 <= t < old(ids)@.len() ==> coll.entries@.dom().contains(#[trigger] old(ids)@[t].0),
    ensures
        final(ids)@.to_multiset() == old(ids)@.to_multiset(),
        by == SortBy::Id ==> sorted_by_id(final(ids)@),
        by == SortBy::Path ==> sorted_by_path(coll.entries@, final(ids)@),
        by == SortBy::Path ==> forall|p: Seq<char>|
            #[trigger] with_path(coll.entries@, final(ids)@, p) == with_path(coll.entries@, old(ids)@, p),
        by == SortBy::Path ==> exists|perm: Seq<int>| stable_rearrangement(coll.entries@, old(ids)@, final(ids)@, perm),
{
    let sorted = match by {
        SortBy::Id => sort_by_id(ids.as_slice()),
        SortBy::Path => sort_by_path(coll, ids.as_slice()),
    };
    *ids = sorted;
}

/// How many of `ids` name entries of `coll` that meet `reqs`.
pub open spec fn count_matching(ids: Seq<entry::Id>, reqs: Requirements, coll: Collection) -> nat
    decreases ids.len(),
{
    if ids.len() == 0 {
        0
    } else {
        count_matching(ids.drop_last(), reqs, coll) + if entry_matches(ids.last(), reqs, coll) {
            1nat
        } else {
            0nat
        }
    }
}

/// Whether `id` names an entry of `coll` that meets `reqs`.
pub open spec fn entry_matches(id: entry::Id, reqs: Requirements, coll: Collection) -> bool {
    reqs_hold(reqs, id, coll.entries@[id.0], coll.tags@, coll.sequences@)
}

/// The position in `ids` of the `nth` (counting from 0) entry that meets `reqs`.
pub fn find_nth(ids: &[entry::Id], coll: &Collection, reqs: &Requirements, nth: usize) -> (r: Option<usize>)
    requires
        coll.wf(),
        forall|t: int| 0 <= t < ids@.len() ==> coll.entries@.dom().contains(#[trigger] ids@[t].0),
    ensures
        match r {
            Some(i) => i < ids@.len() && entry_matches(ids@[i as int], *reqs, *coll) && count_matching(
                ids@.take(i as int),
                *reqs,
                *coll,
            ) == nth,
            None => count_matching(ids@, *reqs, *coll) <= nth,
        },
{
    let mut seen: usize = 0;
    let mut i: usize = 0;
    proof {
        assert(ids@.take(0) =~= Seq::<entry::Id>::empty());
    }
    while i < ids.len()
        invariant
            i <= ids@.len(),
            coll.wf(),
            forall|t: int| 0 <= t < ids@.len() ==> coll.entries@.dom().contains(#[trigger] ids@[t].0),
            seen == count_matching(ids@.take(i as int), *reqs, *coll),
            seen <= nth,
        decreases ids@.len() - i,
    {
        let id = ids[i];
        let holds = match coll.entries.get(id.0) {
            Some(en) => en.reqs_satisfied(id, reqs, &coll.tags, &coll.sequences),
            None => false,
        };
        proof {
            assert(ids@.take(i + 1).drop_last() =~= ids@.take(i as int));
            assert(ids@.take(i + 1).last() == id);
            assert(coll.entries@.dom().contains(ids@[i as int].0));
        }
        if holds {
            if seen == nth {
                return Some(i);
            }
            seen = seen + 1;
        }
        i = i + 1;
    }
    proof {
        assert(ids@.take(ids@.len() as int) =~= ids@);
    }
    None
}

/// Where a search of the entries on view stands.
pub struct SearchState {
    /// Which match (counting from 0) the search is at.
    pub cursor: usize,
    /// Whether the last move found its match.
    pub success: bool,
    /// The position of the match on view.
    pub highlight: Option<usize>,
}

impl SearchState {
    /// At the first match, with nothing found yet.
    pub fn new() -> (r: Self)
        ensures
            r.cursor == 0 && !r.success && r.highlight is None,
    {
        SearchState { cursor: 0, success: false, highlight: None }
    }

    /// Back to the first match, with nothing found.
    pub fn wipe(&mut self)
        ensures
            final(self).cursor == 0 && !final(self).success && final(self).highlight is None,
    {
        self.cursor = 0;
        self.success = false;
        self.highlight = None;
    }

    /// Looks for the match at the cursor; when there is one it is highlighted. Returns its
    /// position, for the view to scroll to.
    pub fn goto_cursor(&mut self, ids: &[entry::Id], coll: &Collection, reqs: &Requirements) -> (r: Option<usize>)
        requires
            coll.wf(),
            forall|t: int| 0 <= t < ids@.len() ==> coll.entries@.dom().contains(#[trigger] ids@[t].0),
        ensures
            final(self).cursor == old(self).cursor,
            final(self).success == r is Some,
            match r {
                Some(i) => final(self).highlight == Some(i) && i < ids@.len() && entry_matches(
                    ids@[i as int],
                    *reqs,
                    *coll,
                ) && count_matching(ids@.take(i as int), *reqs, *coll) == old(self).cursor,
                None => final(self).highlight == old(self).highlight && count_matching(
                    ids@,
                    *reqs,
                    *coll,
                ) <= old(self).cursor,
            },
    {
        let found = find_nth(ids, coll, reqs, self.cursor);
        match found {
            Some(i) => {
                self.highlight = Some(i);
                self.success = true;
            },
            None => {
                self.success = false;
            },
        }
        found
    }

    /// Moves to the next match; when there is none, the cursor stays where it was.
    pub fn next(&mut self, ids: &[entry::Id], coll: &Collection, reqs: &Requirements) -> (r: Option<usize>)
        requires
            coll.wf(),
            forall|t: int| 0 <= t < ids@.len() ==> coll.entries@.dom().contains(#[trigger] ids@[t].0),
            old(self).cursor < usize::MAX,
        ensures
            final(self).success == r is Some,
            match r {
                Some(i) => final(self).cursor == old(self).cursor + 1 && final(self).highlight == Some(i)
                    && i < ids@.len() && entry_matches(ids@[i as int], *reqs, *coll) && count_matching(
                    ids@.take(i as int),
                    *reqs,
                    *coll,
                ) == old(self).cursor + 1,
                None => final(self).cursor == old(self).cursor && final(self).highlight == old(
                    self,
                ).highlight && count_matching(ids@, *reqs, *coll) <= old(self).cursor + 1,
            },
    {
        self.cursor = self.cursor + 1;
        let r = self.goto_cursor(ids, coll, reqs);
        if !self.success {
            self.cursor = self.cursor - 1;
        }
        r
    }

    /// Moves to the previous match (the cursor stays at the first one).
    pub fn prev(&mut self, ids: &[entry::Id], coll: &Collection, reqs: &Requirements) -> (r: Option<usize>)
        requires
            coll.wf(),
            forall|t: int| 0 <= t < ids@.len() ==> coll.entries@.dom().contains(#[trigger] ids@[t].0),
        ensures
            final(self).cursor == if old(self).cursor > 0 {
                (old(self).cursor - 1) as usize
            } else {
                0usize
            },
            final(self).success == r is Some,
            match r {
                Some(i) => final(self).highlight == Some(i) && i < ids@.len() && entry_matches(
                    ids@[i as int],
                    *reqs,
                    *coll,
                ) && count_matching(ids@.take(i as int), *reqs, *coll) == final(self).cursor,
                None => final(self).highlight == old(self).highlight && count_matching(
                    ids@,
                    *reqs,
                    *coll,
                ) <= final(self).cursor,
            },
    {
        if self.cursor > 0 {
            self.cursor = self.cursor - 1;
        }
        self.goto_cursor(ids, coll, reqs)
    }
}

/// Whether an id is other than `id`.
pub open spec fn other_than(id: entry::Id) -> spec_fn(entry::Id) -> bool {
    |x: entry::Id| x != id
}

/// The selection after a click with shift held on `id`: without `id` if it held it,
/// with `id` added at the end otherwise.
pub open spec fn toggled_selection(sel: Seq<entry::Id>, id: entry::Id) -> Seq<entry::Id> {
    if sel.contains(id) {
        sel.filter(other_than(id))
    } else {
        sel.push(id)
    }
}

/// Filtering by a predicate that every element meets keeps everything.
proof fn lemma_filter_keeps_all(s: Seq<entry::Id>, pred: spec_fn(entry::Id) -> bool)
    requires
        forall|i: int| 0 <= i < s.len() ==> pred(#[trigger] s[i]),
    ensures
        s.filter(pred) == s,
    decreases s.len(),
{
    reveal(Seq::filter);
    if s.len() > 0 {
        assert forall|i: int| 0 <= i < s.drop_last().len() implies pred(#[trigger] s.drop_last()[i]) by {
            assert(s.drop_last()[i] == s[i]);
        }
        lemma_filter_keeps_all(s.drop_last(), pred);
        assert(s.drop_last().push(s.last()) =~= s);
    }
}

/// Shift-clicking an entry that is not selected twice leaves the selection as it was.
pub proof fn law_shift_click_twice_restores(sel: Seq<entry::Id>, id: entry::Id)
    requires
        !sel.contains(id),
    ensures
        toggled_selection(toggled_selection(sel, id), id) == sel,
{
    let pred = other_than(id);
    let pushed = sel.push(id);
    assert(pushed.contains(id)) by {
        assert(pushed[sel.len() as int] == id);
    }
    assert(pushed.drop_last() =~= sel);
    assert forall|i: int| 0 <= i < sel.len() implies pred(#[trigger] sel[i]) by {}
    lemma_filter_keeps_all(sel, pred);
    reveal(Seq::filter);
    assert(pushed.filter(pred) == sel.filter(pred));
}

/// A click with shift held on the entry `id`: it leaves the selection (every occurrence)
/// if it is there, and joins it otherwise.
pub fn toggle_selected(buf: &mut SelectionBuf, id: entry::Id)
    ensures
        final(buf).name == old(buf).name,
        final(buf).buf@ == toggled_selection(old(buf).buf@, id),
{
    if buf.contains(&id) {
        let ghost src = buf.buf@;
        let mut kept: Vec<entry::Id> = Vec::new();
        let mut i: usize = 0;
        while i < buf.buf.len()
            invariant
                i <= src.len(),
                buf.buf@ == src,
                kept@ == src.take(i as int).filter(other_than(id)),
            decreases src.len() - i,
        {
            proof {
                assert(src.take(i + 1).drop_last() =~= src.take(i as int));
                reveal(Seq::filter);
            }
            if buf.buf[i] != id {
                kept.push(buf.buf[i]);
            }
            i = i + 1;
        }
        proof {
            assert(src.take(src.len() as int) =~= src);
        }
        buf.buf = kept;
    } else {
        buf.buf.push(id);
    }
}

/// `n` capped at `len`.
pub open spec fn capped(n: int, len: int) -> int {
    if n < len {
        n
    } else {
        len
    }
}

/// A click with control held on the entry at position `idx` of `ids`: the first such
/// click marks where a range begins; the second adds the entries from there up to and
/// including `idx` (as far as `ids` goes) to the selection, and clears the mark.
pub fn range_select(buf: &mut SelectionBuf, select_begin: &mut Option<usize>, ids: &[entry::Id], idx: usize)
    requires
        idx < usize::MAX,
        *old(select_begin) matches Some(b) ==> b <= idx + 1,
    ensures
        final(buf).name == old(buf).name,
        match *old(select_begin) {
            Some(b) => final(buf).buf@ == old(buf).buf@ + ids@.subrange(
                capped(b as int, ids@.len() as int),
                capped(idx + 1, ids@.len() as int),
            ) && *final(select_begin) is None,
            None => final(buf).buf@ == old(buf).buf@ && *final(select_begin) == Some(idx),
        },
{
    match *select_begin {
        Some(begin) => {
            let end = if idx + 1 < ids.len() {
                idx + 1
            } else {
                ids.len()
            };
            let start = if begin < ids.len() {
                begin
            } else {
                ids.len()
            };
            let mut i: usize = start;
            while i < end
                invariant
                    start <= i <= end,
                    end <= ids@.len(),
                    buf.buf@ == old(buf).buf@ + ids@.subrange(start as int, i as int),
                    buf.name == old(buf).name,
                decreases end - i,
            {
                buf.buf.push(ids[i]);
                i = i + 1;
                proof {
                    assert(buf.buf@ =~= old(buf).buf@ + ids@.subrange(start as int, i as int));
                }
            }
            *select_begin = None;
        },
        None => {
            *select_begin = Some(idx);
        },
    }
}

/// Replaces the selection with the entries of `coll` that meet `reqs`, in order.
pub fn select_all(buf: &mut SelectionBuf, coll: &Collection, reqs: &Requirements)
    requires
        coll.wf(),
    ensures
        final(buf).name == old(buf).name,
        final(buf).buf@ == coll.entries.pairs().filter(
            |p: (u64, Entry)| reqs_hold(*reqs, entry::Id(p.0), p.1, coll.tags@, coll.sequences@),
        ).map_values(|p: (u64, Entry)| entry::Id(p.0)),
{
    let ids = coll.filter(reqs);
    buf.clear();
    buf.extend(ids.as_slice());
}

} // verus!
