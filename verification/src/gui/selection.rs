//! Selection buffers: named lists of selected entries, one of which is current.
use vstd::prelude::*;

use crate::entry;
use crate::filter_spec::removed_first;
use crate::sequence::entry_position;
use crate::util::position::first_pos;

verus! {

/// A named list of selected entries.
pub struct SelectionBuf {
    pub buf: Vec<entry::Id>,
    pub name: String,
}

impl SelectionBuf {
    /// An empty buffer called `name`.
    pub fn new(name: String) -> (r: Self)
        ensures
            r.buf@ == Seq::<entry::Id>::empty(),
            r.name == name,
    {
        SelectionBuf { buf: Vec::new(), name }
    }

    pub fn clear(&mut self)
        ensures
            final(self).buf@ == Seq::<entry::Id>::empty(),
            final(self).name == old(self).name,
    {
        self.buf.clear();
    }

    /// Appends `ids`, in order.
    pub fn extend(&mut self, ids: &[entry::Id])
        ensures
            final(self).buf@ == old(self).buf@ + ids@,
            final(self).name == old(self).name,
    {
        let mut i: usize = 0;
        while i < ids.len()
            invariant
                i <= ids@.len(),
                self.buf@ == old(self).buf@ + ids@.take(i as int),
                self.name == old(self).name,
            decreases ids@.len() - i,
        {
            self.buf.push(ids[i]);
            i = i + 1;
            proof {
                assert(self.buf@ =~= old(self).buf@ + ids@.take(i as int));
            }
        }
        proof {
            assert(ids@.take(ids@.len() as int) =~= ids@);
        }
    }

    pub fn as_vec(&self) -> (r: &Vec<entry::Id>)
        ensures
            r == &self.buf,
    {
        &self.buf
    }

    /// Removes the id at position `idx`.
    pub fn remove(&mut self, idx: usize)
        requires
            idx < old(self).buf@.len(),
        ensures
            final(self).buf@ == old(self).buf@.remove(idx as int),
            final(self).name == old(self).name,
    {
        self.buf.remove(idx);
    }

    pub fn len(&self) -> (r: usize)
        ensures
            r == self.buf@.len(),
    {
        self.buf.len()
    }

    pub fn contains(&self, id: &entry::Id) -> (r: bool)
        ensures
            r == self.buf@.contains(*id),
    {
        entry_position(self.buf.as_slice(), *id).is_some()
    }
}

/// Several selection buffers, one of which is current. There is always at least one
/// buffer, and the current one is one of them.
pub struct SelectionBufs {
    current: usize,
    bufs: Vec<SelectionBuf>,
}

/// The name of the `n`-th buffer a user adds (counting from 1): `Sel n`.
pub open spec fn default_buf_name(n: Seq<char>) -> Seq<char> {
    seq!['S', 'e', 'l', ' '] + n
}

impl SelectionBufs {
    /// The position of the current buffer.
    pub closed spec fn current_index(&self) -> int {
        self.current as int
    }

    /// The buffers, in order.
    pub closed spec fn buffers(&self) -> Seq<SelectionBuf> {
        self.bufs@
    }

    /// There is a buffer, and the current position holds one.
    pub open spec fn wf(&self) -> bool {
        0 <= self.current_index() < self.buffers().len()
    }

    /// The current buffer.
    pub open spec fn current_buf(&self) -> SelectionBuf {
        self.buffers()[self.current_index()]
    }

    /// One empty buffer, `Sel 1`, which is current.
    pub fn new() -> (r: Self)
        ensures
            r.wf(),
            r.buffers().len() == 1,
            r.current_index() == 0,
            r.current_buf().buf@ == Seq::<entry::Id>::empty(),
            r.current_buf().name@ == default_buf_name(seq!['1']),
    {
        let name = String::from_str("Sel 1");
        proof {
            reveal_strlit("Sel 1");
            assert(name@ =~= default_buf_name(seq!['1']));
        }
        SelectionBufs { current: 0, bufs: vec![SelectionBuf::new(name)] }
    }

    pub fn current(&self) -> (r: Option<&SelectionBuf>)
        requires
            self.wf(),
        ensures
            r == Some(&self.current_buf()),
    {
        Some(&self.bufs[self.current])
    }

    /// Mutable access to the current buffer; the other buffers stay as they are.
    pub fn current_mut(&mut self) -> (r: &mut SelectionBuf)
        requires
            old(self).wf(),
        ensures
            *r == old(self).current_buf(),
            final(self).current_index() == old(self).current_index(),
            final(self).buffers() == old(self).buffers().update(old(self).current_index(), *final(r)),
    {
        let i = self.current;
        &mut self.bufs[i]
    }

    /// Adds an empty buffer called `name` at the end.
    pub fn add_buf(&mut self, name: String)
        requires
            old(self).wf(),
        ensures
            final(self).wf(),
            final(self).current_index() == old(self).current_index(),
            final(self).buffers().len() == old(self).buffers().len() + 1,
            final(self).buffers().take(old(self).buffers().len() as int) == old(self).buffers(),
            final(self).buffers().last().buf@ == Seq::<entry::Id>::empty(),
            final(self).buffers().last().name == name,
    {
        self.bufs.push(SelectionBuf::new(name));
        proof {
            assert(self.bufs@.take(old(self).bufs@.len() as int) =~= old(self).bufs@);
        }
    }

    /// How many entries the current buffer holds.
    pub fn n_selected(&self) -> (r: usize)
        requires
            self.wf(),
        ensures
            r == self.current_buf().buf@.len(),
    {
        self.bufs[self.current].len()
    }

    pub fn none_selected(&self) -> (r: bool)
        requires
            self.wf(),
        ensures
            r == (self.current_buf().buf@.len() == 0),
    {
        self.n_selected() == 0
    }

    /// The ids of the current buffer, where it holds any.
    pub fn current_as_nonempty_id_vec(&self) -> (r: Option<&Vec<entry::Id>>)
        requires
            self.wf(),
        ensures
            match r {
                Some(v) => v@ == self.current_buf().buf@ && v@.len() > 0,
                None => self.current_buf().buf@.len() == 0,
            },
    {
        let buf = &self.bufs[self.current];
        if buf.buf.len() == 0 {
            None
        } else {
            Some(buf.as_vec())
        }
    }

    /// The ids of the current buffer.
    pub fn selected_ids(&self) -> (r: &[entry::Id])
        requires
            self.wf(),
        ensures
            r@ == self.current_buf().buf@,
    {
        self.bufs[self.current].buf.as_slice()
    }

    pub fn current_contains(&self, id: &entry::Id) -> (r: bool)
        requires
            self.wf(),
        ensures
            r == self.current_buf().buf@.contains(*id),
    {
        self.bufs[self.current].contains(id)
    }

    /// Empties the current buffer.
    pub fn clear_current(&mut self)
        requires
            old(self).wf(),
        ensures
            final(self).wf(),
            final(self).current_index() == old(self).current_index(),
            final(self).buffers().len() == old(self).buffers().len(),
            final(self).current_buf().buf@ == Seq::<entry::Id>::empty(),
            final(self).current_buf().name == old(self).current_buf().name,
            forall|i: int|
                0 <= i < old(self).buffers().len() && i != old(self).current_index()
                    ==> #[trigger] final(self).buffers()[i] == old(self).buffers()[i],
    {
        let buf = self.current_mut();
        buf.clear();
    }

    /// Makes the buffer at position `i` current, where there is one.
    pub fn select(&mut self, i: usize)
        requires
            old(self).wf(),
        ensures
            final(self).wf(),
            final(self).buffers() == old(self).buffers(),
            final(self).current_index() == if i < old(self).buffers().len() {
                i as int
            } else {
                old(self).current_index()
            },
    {
        if i < self.bufs.len() {
            self.current = i;
        }
    }

    /// Puts every buffer, in order, through `f`, each in its place.
    pub fn for_each_mut<F: Fn(SelectionBuf) -> SelectionBuf>(&mut self, f: F)
        requires
            old(self).wf(),
            forall|b: SelectionBuf| f.requires((b,)),
        ensures
            final(self).wf(),
            final(self).current_index() == old(self).current_index(),
            final(self).buffers().len() == old(self).buffers().len(),
            forall|j: int|
                0 <= j < old(self).buffers().len() ==> f.ensures(
                    (old(self).buffers()[j],),
                    #[trigger] final(self).buffers()[j],
                ),
    {
        let mut i: usize = 0;
        while i < self.bufs.len()
            invariant
                forall|b: SelectionBuf| f.requires((b,)),
                i <= self.bufs@.len(),
                self.current == old(self).current,
                self.bufs@.len() == old(self).bufs@.len(),
                forall|j: int| 0 <= j < i ==> f.ensures((old(self).bufs@[j],), #[trigger] self.bufs@[j]),
                forall|j: int| i <= j < self.bufs@.len() ==> #[trigger] self.bufs@[j] == old(self).bufs@[j],
            decreases self.bufs@.len() - i,
        {
            let ghost before = self.bufs@;
            let buf = self.bufs.remove(i);
            let changed = f(buf);
            self.bufs.insert(i, changed);
            proof {
                assert forall|j: int| 0 <= j < self.bufs@.len() && j != i implies self.bufs@[j] == before[j] by {}
            }
            i = i + 1;
        }
    }

    /// Takes the first occurrence of `id` out of every buffer.
    pub fn remove_from_all(&mut self, id: entry::Id)
        requires
            old(self).wf(),
        ensures
            final(self).wf(),
            final(self).current_index() == old(self).current_index(),
            final(self).buffers().len() == old(self).buffers().len(),
            forall|i: int|
                0 <= i < old(self).buffers().len() ==> (#[trigger] final(self).buffers()[i]).buf@
                    == removed_first(old(self).buffers()[i].buf@, id) && final(self).buffers()[i].name
                    == old(self).buffers()[i].name,
    {
        let mut i: usize = 0;
        while i < self.bufs.len()
            invariant
                i <= self.bufs@.len(),
                self.current == old(self).current,
                self.bufs@.len() == old(self).bufs@.len(),
                forall|j: int|
                    0 <= j < i ==> (#[trigger] self.bufs@[j]).buf@ == removed_first(
                        old(self).bufs@[j].buf@,
                        id,
                    ) && self.bufs@[j].name == old(self).bufs@[j].name,
                forall|j: int| i <= j < self.bufs@.len() ==> #[trigger] self.bufs@[j] == old(self).bufs@[j],
            decreases self.bufs@.len() - i,
        {
            let buf = &mut self.bufs[i];
            match entry_position(buf.buf.as_slice(), id) {
                Some(idx) => {
                    buf.remove(idx);
                },
                None => {},
            }
            i = i + 1;
        }
    }

    /// Keeps the buffers at the positions where `keep` is true. The current position
    /// then moves back onto the last buffer if it fell past it, and if no buffer is left,
    /// an empty `Sel 1` takes their place.
    pub fn retain_bufs(&mut self, keep: &Vec<bool>)
        requires
            old(self).wf(),
            keep@.len() == old(self).buffers().len(),
        ensures
            final(self).wf(),
            ({
                let kept = crate::id_map::masked(old(self).buffers(), keep@);
                if kept.len() == 0 {
                    &&& final(self).buffers().len() == 1
                    &&& final(self).current_index() == 0
                    &&& final(self).current_buf().buf@ == Seq::<entry::Id>::empty()
                    &&& final(self).current_buf().name@ == default_buf_name(seq!['1'])
                } else {
                    &&& final(self).buffers() == kept
                    &&& final(self).current_index() == if old(self).current_index() < kept.len() {
                        old(self).current_index()
                    } else {
                        kept.len() - 1
                    }
                }
            }),
    {
        crate::id_map::retain_by_mask(&mut self.bufs, keep);
        if self.bufs.len() == 0 {
            let name = String::from_str("Sel 1");
            proof {
                reveal_strlit("Sel 1");
                assert(name@ =~= default_buf_name(seq!['1']));
            }
            self.current = 0;
            self.bufs.push(SelectionBuf::new(name));
        } else if self.current >= self.bufs.len() {
            self.current = self.bufs.len() - 1;
        }
    }

    /// Renames the buffer at position `i`, where there is one.
    pub fn rename_buf(&mut self, i: usize, name: String)
        requires
            old(self).wf(),
        ensures
            final(self).wf(),
            final(self).current_index() == old(self).current_index(),
            final(self).buffers().len() == old(self).buffers().len(),
            forall|j: int|
                0 <= j < old(self).buffers().len() ==> (#[trigger] final(self).buffers()[j]).buf
                    == old(self).buffers()[j].buf,
            forall|j: int|
                0 <= j < old(self).buffers().len() ==> (#[trigger] final(self).buffers()[j]).name
                    == if j == i {
                    name
                } else {
                    old(self).buffers()[j].name
                },
    {
        if i < self.bufs.len() {
            let buf = &mut self.bufs[i];
            buf.name = name;
        }
    }
}

} // verus!
