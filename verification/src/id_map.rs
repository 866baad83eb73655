//! A map from unique ids to values, kept in insertion order.
use vstd::prelude::*;

verus! {

/// The elements of `s` at the positions where `keep` is true, in order.
pub open spec fn masked<T>(s: Seq<T>, keep: Seq<bool>) -> Seq<T>
    decreases s.len(),
{
    if s.len() == 0 {
        s
    } else {
        let prev = masked(s.drop_last(), keep);
        if keep[s.len() - 1] {
            prev.push(s.last())
        } else {
            prev
        }
    }
}

/// Masking with the values of a predicate is filtering by it.
pub proof fn lemma_masked_filter<T>(s: Seq<T>, keep: Seq<bool>, pred: spec_fn(T) -> bool)
    requires
        keep.len() >= s.len(),
        forall|i: int| 0 <= i < s.len() ==> keep[i] == pred(s[i]),
    ensures
        masked(s, keep) == s.filter(pred),
    decreases s.len(),
{
    reveal(Seq::filter);
    if s.len() > 0 {
        lemma_masked_filter(s.drop_last(), keep, pred);
    }
}

/// Keeps the elements of `v` at the positions where `keep` is true, in order.
pub fn retain_by_mask<T>(v: &mut Vec<T>, keep: &Vec<bool>)
    requires
        keep@.len() == old(v)@.len(),
    ensures
        final(v)@ == masked(old(v)@, keep@),
{
    let ghost src = v@;
    let n = v.len();
    let mut i: usize = 0;
    let mut j: usize = 0;
    while i < n
        invariant
            i <= n,
            n == src.len(),
            keep@.len() == n,
            j == masked(src.take(i as int), keep@).len(),
            v@ == masked(src.take(i as int), keep@) + src.skip(i as int),
        decreases n - i,
    {
        proof {
            assert(src.take(i + 1).drop_last() =~= src.take(i as int));
            assert(src.take(i + 1).last() == src[i as int]);
            lemma_masked_elems(src.take(i as int), keep@);
        }
        if keep[i] {
            j = j + 1;
            proof {
                assert(v@ =~= masked(src.take(i + 1), keep@) + src.skip(i + 1));
            }
        } else {
            proof {
                assert(v@[j as int] == src[i as int]);
            }
            v.remove(j);
            proof {
                assert(v@ =~= masked(src.take(i + 1), keep@) + src.skip(i + 1));
            }
        }
        i = i + 1;
    }
    proof {
        assert(src.take(n as int) =~= src);
        assert(v@ =~= masked(src, keep@));
    }
}

/// Associates `u64` uids with values. Each uid occurs at most once, and the
/// pairs are kept in the order in which their uids were first inserted.
pub struct IdMap<V> {
    items: Vec<(u64, V)>,
}

impl<V> IdMap<V> {
    /// The (uid, value) pairs, in order.
    pub closed spec fn pairs(&self) -> Seq<(u64, V)> {
        self.items@
    }

    /// The uids, in order.
    pub open spec fn key_seq(&self) -> Seq<u64> {
        Seq::new(self.pairs().len(), |i: int| self.pairs()[i].0)
    }

    /// Well-formedness: no uid occurs twice.
    pub open spec fn wf(&self) -> bool {
        self.key_seq().no_duplicates()
    }

    pub open spec fn contains_key(&self, k: u64) -> bool {
        self.key_seq().contains(k)
    }

    pub open spec fn index_of_key(&self, k: u64) -> int {
        self.key_seq().index_of(k)
    }

    /// The map that the pairs describe.
    pub open spec fn view(&self) -> Map<u64, V> {
        Map::new(|k: u64| self.contains_key(k), |k: u64| self.pairs()[self.index_of_key(k)].1)
    }

    /// The value stored under the uid at position `i`.
    pub proof fn lemma_view_at(&self, i: int)
        requires
            self.wf(),
            0 <= i < self.pairs().len(),
        ensures
            self@.dom().contains(self.key_seq()[i]),
            self@[self.key_seq()[i]] == self.pairs()[i].1,
            self.index_of_key(self.key_seq()[i]) == i,
    {
        let k = self.key_seq()[i];
        assert(self.key_seq().contains(k));
        let j = self.index_of_key(k);
        assert(0 <= j < self.key_seq().len() && self.key_seq()[j] == k);
    }

    /// Every uid of the map stands at some position.
    pub proof fn lemma_key_index(&self, k: u64)
        requires
            self.wf(),
            self@.dom().contains(k),
        ensures
            0 <= self.index_of_key(k) < self.pairs().len(),
            self.key_seq()[self.index_of_key(k)] == k,
            self@[k] == self.pairs()[self.index_of_key(k)].1,
    {
    }

    /// Maps whose pairs have the same uids at the same positions have the same uid
    /// sequence.
    pub proof fn lemma_same_keys(a: &Self, b: &Self)
        requires
            a.pairs().len() == b.pairs().len(),
            forall|j: int| 0 <= j < a.pairs().len() ==> (#[trigger] a.pairs()[j]).0 == b.pairs()[j].0,
        ensures
            a.key_seq() == b.key_seq(),
            a@.dom() == b@.dom(),
    {
        assert(a.key_seq() =~= b.key_seq());
        assert(a@.dom() =~= b@.dom());
    }

    pub fn new() -> (r: Self)
        ensures
            r.wf(),
            r.pairs() == Seq::<(u64, V)>::empty(),
            r@ == Map::<u64, V>::empty(),
    {
        let r = IdMap { items: Vec::new() };
        assert(r@ =~= Map::<u64, V>::empty());
        r
    }

    pub fn len(&self) -> (r: usize)
        ensures
            r == self.pairs().len(),
    {
        self.items.len()
    }

    pub fn key_at(&self, i: usize) -> (r: u64)
        requires
            i < self.pairs().len(),
        ensures
            r == self.key_seq()[i as int],
    {
        self.items[i].0
    }

    pub fn value_at(&self, i: usize) -> (r: &V)
        requires
            i < self.pairs().len(),
        ensures
            *r == self.pairs()[i as int].1,
    {
        &self.items[i].1
    }

    /// Mutable access to the value at position `i`; the uids stay as they are.
    pub fn value_at_mut(&mut self, i: usize) -> (r: &mut V)
        requires
            i < old(self).pairs().len(),
        ensures
            *r == old(self).pairs()[i as int].1,
            final(self).pairs() == old(self).pairs().update(
                i as int,
                (old(self).pairs()[i as int].0, *final(r)),
            ),
    {
        &mut self.items[i].1
    }

    /// The position of `k`, if it is a uid of the map.
    pub fn find(&self, k: u64) -> (r: Option<usize>)
        requires
            self.wf(),
        ensures
            match r {
                Some(i) => i < self.pairs().len() && self.key_seq()[i as int] == k && i
                    == self.index_of_key(k),
                None => !self.contains_key(k),
            },
            r is Some <==> self@.dom().contains(k),
    {
        let mut i: usize = 0;
        while i < self.items.len()
            invariant
                i <= self.pairs().len(),
                self.wf(),
                self.pairs() == self.items@,
                forall|j: int| 0 <= j < i ==> self.key_seq()[j] != k,
            decreases self.items.len() - i,
        {
            if self.items[i].0 == k {
                proof {
                    self.lemma_view_at(i as int);
                }
                return Some(i);
            }
            i = i + 1;
        }
        None
    }

    pub fn contains(&self, k: u64) -> (r: bool)
        requires
            self.wf(),
        ensures
            r == self@.dom().contains(k),
    {
        self.find(k).is_some()
    }

    pub fn get(&self, k: u64) -> (r: Option<&V>)
        requires
            self.wf(),
        ensures
            match r {
                Some(v) => self@.dom().contains(k) && *v == self@[k],
                None => !self@.dom().contains(k),
            },
    {
        match self.find(k) {
            Some(i) => {
                proof {
                    self.lemma_view_at(i as int);
                }
                Some(&self.items[i].1)
            },
            None => None,
        }
    }

    /// The uids, in order.
    pub fn keys(&self) -> (r: Vec<u64>)
        ensures
            r@ == self.key_seq(),
    {
        let mut r: Vec<u64> = Vec::new();
        let mut i: usize = 0;
        while i < self.items.len()
            invariant
                i <= self.pairs().len(),
                self.pairs() == self.items@,
                r@ == self.key_seq().take(i as int),
            decreases self.items.len() - i,
        {
            r.push(self.items[i].0);
            i = i + 1;
            assert(r@ =~= self.key_seq().take(i as int));
        }
        assert(r@ =~= self.key_seq());
        r
    }

    /// Replacing the value at a position changes the map at that uid only.
    pub proof fn lemma_update_view(old_m: &Self, new_m: &Self, i: int, v: V)
        requires
            old_m.wf(),
            0 <= i < old_m.pairs().len(),
            new_m.pairs() == old_m.pairs().update(i, (old_m.pairs()[i].0, v)),
        ensures
            new_m.wf(),
            new_m.key_seq() == old_m.key_seq(),
            new_m@ == old_m@.insert(old_m.key_seq()[i], v),
    {
        assert(new_m.key_seq() =~= old_m.key_seq());
        let k = old_m.key_seq()[i];
        assert forall|kk: u64| #[trigger] new_m@.dom().contains(kk) implies new_m@[kk] == old_m@.insert(
            k,
            v,
        )[kk] by {
            let j = new_m.index_of_key(kk);
            new_m.lemma_key_index(kk);
            old_m.lemma_view_at(j);
        }
        assert(new_m@ =~= old_m@.insert(k, v));
    }

    /// Appending a pair with a new uid.
    pub proof fn lemma_push_view(old_m: &Self, new_m: &Self, k: u64, v: V)
        requires
            old_m.wf(),
            !old_m@.dom().contains(k),
            new_m.pairs() == old_m.pairs().push((k, v)),
        ensures
            new_m.wf(),
            new_m.key_seq() == old_m.key_seq().push(k),
            new_m@ == old_m@.insert(k, v),
    {
        assert(new_m.key_seq() =~= old_m.key_seq().push(k));
        assert forall|kk: u64| #[trigger] new_m@.dom().contains(kk) implies new_m@[kk] == old_m@.insert(
            k,
            v,
        )[kk] by {
            let j = new_m.index_of_key(kk);
            new_m.lemma_key_index(kk);
            if j < old_m.pairs().len() {
                old_m.lemma_view_at(j);
            }
        }
        assert forall|kk: u64| #[trigger] old_m@.insert(k, v).dom().contains(kk) implies new_m@.dom().contains(kk) by {
            if kk != k {
                let j = old_m.index_of_key(kk);
                old_m.lemma_key_index(kk);
                assert(new_m.key_seq()[j] == kk);
            } else {
                assert(new_m.key_seq()[old_m.pairs().len() as int] == k);
            }
        }
        assert(new_m@ =~= old_m@.insert(k, v));
    }

    /// Inserts `v` under `k`, replacing any value already there (its position is kept);
    /// a new uid goes at the end.
    pub fn insert(&mut self, k: u64, v: V) -> (r: Option<V>)
        requires
            old(self).wf(),
        ensures
            final(self).wf(),
            final(self)@ == old(self)@.insert(k, v),
            old(self)@.dom().contains(k) ==> final(self).key_seq() == old(self).key_seq() && r
                == Some(old(self)@[k]),
            !old(self)@.dom().contains(k) ==> final(self).key_seq() == old(self).key_seq().push(k)
                && r is None,
            !old(self)@.dom().contains(k) ==> final(self).pairs() == old(self).pairs().push((k, v)),
    {
        match self.find(k) {
            Some(i) => {
                proof {
                    self.lemma_view_at(i as int);
                }
                let ghost old_m = *self;
                let k0 = self.items[i].0;
                let mut old_pair = (k0, v);
                std::mem::swap(&mut self.items[i], &mut old_pair);
                proof {
                    Self::lemma_update_view(&old_m, self, i as int, v);
                }
                Some(old_pair.1)
            },
            None => {
                let ghost old_m = *self;
                self.items.push((k, v));
                proof {
                    Self::lemma_push_view(&old_m, self, k, v);
                }
                None
            },
        }
    }

    /// Removing the pair at position `i`.
    pub proof fn lemma_remove_view(old_m: &Self, new_m: &Self, i: int)
        requires
            old_m.wf(),
            0 <= i < old_m.pairs().len(),
            new_m.pairs() == old_m.pairs().remove(i),
        ensures
            new_m.wf(),
            new_m.key_seq() == old_m.key_seq().remove(i),
            new_m@ == old_m@.remove(old_m.key_seq()[i]),
    {
        let k = old_m.key_seq()[i];
        assert(new_m.key_seq() =~= old_m.key_seq().remove(i));
        assert forall|a: int, b: int|
            0 <= a < b < new_m.key_seq().len() implies new_m.key_seq()[a] != new_m.key_seq()[b] by {
            let a2 = if a < i {
                a
            } else {
                a + 1
            };
            let b2 = if b < i {
                b
            } else {
                b + 1
            };
            assert(old_m.key_seq()[a2] != old_m.key_seq()[b2]);
        }
        assert forall|kk: u64| #[trigger] new_m@.dom().contains(kk) implies old_m@.remove(
            k,
        ).dom().contains(kk) && new_m@[kk] == old_m@.remove(k)[kk] by {
            let j = new_m.index_of_key(kk);
            new_m.lemma_key_index(kk);
            let j2 = if j < i {
                j
            } else {
                j + 1
            };
            old_m.lemma_view_at(j2);
        }
        assert forall|kk: u64| #[trigger] old_m@.remove(k).dom().contains(kk) implies new_m@.dom().contains(
            kk,
        ) by {
            let j = old_m.index_of_key(kk);
            old_m.lemma_key_index(kk);
            let j2 = if j < i {
                j
            } else {
                j - 1
            };
            assert(new_m.key_seq()[j2] == kk);
        }
        assert(new_m@ =~= old_m@.remove(k));
    }

    /// Removes the pair at position `i`, keeping the order of the others.
    pub fn remove_at(&mut self, i: usize) -> (r: (u64, V))
        requires
            old(self).wf(),
            i < old(self).pairs().len(),
        ensures
            final(self).wf(),
            r == old(self).pairs()[i as int],
            final(self).pairs() == old(self).pairs().remove(i as int),
            final(self).key_seq() == old(self).key_seq().remove(i as int),
            final(self)@ == old(self)@.remove(old(self).key_seq()[i as int]),
    {
        let ghost old_m = *self;
        let r = self.items.remove(i);
        proof {
            Self::lemma_remove_view(&old_m, self, i as int);
        }
        r
    }

    /// Removes the value stored under `k`, if any.
    pub fn remove(&mut self, k: u64) -> (r: Option<V>)
        requires
            old(self).wf(),
        ensures
            final(self).wf(),
            final(self)@ == old(self)@.remove(k),
            match r {
                Some(v) => old(self)@.dom().contains(k) && v == old(self)@[k]
                    && final(self).key_seq() == old(self).key_seq().remove(
                    old(self).index_of_key(k),
                ),
                None => !old(self)@.dom().contains(k) && final(self).pairs() == old(
                    self,
                ).pairs(),
            },
    {
        match self.find(k) {
            Some(i) => {
                proof {
                    self.lemma_view_at(i as int);
                }
                let (_, v) = self.remove_at(i);
                Some(v)
            },
            None => {
                assert(self@ =~= self@.remove(k));
                None
            },
        }
    }

    /// Keeps the pairs at the positions where `keep` is true, in order.
    pub fn retain_mask(&mut self, keep: &Vec<bool>)
        requires
            old(self).wf(),
            keep@.len() == old(self).pairs().len(),
        ensures
            final(self).wf(),
            final(self).pairs() == masked(old(self).pairs(), keep@),
            forall|i: int|
                0 <= i < old(self).pairs().len() ==> (#[trigger] keep@[i] ==> final(self)@.dom().contains(
                    old(self).key_seq()[i],
                ) && final(self)@[old(self).key_seq()[i]] == old(self).pairs()[i].1),
            forall|i: int|
                0 <= i < old(self).pairs().len() ==> (!#[trigger] keep@[i] ==> !final(self)@.dom().contains(
                    old(self).key_seq()[i],
                )),
            forall|k: u64| #[trigger] final(self)@.dom().contains(k) ==> old(self)@.dom().contains(k),
    {
        let ghost src = self.items@;
        let n = self.items.len();
        let mut i: usize = 0;
        let mut j: usize = 0;
        while i < n
            invariant
                i <= n,
                n == src.len(),
                keep@.len() == n,
                j == masked(src.take(i as int), keep@).len(),
                self.items@ == masked(src.take(i as int), keep@) + src.skip(i as int),
            decreases n - i,
        {
            proof {
                assert(src.take(i + 1).drop_last() =~= src.take(i as int));
                assert(src.take(i + 1).last() == src[i as int]);
                lemma_masked_elems(src.take(i as int), keep@);
            }
            if keep[i] {
                j = j + 1;
                proof {
                    assert(self.items@ =~= masked(src.take(i + 1), keep@) + src.skip(i + 1));
                }
            } else {
                proof {
                    assert(self.items@[j as int] == src[i as int]);
                }
                self.items.remove(j);
                proof {
                    assert(self.items@ =~= masked(src.take(i + 1), keep@) + src.skip(i + 1));
                }
            }
            i = i + 1;
        }
        proof {
            assert(src.take(n as int) =~= src);
            assert(self.items@ =~= masked(src, keep@));
            let old_m = old(self);
            lemma_masked_elems(src, keep@);
            lemma_masked_keys_unique(src, keep@);
            assert(self.key_seq() =~= Seq::new(masked(src, keep@).len(), |a: int| masked(src, keep@)[a].0));
            assert forall|a: int| 0 <= a < src.len() && #[trigger] keep@[a] implies self@.dom().contains(
                old_m.key_seq()[a],
            ) && self@[old_m.key_seq()[a]] == old_m.pairs()[a].1 by {
                assert(masked(src, keep@).contains(src[a]));
                let b = choose|b: int| 0 <= b < masked(src, keep@).len() && masked(src, keep@)[b] == src[a];
                assert(self.key_seq()[b] == old_m.key_seq()[a]);
                self.lemma_view_at(b);
            }
            assert forall|a: int| 0 <= a < src.len() && !#[trigger] keep@[a] implies !self@.dom().contains(
                old_m.key_seq()[a],
            ) by {
                if self@.dom().contains(old_m.key_seq()[a]) {
                    let b = self.index_of_key(old_m.key_seq()[a]);
                    self.lemma_key_index(old_m.key_seq()[a]);
                    assert(masked(src, keep@).contains(masked(src, keep@)[b]));
                    let c = choose|c: int| 0 <= c < src.len() && keep@[c] && src[c] == masked(src, keep@)[b];
                    assert(old_m.key_seq()[c] == old_m.key_seq()[a]);
                }
            }
            assert forall|k: u64| #[trigger] self@.dom().contains(k) implies old_m@.dom().contains(k) by {
                let b = self.index_of_key(k);
                self.lemma_key_index(k);
                assert(masked(src, keep@).contains(masked(src, keep@)[b]));
                let c = choose|c: int| 0 <= c < src.len() && keep@[c] && src[c] == masked(src, keep@)[b];
                assert(old_m.key_seq()[c] == k);
            }
        }
    }
}

/// Every element of a masked sequence comes from a kept position, and every kept
/// position's element is in it.
pub proof fn lemma_masked_elems<T>(s: Seq<T>, keep: Seq<bool>)
    ensures
        forall|x: T| #[trigger] masked(s, keep).contains(x) ==> exists|j: int| 0 <= j < s.len() && keep[j] && s[j] == x,
        forall|j: int| 0 <= j < s.len() && keep[j] ==> masked(s, keep).contains(#[trigger] s[j]),
        masked(s, keep).len() <= s.len(),
    decreases s.len(),
{
    if s.len() > 0 {
        let d = s.drop_last();
        lemma_masked_elems(d, keep);
        assert forall|x: T| #[trigger] masked(s, keep).contains(x) implies exists|j: int| 0 <= j < s.len() && keep[j] && s[j] == x by {
            if masked(d, keep).contains(x) {
                let j = choose|j: int| 0 <= j < d.len() && keep[j] && d[j] == x;
                assert(s[j] == x);
            } else {
                assert(keep[s.len() - 1] && x == s.last());
            }
        }
        assert forall|j: int| 0 <= j < s.len() && keep[j] implies masked(s, keep).contains(#[trigger] s[j]) by {
            if j < s.len() - 1 {
                assert(d[j] == s[j]);
                assert(masked(d, keep).contains(d[j]));
                let b = choose|b: int| 0 <= b < masked(d, keep).len() && masked(d, keep)[b] == d[j];
                if keep[s.len() - 1] {
                    assert(masked(s, keep)[b] == s[j]);
                }
            } else {
                assert(masked(s, keep).last() == s[j]);
            }
        }
    }
}

/// Masking keeps uids unique.
pub proof fn lemma_masked_keys_unique<V>(s: Seq<(u64, V)>, keep: Seq<bool>)
    requires
        Seq::new(s.len(), |i: int| s[i].0).no_duplicates(),
    ensures
        Seq::new(masked(s, keep).len(), |i: int| masked(s, keep)[i].0).no_duplicates(),
    decreases s.len(),
{
    if s.len() > 0 {
        let d = s.drop_last();
        assert(Seq::new(d.len(), |i: int| d[i].0).no_duplicates()) by {
            assert forall|a: int, b: int| 0 <= a < b < d.len() implies d[a].0 != d[b].0 by {
                assert(Seq::new(s.len(), |i: int| s[i].0)[a] == d[a].0);
                assert(Seq::new(s.len(), |i: int| s[i].0)[b] == d[b].0);
            }
        }
        lemma_masked_keys_unique(d, keep);
        lemma_masked_elems(d, keep);
        let m = masked(s, keep);
        let md = masked(d, keep);
        if keep[s.len() - 1] {
            assert forall|a: int, b: int| 0 <= a < b < m.len() implies m[a].0 != m[b].0 by {
                if b == m.len() - 1 {
                    assert(md.contains(md[a]));
                    let j = choose|j: int| 0 <= j < d.len() && keep[j] && d[j] == md[a];
                    assert(Seq::new(s.len(), |i: int| s[i].0)[j] == d[j].0);
                    assert(Seq::new(s.len(), |i: int| s[i].0)[s.len() - 1] == s.last().0);
                } else {
                    assert(Seq::new(md.len(), |i: int| md[i].0)[a] == md[a].0);
                    assert(Seq::new(md.len(), |i: int| md[i].0)[b] == md[b].0);
                }
            }
        }
    }
}

} // verus!
