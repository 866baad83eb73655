//! Adding entries to a sequence, in the order of their paths.
use vstd::prelude::*;

use crate::collection::Collection;
use crate::entry::{self, Entry};
use crate::id_map::IdMap;
use crate::sequence;
use crate::util::path::{path_lt, path_precedes};

verus! {

broadcast use vstd::seq_lib::to_multiset_build, vstd::seq_lib::to_multiset_insert, vstd::seq_lib::to_multiset_len;

/// Whether, along `ids`, no entry's path sorts before the path of the entry before it.
pub open spec fn sorted_by_path(entries: Map<u64, Entry>, ids: Seq<entry::Id>) -> bool {
    forall|j: int|
        #![trigger ids[j]]
        0 <= j < ids.len() - 1 ==> !path_lt(entries[ids[j + 1].0].path@, entries[ids[j].0].path@)
}

/// Whether the entry `x` has the path `p`.
pub open spec fn has_path(entries: Map<u64, Entry>, p: Seq<char>) -> spec_fn(entry::Id) -> bool {
    |x: entry::Id| entries[x.0].path@ == p
}

/// The ids of `ids` whose entries have the path `p`, in their order along `ids`.
pub open spec fn with_path(entries: Map<u64, Entry>, ids: Seq<entry::Id>, p: Seq<char>) -> Seq<entry::Id> {
    ids.filter(has_path(entries, p))
}

/// Filtering a sequence none of whose items passes gives the empty sequence.
pub proof fn lemma_filter_none<A>(s: Seq<A>, f: spec_fn(A) -> bool)
    requires
        forall|t: int| 0 <= t < s.len() ==> !f(#[trigger] s[t]),
    ensures
        s.filter(f) == Seq::<A>::empty(),
    decreases s.len(),
{
    reveal(Seq::filter);
    if s.len() > 0 {
        lemma_filter_none(s.drop_last(), f);
        assert(!f(s[s.len() - 1]));
    }
}

/// Filtering after inserting `x` at `q`: where `x` passes and nothing from `q` on does,
/// `x` comes last among the items that pass.
pub proof fn lemma_filter_insert<A>(s: Seq<A>, q: int, x: A, f: spec_fn(A) -> bool)
    requires
        0 <= q <= s.len(),
        f(x) ==> forall|t: int| q <= t < s.len() ==> !f(#[trigger] s[t]),
    ensures
        s.insert(q, x).filter(f) == if f(x) {
            s.filter(f).push(x)
        } else {
            s.filter(f)
        },
{
    let a = s.take(q);
    let b = s.skip(q);
    assert(s =~= a + b);
    assert(s.insert(q, x) =~= a.push(x) + b);
    Seq::filter_distributes_over_add(a, b, f);
    Seq::filter_distributes_over_add(a.push(x), b, f);
    a.lemma_filter_push(x, f);
    if f(x) {
        assert forall|t: int| 0 <= t < b.len() implies !f(#[trigger] b[t]) by {
            assert(b[t] == s[q + t]);
        }
        lemma_filter_none(b, f);
        assert(a.filter(f) + b.filter(f) =~= a.filter(f));
        assert(a.filter(f).push(x) + b.filter(f) =~= a.filter(f).push(x));
    }
}

/// Whether neither of the paths `a` and `b` sorts before the other.
pub open spec fn paths_tied(a: Seq<char>, b: Seq<char>) -> bool {
    !path_lt(a, b) && !path_lt(b, a)
}

/// Whether `r` is `ids` rearranged by `perm` (`r[k]` is `ids[perm[k]]`, each position of
/// `ids` taken once), with any two entries whose paths are tied left in their order along
/// `ids`.
pub open spec fn stable_rearrangement(
    entries: Map<u64, Entry>,
    ids: Seq<entry::Id>,
    r: Seq<entry::Id>,
    perm: Seq<int>,
) -> bool {
    &&& perm.len() == r.len()
    &&& r.len() == ids.len()
    &&& forall|k: int| 0 <= k < r.len() ==> 0 <= #[trigger] perm[k] < ids.len() && r[k] == ids[perm[k]]
    &&& forall|k1: int, k2: int|
        0 <= k1 < k2 < r.len() ==> #[trigger] perm[k1] != #[trigger] perm[k2] && (paths_tied(
            entries[r[k1].0].path@,
            entries[r[k2].0].path@,
        ) ==> perm[k1] < perm[k2])
}

/// `ids`, reordered by the paths of their entries (insertion sort from the back: an entry
/// goes after every entry whose path does not sort after its own, so entries with the
/// same path keep their order).
pub fn sort_by_path(entries: &Collection, ids: &[entry::Id]) -> (r: Vec<entry::Id>)
    requires
        entries.entries.wf(),
        forall|t: int| 0 <= t < ids@.len() ==> entries.entries@.dom().contains(#[trigger] ids@[t].0),
    ensures
        r@.to_multiset() == ids@.to_multiset(),
        sorted_by_path(entries.entries@, r@),
        forall|p: Seq<char>| #[trigger] with_path(entries.entries@, r@, p) == with_path(entries.entries@, ids@, p),
        exists|perm: Seq<int>| stable_rearrangement(entries.entries@, ids@, r@, perm),
{
    let ghost m = entries.entries@;
    let ghost mut perm: Seq<int> = Seq::empty();
    let mut sorted: Vec<entry::Id> = Vec::new();
    let mut keys: Vec<String> = Vec::new();
    let mut i: usize = 0;
    proof {
        assert(sorted@ =~= ids@.take(0));
    }
    while i < ids.len()
        invariant
            i <= ids@.len(),
            m == entries.entries@,
            entries.entries.wf(),
            forall|t: int| 0 <= t < ids@.len() ==> m.dom().contains(#[trigger] ids@[t].0),
            sorted@.to_multiset() == ids@.take(i as int).to_multiset(),
            keys@.len() == sorted@.len(),
            forall|j: int| 0 <= j < sorted@.len() ==> #[trigger] keys@[j]@ == m[sorted@[j].0].path@,
            sorted_by_path(m, sorted@),
            forall|p: Seq<char>| #[trigger] with_path(m, sorted@, p) == with_path(m, ids@.take(i as int), p),
            stable_rearrangement(m, ids@.take(i as int), sorted@, perm),
        decreases ids@.len() - i,
    {
        let id = ids[i];
        let key = match entries.entries.get(id.0) {
            Some(en) => en.path.clone(),
            None => String::new(),
        };
        proof {
            assert(m.dom().contains(ids@[i as int].0));
        }
        let mut p: usize = sorted.len();
        while p > 0 && path_precedes(key.as_str(), keys[p - 1].as_str())
            invariant
                p <= sorted@.len(),
                keys@.len() == sorted@.len(),
                forall|q: int|
                    p <= q < sorted@.len() ==> path_lt(key@, #[trigger] keys@[q]@) && !path_lt(keys@[q]@, key@)
                        && keys@[q]@ != key@,
            decreases p,
        {
            p = p - 1;
        }
        let ghost before = sorted@;
        let ghost before_keys = keys@;
        proof {
            if p > 0 {
                assert(!path_lt(key@, keys@[p - 1]@));
            }
        }
        sorted.insert(p, id);
        keys.insert(p, key);
        proof {
            assert(ids@.take(i + 1) =~= ids@.take(i as int).push(id));
            assert forall|j: int| 0 <= j < sorted@.len() implies #[trigger] keys@[j]@ == m[sorted@[j].0].path@ by {
                if j < p {
                    assert(keys@[j] == before_keys[j]);
                } else if j > p {
                    assert(keys@[j] == before_keys[j - 1]);
                }
            }
            assert forall|j: int| #![trigger sorted@[j]] 0 <= j < sorted@.len() - 1 implies !path_lt(
                m[sorted@[j + 1].0].path@,
                m[sorted@[j].0].path@,
            ) by {
                assert(keys@[j]@ == m[sorted@[j].0].path@);
                assert(keys@[j + 1]@ == m[sorted@[j + 1].0].path@);
                if j + 1 < p {
                    assert(before[j] == sorted@[j]);
                    assert(before[j + 1] == sorted@[j + 1]);
                } else if j + 1 == p {
                    assert(keys@[j] == before_keys[j]);
                } else if j == p {
                    assert(keys@[j + 1] == before_keys[j]);
                } else {
                    assert(before[j - 1] == sorted@[j]);
                    assert(before[j] == sorted@[j + 1]);
                }
            }
            assert forall|pp: Seq<char>| #[trigger] with_path(m, sorted@, pp) == with_path(m, ids@.take(i + 1), pp) by {
                let f = has_path(m, pp);
                assert forall|t: int| p <= t < before.len() && f(id) implies !f(#[trigger] before[t]) by {
                    assert(before_keys[t]@ == m[before[t].0].path@);
                    assert(before_keys[t]@ != key@);
                }
                lemma_filter_insert(before, p as int, id, f);
                ids@.take(i as int).lemma_filter_push(id, f);
                assert(with_path(m, before, pp) == with_path(m, ids@.take(i as int), pp));
            }
            let old_perm = perm;
            let tk = ids@.take(i as int);
            let tk1 = ids@.take(i + 1);
            perm = perm.insert(p as int, i as int);
            assert forall|k: int| 0 <= k < sorted@.len() implies 0 <= #[trigger] perm[k] < tk1.len()
                && sorted@[k] == tk1[perm[k]] by {
                if k < p {
                    assert(perm[k] == old_perm[k]);
                    assert(before[k] == tk[old_perm[k]]);
                } else if k > p {
                    assert(perm[k] == old_perm[k - 1]);
                    assert(before[k - 1] == tk[old_perm[k - 1]]);
                }
            }
            assert forall|k1: int, k2: int| 0 <= k1 < k2 < sorted@.len() implies #[trigger] perm[k1]
                != #[trigger] perm[k2] && (paths_tied(m[sorted@[k1].0].path@, m[sorted@[k2].0].path@)
                ==> perm[k1] < perm[k2]) by {
                if k2 < p {
                    assert(perm[k1] == old_perm[k1] && perm[k2] == old_perm[k2]);
                    assert(old_perm[k1] != old_perm[k2]);
                } else if k2 == p {
                    assert(perm[k1] == old_perm[k1]);
                    assert(old_perm[k1] < tk.len());
                } else if k1 == p {
                    assert(perm[k2] == old_perm[k2 - 1]);
                    assert(old_perm[k2 - 1] < tk.len());
                    assert(sorted@[k2] == before[k2 - 1]);
                    assert(before_keys[k2 - 1]@ == m[before[k2 - 1].0].path@);
                    assert(path_lt(key@, before_keys[k2 - 1]@));
                } else if k1 < p {
                    assert(perm[k1] == old_perm[k1] && perm[k2] == old_perm[k2 - 1]);
                    assert(sorted@[k2] == before[k2 - 1]);
                    assert(old_perm[k1] != old_perm[k2 - 1]);
                } else {
                    assert(perm[k1] == old_perm[k1 - 1] && perm[k2] == old_perm[k2 - 1]);
                    assert(sorted@[k1] == before[k1 - 1] && sorted@[k2] == before[k2 - 1]);
                    assert(old_perm[k1 - 1] != old_perm[k2 - 1]);
                }
            }
        }
        i = i + 1;
    }
    proof {
        assert(ids@.take(ids@.len() as int) =~= ids@);
    }
    sorted
}

impl Collection {
    /// Appends `entries` to the sequence `seq`, ordered by their paths (the order of
    /// `std::path::Path`).
    pub fn add_entries_to_sequence(&mut self, seq: sequence::Id, entries: &[entry::Id])
        requires
            old(self).wf(),
            old(self).sequences@.dom().contains(seq.0),
            forall|t: int|
                0 <= t < entries@.len() ==> old(self).entries@.dom().contains(#[trigger] entries@[t].0),
        ensures
            final(self).wf(),
            final(self).sequences@.dom() == old(self).sequences@.dom(),
            forall|k: u64|
                #[trigger] old(self).sequences@.dom().contains(k) && k != seq.0 ==> final(self).sequences@[k]
                    == old(self).sequences@[k],
            final(self).sequences@[seq.0].name == old(self).sequences@[seq.0].name,
            ({
                let before = old(self).sequences@[seq.0].entries@;
                let after = final(self).sequences@[seq.0].entries@;
                &&& after.len() == before.len() + entries@.len()
                &&& after.take(before.len() as int) == before
                &&& after.skip(before.len() as int).to_multiset() == entries@.to_multiset()
                &&& sorted_by_path(old(self).entries@, after.skip(before.len() as int))
                &&& forall|p: Seq<char>| #[trigger] with_path(old(self).entries@, after.skip(before.len() as int), p)
                    == with_path(old(self).entries@, entries@, p)
                &&& exists|perm: Seq<int>| stable_rearrangement(old(self).entries@, entries@, after.skip(before.len() as int), perm)
            }),
            final(self).sequences.key_seq() == old(self).sequences.key_seq(),
            final(self).entries == old(self).entries,
            final(self).tags == old(self).tags,
            final(self).tag_specific_apps == old(self).tag_specific_apps,
            final(self).ignored_extensions == old(self).ignored_extensions,
    {
        let sorted = sort_by_path(self, entries);
        let pos = match self.sequences.find(seq.0) {
            Some(pos) => pos,
            None => {
                return;
            },
        };
        proof {
            self.sequences.lemma_view_at(pos as int);
        }
        let ghost old_m = self.sequences;
        let ghost before = old_m.pairs()[pos as int].1.entries@;
        let s = self.sequences.value_at_mut(pos);
        let mut k: usize = 0;
        while k < sorted.len()
            invariant
                k <= sorted@.len(),
                s.entries@ == before + sorted@.take(k as int),
                s.name == old_m.pairs()[pos as int].1.name,
            decreases sorted@.len() - k,
        {
            s.entries.push(sorted[k]);
            k = k + 1;
            proof {
                assert(s.entries@ =~= before + sorted@.take(k as int));
            }
        }
        proof {
            let new_s = self.sequences.pairs()[pos as int].1;
            IdMap::lemma_update_view(&old_m, &self.sequences, pos as int, new_s);
            assert(sorted@.take(sorted@.len() as int) =~= sorted@);
            let after = self.sequences@[seq.0].entries@;
            assert(after =~= before + sorted@);
            assert(sorted@.len() == sorted@.to_multiset().len());
            assert(entries@.len() == entries@.to_multiset().len());
            assert(after.take(before.len() as int) =~= before);
            assert(after.skip(before.len() as int) =~= sorted@);
            assert(self.sequences.key_seq() =~= old_m.key_seq());
        }
    }
}

} // verus!
