//! Keeping a collection in step with the files under its root.
use vstd::prelude::*;

use crate::collection::{Collection, Entries};
use crate::db::{FolderChanges, UidCounter};
use crate::entry;
use crate::entry::Entry;
use crate::id_map::masked;
use crate::util::path::{extension_of, path_extension, paths_equal, same_path};
use crate::util::string::str_eq;

verus! {

/// Whether `p` is one of `paths`.
pub open spec fn lists_path(paths: Seq<String>, p: Seq<char>) -> bool {
    exists|t: int| 0 <= t < paths.len() && #[trigger] paths[t]@ == p
}

/// Whether `a` and `b` are the same path: the same text, or equal as `Path` values.
pub open spec fn path_eq(a: Seq<char>, b: Seq<char>) -> bool {
    a == b || same_path(a, b)
}

/// Whether one of `paths` is the path `p`, comparing as `Path` values do.
pub open spec fn lists_as_path(paths: Seq<String>, p: Seq<char>) -> bool {
    exists|t: int| 0 <= t < paths.len() && path_eq(#[trigger] paths[t]@, p)
}

/// The position of the first listing of `p` in `paths`, or -1.
pub open spec fn first_listing(paths: Seq<String>, p: Seq<char>) -> int
    decreases paths.len(),
{
    if paths.len() == 0 {
        -1
    } else {
        let r = first_listing(paths.drop_last(), p);
        if r >= 0 {
            r
        } else if paths.last()@ == p {
            paths.len() - 1
        } else {
            -1
        }
    }
}

/// `first_listing` finds the first listing, and finds one whenever there is one.
proof fn lemma_first_listing(paths: Seq<String>, p: Seq<char>)
    ensures
        -1 <= first_listing(paths, p) < paths.len(),
        first_listing(paths, p) >= 0 ==> paths[first_listing(paths, p)]@ == p,
        forall|t: int| 0 <= t < first_listing(paths, p) ==> (#[trigger] paths[t])@ != p,
        first_listing(paths, p) < 0 ==> forall|t: int| 0 <= t < paths.len() ==> (#[trigger] paths[t])@ != p,
    decreases paths.len(),
{
    if paths.len() > 0 {
        let d = paths.drop_last();
        lemma_first_listing(d, p);
        assert forall|t: int| 0 <= t < first_listing(paths, p) implies (#[trigger] paths[t])@ != p by {
            assert(paths[t] == d[t]);
        }
        assert forall|t: int| first_listing(paths, p) < 0 && 0 <= t < paths.len() implies (#[trigger] paths[t])@ != p by {
            if t < d.len() {
                assert(paths[t] == d[t]);
            }
        }
    }
}

/// A listing with none of the same path before it is the first listing.
proof fn lemma_first_listing_at(paths: Seq<String>, p: Seq<char>, i: int)
    requires
        0 <= i < paths.len(),
        paths[i]@ == p,
        forall|t: int| 0 <= t < i ==> (#[trigger] paths[t])@ != p,
    ensures
        first_listing(paths, p) == i,
{
    lemma_first_listing(paths, p);
    let f = first_listing(paths, p);
    if f < 0 {
        assert(paths[i]@ != p);
    } else if f < i {
        assert(paths[f]@ != p);
    } else if f > i {
        assert(paths[i]@ != p);
    }
}

/// Whether the pair at `a` is the first of `pairs` whose path is the path `p`.
pub open spec fn first_match(pairs: Seq<(u64, Entry)>, a: int, p: Seq<char>) -> bool {
    &&& path_eq(pairs[a].1.path@, p)
    &&& forall|b: int| 0 <= b < a ==> !path_eq(#[trigger] pairs[b].1.path@, p)
}

/// Whether the pair at `a` is the first match of one of `paths`.
pub open spec fn first_match_of_listed(pairs: Seq<(u64, Entry)>, a: int, paths: Seq<String>) -> bool {
    exists|t: int| 0 <= t < paths.len() && first_match(pairs, a, #[trigger] paths[t]@)
}

/// Whether the path `p` is the path of one of `paths`.
pub open spec fn matches_listed(paths: Seq<String>, p: Seq<char>) -> bool {
    exists|t: int| 0 <= t < paths.len() && path_eq(p, #[trigger] paths[t]@)
}

/// Whether some entry of `entries` has the path `p`.
pub open spec fn has_entry_matching(entries: Map<u64, Entry>, p: Seq<char>) -> bool {
    exists|k: u64| #[trigger] entries.dom().contains(k) && path_eq(entries[k].path@, p)
}

/// Whether some marked pair has the path `p`.
spec fn marked_with_path(pairs: Seq<(u64, Entry)>, keep: Seq<bool>, p: Seq<char>) -> bool {
    exists|a: int| 0 <= a < pairs.len() && #[trigger] keep[a] && path_eq(pairs[a].1.path@, p)
}

/// Pairs that agree up to position `a` agree on whether `a` is the first match of `p`.
proof fn lemma_first_match_prefix(p1: Seq<(u64, Entry)>, p2: Seq<(u64, Entry)>, a: int, p: Seq<char>)
    requires
        0 <= a < p1.len(),
        a < p2.len(),
        forall|b: int| 0 <= b <= a ==> #[trigger] p1[b] == p2[b],
    ensures
        first_match(p1, a, p) == first_match(p2, a, p),
{
    assert(p1[a] == p2[a]);
    if first_match(p1, a, p) {
        assert forall|b: int| 0 <= b < a implies !path_eq(#[trigger] p2[b].1.path@, p) by {
            assert(p1[b] == p2[b]);
            assert(!path_eq(p1[b].1.path@, p));
        }
    }
    if first_match(p2, a, p) {
        assert forall|b: int| 0 <= b < a implies !path_eq(#[trigger] p1[b].1.path@, p) by {
            assert(p1[b] == p2[b]);
            assert(!path_eq(p2[b].1.path@, p));
        }
    }
}

/// Pairs that agree up to position `a` agree on whether `a` is the first match of one
/// of `paths`.
proof fn lemma_first_match_of_listed_prefix(p1: Seq<(u64, Entry)>, p2: Seq<(u64, Entry)>, a: int, paths: Seq<String>)
    requires
        0 <= a < p1.len(),
        a < p2.len(),
        forall|b: int| 0 <= b <= a ==> #[trigger] p1[b] == p2[b],
    ensures
        first_match_of_listed(p1, a, paths) == first_match_of_listed(p2, a, paths),
{
    if first_match_of_listed(p1, a, paths) {
        let t = choose|t: int| 0 <= t < paths.len() && first_match(p1, a, #[trigger] paths[t]@);
        lemma_first_match_prefix(p1, p2, a, paths[t]@);
    }
    if first_match_of_listed(p2, a, paths) {
        let t = choose|t: int| 0 <= t < paths.len() && first_match(p2, a, #[trigger] paths[t]@);
        lemma_first_match_prefix(p1, p2, a, paths[t]@);
    }
}

/// Whether the item at position `q2` of `masked(s, keep)` is an item of `s` before
/// position `a`.
pub open spec fn comes_from_before<T>(s: Seq<T>, keep: Seq<bool>, q2: int, a: int) -> bool {
    exists|b: int| 0 <= b < a && masked(s, keep)[q2] == #[trigger] s[b]
}

/// Where the item at position `q` of `masked(s, keep)` comes from: a kept position `a` of
/// `s`, after the origins of every item before it.
proof fn lemma_masked_origin<T>(s: Seq<T>, keep: Seq<bool>, q: int) -> (a: int)
    requires
        keep.len() >= s.len(),
        0 <= q < masked(s, keep).len(),
    ensures
        0 <= a < s.len(),
        keep[a],
        masked(s, keep)[q] == s[a],
        forall|q2: int| 0 <= q2 < q ==> #[trigger] comes_from_before(s, keep, q2, a),
    decreases s.len(),
{
    let d = s.drop_last();
    let pm = masked(d, keep);
    lemma_masked_len(s, keep);
    lemma_masked_len(d, keep);
    let m = masked(s, keep);
    if keep[s.len() - 1] {
        assert(m == pm.push(s.last()));
    } else {
        assert(m == pm);
    }
    if keep[s.len() - 1] && q == pm.len() {
        assert forall|q2: int| 0 <= q2 < q implies #[trigger] comes_from_before(s, keep, q2, s.len() - 1) by {
            let b = lemma_masked_origin(d, keep, q2);
            assert(m[q2] == pm[q2]);
            assert(s[b] == d[b]);
        }
        s.len() - 1
    } else {
        assert(q < pm.len());
        let a = lemma_masked_origin(d, keep, q);
        assert forall|q2: int| 0 <= q2 < q implies #[trigger] comes_from_before(s, keep, q2, a) by {
            assert(m[q2] == pm[q2]);
            assert(comes_from_before(d, keep, q2, a));
            let b = choose|b: int| 0 <= b < a && masked(d, keep)[q2] == #[trigger] d[b];
            assert(s[b] == d[b]);
        }
        assert(m[q] == pm[q]);
        assert(s[a] == d[a]);
        a
    }
}

/// A masked sequence is no longer than the sequence.
proof fn lemma_masked_len<T>(s: Seq<T>, keep: Seq<bool>)
    ensures
        masked(s, keep).len() <= s.len(),
    decreases s.len(),
{
    if s.len() > 0 {
        lemma_masked_len(s.drop_last(), keep);
    }
}

/// What bringing the entries `before` in line with `paths` gives `after`, when the uid
/// counter goes from `c0` to `c1`. Paths compare as `Path` values do.
pub open spec fn synced_with_paths(before: Entries, after: Entries, c0: u64, c1: u64, paths: Seq<String>) -> bool {
    // An existing entry stays exactly when it is the first to match a listed path.
    &&& forall|i: int|
        0 <= i < before.pairs().len() ==> (after@.dom().contains(#[trigger] before.key_seq()[i])
            <==> first_match_of_listed(before.pairs(), i, paths))
    &&& forall|k: u64|
        #[trigger] after@.dom().contains(k) && before@.dom().contains(k) ==> after@[k] == before@[k]
    // The new entries take the fresh uids and carry no tags; each has a listed path that
    // no existing entry matches.
    &&& forall|k: u64|
        #[trigger] after@.dom().contains(k) && !before@.dom().contains(k) ==> c0 <= k && after@[k].tags@.is_empty()
            && lists_path(paths, after@[k].path@) && forall|i: int|
            0 <= i < before.pairs().len() ==> !path_eq(#[trigger] before.pairs()[i].1.path@, after@[k].path@)
    &&& forall|k: u64| c0 <= k < c1 ==> #[trigger] after@.dom().contains(k)
    // They come in the order in which their paths are first listed.
    &&& forall|k1: u64, k2: u64|
        #[trigger] after@.dom().contains(k1) && #[trigger] after@.dom().contains(k2) && !before@.dom().contains(k1)
            && !before@.dom().contains(k2) && k1 < k2 ==> first_listing(paths, after@[k1].path@) < first_listing(
            paths,
            after@[k2].path@,
        )
    // Afterwards every entry matches a listed path, every listed path has an entry, no two
    // entries have the same text as path, and each entry, in order, is the first to match
    // a listed path.
    &&& forall|k: u64| #[trigger] after@.dom().contains(k) ==> matches_listed(paths, after@[k].path@)
    &&& forall|t: int| 0 <= t < paths.len() ==> #[trigger] has_entry_matching(after@, paths[t]@)
    &&& forall|k1: u64, k2: u64|
        #[trigger] after@.dom().contains(k1) && #[trigger] after@.dom().contains(k2) && after@[k1].path@
            == after@[k2].path@ ==> k1 == k2
    &&& forall|q: int| 0 <= q < after.pairs().len() ==> #[trigger] first_match_of_listed(after.pairs(), q, paths)
}

/// The position of the first entry whose path is the path `path`.
fn position_of_path(entries: &Entries, path: &str) -> (r: Option<usize>)
    ensures
        match r {
            Some(j) => j < entries.pairs().len() && first_match(entries.pairs(), j as int, path@),
            None => forall|j: int|
                0 <= j < entries.pairs().len() ==> !path_eq(#[trigger] entries.pairs()[j].1.path@, path@),
        },
{
    let mut j: usize = 0;
    while j < entries.len()
        invariant
            j <= entries.pairs().len(),
            forall|a: int| 0 <= a < j ==> !path_eq(#[trigger] entries.pairs()[a].1.path@, path@),
        decreases entries.pairs().len() - j,
    {
        if paths_equal(entries.value_at(j).path.as_str(), path) {
            return Some(j);
        }
        j = j + 1;
    }
    None
}

impl Collection {
    /// Brings the entries in line with `paths`: each listed path keeps the first entry
    /// whose path it is, a listed path that no entry has gets a new untagged entry, and
    /// every other entry is dropped. Paths compare as `Path` values do.
    pub fn update_from_paths(&mut self, uid_counter: &mut UidCounter, paths: &[String])
        requires
            old(self).wf(),
            old(self).entry_uids_below(old(uid_counter).value()),
            old(uid_counter).value() + paths@.len() <= u64::MAX,
        ensures
            final(self).wf(),
            final(self).entry_uids_below(final(uid_counter).value()),
            old(self).uids_below(old(uid_counter).value()) ==> final(self).uids_below(final(uid_counter).value()),
            old(uid_counter).value() <= final(uid_counter).value(),
            synced_with_paths(
                old(self).entries,
                final(self).entries,
                old(uid_counter).value(),
                final(uid_counter).value(),
                paths@,
            ),
            final(self).tags == old(self).tags,
            final(self).sequences == old(self).sequences,
            final(self).tag_specific_apps == old(self).tag_specific_apps,
            final(self).ignored_extensions == old(self).ignored_extensions,
    {
        let ghost old_pairs = self.entries.pairs();
        let ghost c0 = uid_counter.value();
        let n0 = self.entries.len();
        let mut keep: Vec<bool> = Vec::new();
        let mut j: usize = 0;
        while j < n0
            invariant
                j <= n0,
                keep@.len() == j,
                forall|a: int| 0 <= a < j ==> !#[trigger] keep@[a],
            decreases n0 - j,
        {
            keep.push(false);
            j = j + 1;
        }
        let mut i: usize = 0;
        while i < paths.len()
            invariant
                i <= paths@.len(),
                n0 == old_pairs.len(),
                old_pairs == old(self).entries.pairs(),
                c0 == old(uid_counter).value(),
                c0 + paths@.len() <= u64::MAX,
                self.wf(),
                self.entry_uids_below(uid_counter.value()),
                self.entries.pairs().len() >= n0,
                uid_counter.value() == c0 + (self.entries.pairs().len() - n0),
                uid_counter.value() <= c0 + i,
                forall|a: int| 0 <= a < n0 ==> #[trigger] self.entries.pairs()[a] == old_pairs[a],
                forall|a: int|
                    n0 <= a < self.entries.pairs().len() ==> (#[trigger] self.entries.pairs()[a]).0 == c0
                        + (a - n0) && self.entries.pairs()[a].1.tags@.is_empty(),
                keep@.len() == self.entries.pairs().len(),
                forall|a: int|
                    0 <= a < self.entries.pairs().len() ==> (#[trigger] keep@[a] <==> first_match_of_listed(
                        self.entries.pairs(),
                        a,
                        paths@.take(i as int),
                    )),
                forall|t: int|
                    0 <= t < i ==> marked_with_path(self.entries.pairs(), keep@, #[trigger] paths@[t]@),
                forall|a: int| n0 <= a < self.entries.pairs().len() ==> #[trigger] keep@[a],
                forall|a: int|
                    n0 <= a < self.entries.pairs().len() ==> 0 <= first_listing(
                        paths@,
                        (#[trigger] self.entries.pairs()[a]).1.path@,
                    ) < i,
                forall|a: int, b: int|
                    n0 <= a < self.entries.pairs().len() && 0 <= b < n0 ==> !path_eq(
                        #[trigger] self.entries.pairs()[b].1.path@,
                        (#[trigger] self.entries.pairs()[a]).1.path@,
                    ),
                forall|a: int, b: int|
                    n0 <= a < b < self.entries.pairs().len() ==> first_listing(
                        paths@,
                        (#[trigger] self.entries.pairs()[a]).1.path@,
                    ) < first_listing(paths@, (#[trigger] self.entries.pairs()[b]).1.path@),
                self.tags == old(self).tags,
                self.sequences == old(self).sequences,
                self.tag_specific_apps == old(self).tag_specific_apps,
                self.ignored_extensions == old(self).ignored_extensions,
            decreases paths@.len() - i,
        {
            let ghost before = self.entries.pairs();
            let ghost keep_before = keep@;
            let ghost p = paths@[i as int]@;
            let ghost ti = paths@.take(i as int);
            let ghost ti1 = paths@.take(i + 1);
            proof {
                assert forall|a: int| 0 <= a < before.len() implies #[trigger] first_match_of_listed(before, a, ti1)
                    <==> (first_match_of_listed(before, a, ti) || first_match(before, a, p)) by {
                    if first_match_of_listed(before, a, ti1) {
                        let t = choose|t: int| 0 <= t < ti1.len() && first_match(before, a, #[trigger] ti1[t]@);
                        if t < i {
                            assert(ti[t] == ti1[t]);
                        }
                    }
                    if first_match_of_listed(before, a, ti) {
                        let t = choose|t: int| 0 <= t < ti.len() && first_match(before, a, #[trigger] ti[t]@);
                        assert(ti1[t] == ti[t]);
                    }
                    if first_match(before, a, p) {
                        assert(ti1[i as int]@ == p);
                    }
                }
            }
            match position_of_path(&self.entries, paths[i].as_str()) {
                Some(pos) => {
                    keep.set(pos, true);
                    proof {
                        assert forall|a: int|
                            0 <= a < self.entries.pairs().len() implies (#[trigger] keep@[a]
                                <==> first_match_of_listed(self.entries.pairs(), a, ti1)) by {
                            if a != pos && first_match(before, a, p) {
                                if a < pos {
                                    assert(!path_eq(before[a].1.path@, p));
                                } else {
                                    assert(!path_eq(before[pos as int].1.path@, p));
                                }
                            }
                        }
                        assert forall|t: int| 0 <= t < i + 1 implies marked_with_path(
                            self.entries.pairs(),
                            keep@,
                            #[trigger] paths@[t]@,
                        ) by {
                            if t == i {
                                assert(keep@[pos as int]);
                            } else {
                                assert(marked_with_path(self.entries.pairs(), keep_before, paths@[t]@));
                                let a = choose|a: int|
                                    0 <= a < self.entries.pairs().len() && #[trigger] keep_before[a]
                                        && path_eq(self.entries.pairs()[a].1.path@, paths@[t]@);
                                assert(keep@[a]);
                            }
                        }
                    }
                },
                None => {
                    let id = self.add_new_entry(paths[i].clone(), uid_counter);
                    keep.push(true);
                    proof {
                        let m = before.len() as int;
                        let after = self.entries.pairs();
                        assert(after.len() == m + 1);
                        assert forall|a: int| 0 <= a < m implies #[trigger] after[a] == before[a] by {}
                        assert(after[m].1.path@ == p);
                        assert forall|t: int| 0 <= t < i implies (#[trigger] paths@[t])@ != p by {
                            assert(marked_with_path(before, keep_before, paths@[t]@));
                            let a = choose|a: int|
                                0 <= a < before.len() && #[trigger] keep_before[a] && path_eq(before[a].1.path@, paths@[t]@);
                            if paths@[t]@ == p {
                                assert(!path_eq(before[a].1.path@, p));
                            }
                        }
                        lemma_first_listing_at(paths@, p, i as int);
                        assert forall|a: int| n0 <= a < after.len() implies 0 <= first_listing(
                            paths@,
                            (#[trigger] after[a]).1.path@,
                        ) < i + 1 by {
                            if a < m {
                                assert(after[a] == before[a]);
                            }
                        }
                        assert forall|a: int, b: int|
                            n0 <= a < after.len() && 0 <= b < n0 implies !path_eq(
                                #[trigger] after[b].1.path@,
                                (#[trigger] after[a]).1.path@,
                            ) by {
                            assert(after[b] == before[b]);
                            if a < m {
                                assert(after[a] == before[a]);
                            }
                        }
                        assert forall|a: int, b: int| n0 <= a < b < after.len() implies first_listing(
                            paths@,
                            (#[trigger] after[a]).1.path@,
                        ) < first_listing(paths@, (#[trigger] after[b]).1.path@) by {
                            assert(after[a] == before[a]);
                            if b < m {
                                assert(after[b] == before[b]);
                            }
                        }
                        assert forall|a: int|
                            0 <= a < after.len() implies (#[trigger] keep@[a] <==> first_match_of_listed(after, a, ti1)) by {
                            if a < m {
                                assert(after[a] == before[a]);
                                assert forall|b: int| 0 <= b <= a implies #[trigger] after[b] == before[b] by {}
                                lemma_first_match_of_listed_prefix(after, before, a, ti1);
                                assert(!path_eq(before[a].1.path@, p));
                            } else {
                                assert(first_match(after, a, p)) by {
                                    assert forall|b: int| 0 <= b < a implies !path_eq(#[trigger] after[b].1.path@, p) by {
                                        assert(after[b] == before[b]);
                                    }
                                }
                                assert(ti1[i as int]@ == p);
                            }
                        }
                        assert forall|t: int|
                            0 <= t < i + 1 implies marked_with_path(after, keep@, #[trigger] paths@[t]@) by {
                            if t == i {
                                assert(keep@[m]);
                                assert(path_eq(after[m].1.path@, p));
                            } else {
                                assert(marked_with_path(before, keep_before, paths@[t]@));
                                let a = choose|a: int|
                                    0 <= a < before.len() && #[trigger] keep_before[a] && path_eq(before[a].1.path@, paths@[t]@);
                                assert(after[a] == before[a]);
                                assert(keep@[a]);
                            }
                        }
                        assert forall|a: int| n0 <= a < after.len() implies #[trigger] keep@[a] by {
                            if a < m {
                                assert(keep_before[a]);
                            }
                        }
                    }
                },
            }
            i = i + 1;
        }
        let ghost e1 = self.entries;
        proof {
            assert(paths@.take(paths@.len() as int) =~= paths@);
        }
        self.entries.retain_mask(&keep);
        proof {
            lemma_sync_result(old(self).entries, e1, self.entries, keep@, paths@, c0, uid_counter.value(), n0 as int);
        }
    }

    /// A collection with one untagged entry for each path of `paths` (paths that are the
    /// same `Path` count once).
    pub fn make_new(uid_counter: &mut UidCounter, paths: &[String]) -> (r: Self)
        requires
            old(uid_counter).value() + paths@.len() <= u64::MAX,
        ensures
            r.wf(),
            r.uids_below(final(uid_counter).value()),
            old(uid_counter).value() <= final(uid_counter).value(),
            forall|k: u64|
                #[trigger] r.entries@.dom().contains(k) <==> old(uid_counter).value() <= k
                    < final(uid_counter).value(),
            forall|k: u64|
                #[trigger] r.entries@.dom().contains(k) ==> lists_path(paths@, r.entries@[k].path@)
                    && r.entries@[k].tags@.is_empty(),
            forall|t: int|
                0 <= t < paths@.len() ==> #[trigger] has_entry_matching(r.entries@, paths@[t]@),
            forall|k1: u64, k2: u64|
                #[trigger] r.entries@.dom().contains(k1) && #[trigger] r.entries@.dom().contains(k2)
                    && r.entries@[k1].path@ == r.entries@[k2].path@ ==> k1 == k2,
            forall|k1: u64, k2: u64|
                #[trigger] r.entries@.dom().contains(k1) && #[trigger] r.entries@.dom().contains(k2) && k1 < k2
                    ==> first_listing(paths@, r.entries@[k1].path@) < first_listing(paths@, r.entries@[k2].path@),
            r.tags@ == Map::<u64, crate::tag::Tag>::empty(),
            r.sequences@ == Map::<u64, crate::sequence::Sequence>::empty(),
            r.tag_specific_apps@ == Map::<u64, crate::preferences::AppId>::empty(),
            r.ignored_extensions@.len() == 0,
    {
        let mut coll = Collection::new();
        coll.update_from_paths(uid_counter, paths);
        proof {
            assert forall|k: u64| #[trigger] coll.entries@.dom().contains(k) implies old(uid_counter).value() <= k
                < uid_counter.value() by {}
        }
        coll
    }
}

/// What the loop of `update_from_paths` leaves, once the unmarked entries are dropped,
/// is the synced result.
proof fn lemma_sync_result(
    b0: Entries,
    e1: Entries,
    e2: Entries,
    keep: Seq<bool>,
    paths: Seq<String>,
    c0: u64,
    c1: u64,
    n0: int,
)
    requires
        b0.wf(),
        e1.wf(),
        e2.wf(),
        forall|k: u64| #[trigger] b0@.dom().contains(k) ==> k < c0,
        n0 == b0.pairs().len(),
        e1.pairs().len() >= n0,
        c1 == c0 + (e1.pairs().len() - n0),
        forall|a: int| 0 <= a < n0 ==> #[trigger] e1.pairs()[a] == b0.pairs()[a],
        forall|a: int|
            n0 <= a < e1.pairs().len() ==> (#[trigger] e1.pairs()[a]).0 == c0 + (a - n0)
                && e1.pairs()[a].1.tags@.is_empty(),
        keep.len() == e1.pairs().len(),
        forall|a: int|
            0 <= a < e1.pairs().len() ==> (#[trigger] keep[a] <==> first_match_of_listed(e1.pairs(), a, paths)),
        forall|t: int| 0 <= t < paths.len() ==> marked_with_path(e1.pairs(), keep, #[trigger] paths[t]@),
        forall|a: int| n0 <= a < e1.pairs().len() ==> #[trigger] keep[a],
        forall|a: int|
            n0 <= a < e1.pairs().len() ==> 0 <= first_listing(paths, (#[trigger] e1.pairs()[a]).1.path@)
                < paths.len(),
        forall|a: int, b: int|
            n0 <= a < e1.pairs().len() && 0 <= b < n0 ==> !path_eq(
                #[trigger] e1.pairs()[b].1.path@,
                (#[trigger] e1.pairs()[a]).1.path@,
            ),
        forall|a: int, b: int|
            n0 <= a < b < e1.pairs().len() ==> first_listing(paths, (#[trigger] e1.pairs()[a]).1.path@)
                < first_listing(paths, (#[trigger] e1.pairs()[b]).1.path@),
        e2.pairs() == masked(e1.pairs(), keep),
        forall|i: int|
            0 <= i < e1.pairs().len() ==> (#[trigger] keep[i] ==> e2@.dom().contains(e1.key_seq()[i])
                && e2@[e1.key_seq()[i]] == e1.pairs()[i].1),
        forall|i: int| 0 <= i < e1.pairs().len() ==> (!#[trigger] keep[i] ==> !e2@.dom().contains(e1.key_seq()[i])),
        forall|k: u64| #[trigger] e2@.dom().contains(k) ==> e1@.dom().contains(k),
    ensures
        synced_with_paths(b0, e2, c0, c1, paths),
        forall|k: u64| #[trigger] e2@.dom().contains(k) ==> k < c1,
{
    let old_pairs = b0.pairs();
        // Existing entries.
        assert forall|a: int| 0 <= a < n0 implies (e2@.dom().contains(
            #[trigger] b0.key_seq()[a],
        ) <==> first_match_of_listed(old_pairs, a, paths)) by {
            assert forall|b: int| 0 <= b <= a implies #[trigger] e1.pairs()[b] == old_pairs[b] by {}
            lemma_first_match_of_listed_prefix(e1.pairs(), old_pairs, a, paths);
            assert(e1.key_seq()[a] == b0.key_seq()[a]);
            if keep[a] {
                assert(e2@.dom().contains(e1.key_seq()[a]));
            } else {
                assert(!e2@.dom().contains(e1.key_seq()[a]));
            }
        }
        assert forall|k: u64| #[trigger] e2@.dom().contains(k) implies {
            &&& e1@.dom().contains(k)
            &&& e2@[k] == e1@[k]
            &&& keep[e1.index_of_key(k)]
        } by {
            e1.lemma_key_index(k);
            let a = e1.index_of_key(k);
            if !keep[a] {
                assert(!e2@.dom().contains(e1.key_seq()[a]));
            }
        }
        assert forall|k: u64|
            #[trigger] e2@.dom().contains(k) && b0@.dom().contains(k) implies e2@[k]
            == b0@[k] by {
            b0.lemma_key_index(k);
            let a = b0.index_of_key(k);
            assert(e1.key_seq()[a] == k);
            e1.lemma_view_at(a);
            b0.lemma_view_at(a);
        }
        assert forall|k: u64|
            #[trigger] e2@.dom().contains(k) && !b0@.dom().contains(k) implies c0 <= k
            && e2@[k].tags@.is_empty() && lists_path(paths, e2@[k].path@) && forall|i: int|
            0 <= i < old_pairs.len() ==> !path_eq(#[trigger] old_pairs[i].1.path@, e2@[k].path@) by {
            e1.lemma_key_index(k);
            let a = e1.index_of_key(k);
            if a < n0 {
                assert(e1.key_seq()[a] == b0.key_seq()[a]);
                b0.lemma_view_at(a);
            }
            e1.lemma_view_at(a);
            lemma_first_listing(paths, e1.pairs()[a].1.path@);
            let fl = first_listing(paths, e1.pairs()[a].1.path@);
            assert(paths[fl]@ == e2@[k].path@);
            assert forall|i: int| 0 <= i < old_pairs.len() implies !path_eq(#[trigger] old_pairs[i].1.path@, e2@[k].path@) by {
                assert(e1.pairs()[i] == old_pairs[i]);
                assert(!path_eq(e1.pairs()[i].1.path@, e1.pairs()[a].1.path@));
            }
        }
        assert forall|k: u64| c0 <= k < c1 implies #[trigger] e2@.dom().contains(k) by {
            let a = n0 + (k - c0);
            assert(e1.pairs()[a].0 == k);
            assert(keep[a]);
            assert(e1.key_seq()[a] == k);
        }
        assert forall|k: u64| #[trigger] e2@.dom().contains(k) implies matches_listed(paths, e2@[k].path@) by {
            e1.lemma_key_index(k);
            let a = e1.index_of_key(k);
            e1.lemma_view_at(a);
            let t = choose|t: int| 0 <= t < paths.len() && first_match(e1.pairs(), a, #[trigger] paths[t]@);
            assert(path_eq(e2@[k].path@, paths[t]@));
        }
        assert forall|t: int| 0 <= t < paths.len() implies #[trigger] has_entry_matching(e2@, paths[t]@) by {
            assert(marked_with_path(e1.pairs(), keep, paths[t]@));
            let a = choose|a: int|
                0 <= a < e1.pairs().len() && #[trigger] keep[a] && path_eq(e1.pairs()[a].1.path@, paths[t]@);
            e1.lemma_view_at(a);
            assert(e2@.dom().contains(e1.key_seq()[a]));
            assert(path_eq(e2@[e1.key_seq()[a]].path@, paths[t]@));
        }
        assert forall|k1: u64, k2: u64|
            #[trigger] e2@.dom().contains(k1) && #[trigger] e2@.dom().contains(k2) && e2@[k1].path@
                == e2@[k2].path@ implies k1 == k2 by {
            e1.lemma_key_index(k1);
            e1.lemma_key_index(k2);
            let a1 = e1.index_of_key(k1);
            let a2 = e1.index_of_key(k2);
            e1.lemma_view_at(a1);
            e1.lemma_view_at(a2);
            if a1 < a2 {
                let t = choose|t: int| 0 <= t < paths.len() && first_match(e1.pairs(), a2, #[trigger] paths[t]@);
                assert(!path_eq(e1.pairs()[a1].1.path@, paths[t]@));
            } else if a2 < a1 {
                let t = choose|t: int| 0 <= t < paths.len() && first_match(e1.pairs(), a1, #[trigger] paths[t]@);
                assert(!path_eq(e1.pairs()[a2].1.path@, paths[t]@));
            }
        }
        assert forall|k: u64| #[trigger] e2@.dom().contains(k) implies k < c1 by {
            e1.lemma_key_index(k);
            let a = e1.index_of_key(k);
            if a < n0 {
                assert(e1.key_seq()[a] == b0.key_seq()[a]);
                b0.lemma_view_at(a);
            }
        }
        assert forall|k1: u64, k2: u64|
            #[trigger] e2@.dom().contains(k1) && #[trigger] e2@.dom().contains(k2) && !b0@.dom().contains(k1)
                && !b0@.dom().contains(k2) && k1 < k2 implies first_listing(
            paths,
            e2@[k1].path@,
        ) < first_listing(paths, e2@[k2].path@) by {
            e1.lemma_key_index(k1);
            e1.lemma_key_index(k2);
            let a1 = e1.index_of_key(k1);
            let a2 = e1.index_of_key(k2);
            if a1 < n0 {
                assert(e1.key_seq()[a1] == b0.key_seq()[a1]);
                b0.lemma_view_at(a1);
            }
            if a2 < n0 {
                assert(e1.key_seq()[a2] == b0.key_seq()[a2]);
                b0.lemma_view_at(a2);
            }
            e1.lemma_view_at(a1);
            e1.lemma_view_at(a2);
        }
        // In order, each remaining entry is the first to match a listed path.
        assert forall|q: int| 0 <= q < e2.pairs().len() implies #[trigger] first_match_of_listed(e2.pairs(), q, paths) by {
            let a = lemma_masked_origin(e1.pairs(), keep, q);
            let t = choose|t: int| 0 <= t < paths.len() && first_match(e1.pairs(), a, #[trigger] paths[t]@);
            let pt = paths[t]@;
            assert forall|q2: int| 0 <= q2 < q implies !path_eq(#[trigger] e2.pairs()[q2].1.path@, pt) by {
                assert(comes_from_before(e1.pairs(), keep, q2, a));
            let b = choose|b: int| 0 <= b < a && masked(e1.pairs(), keep)[q2] == #[trigger] e1.pairs()[b];
                assert(!path_eq(e1.pairs()[b].1.path@, pt));
            }
            assert(first_match(e2.pairs(), q, pt));
        }
}

/// Syncing with the same paths a second time changes nothing: every entry stays as it is,
/// no entry is added, and no uid is used.
pub proof fn law_resync_changes_nothing(
    a: Entries,
    b: Entries,
    c: Entries,
    c0: u64,
    c1: u64,
    c2: u64,
    paths: Seq<String>,
)
    requires
        a.wf(),
        b.wf(),
        c.wf(),
        c0 <= c1 <= c2,
        forall|k: u64| #[trigger] b@.dom().contains(k) ==> k < c1,
        synced_with_paths(a, b, c0, c1, paths),
        synced_with_paths(b, c, c1, c2, paths),
    ensures
        c@ == b@,
        c2 == c1,
{
    // Every entry of `b` is, in order, the first to match a listed path, so it stays.
    assert forall|k: u64| #[trigger] b@.dom().contains(k) implies c@.dom().contains(k) && c@[k] == b@[k] by {
        b.lemma_key_index(k);
        let i = b.index_of_key(k);
        assert(first_match_of_listed(b.pairs(), i, paths));
    }
    // An entry of `c` that `b` lacks would match no entry of `b`, yet its path is listed
    // and every listed path has an entry of `b`.
    assert forall|k: u64| #[trigger] c@.dom().contains(k) implies b@.dom().contains(k) by {
        if !b@.dom().contains(k) {
            let t = choose|t: int| 0 <= t < paths.len() && #[trigger] paths[t]@ == c@[k].path@;
            assert(has_entry_matching(b@, paths[t]@));
            let kb = choose|kb: u64| #[trigger] b@.dom().contains(kb) && path_eq(b@[kb].path@, paths[t]@);
            b.lemma_key_index(kb);
            let i = b.index_of_key(kb);
            b.lemma_view_at(i);
            assert(!path_eq(b.pairs()[i].1.path@, c@[k].path@));
        }
    }
    assert(c@ =~= b@);
    if c1 < c2 {
        assert(c@.dom().contains(c1));
    }
}

/// Whether `p` is one of `paths`.
pub fn lists(paths: &[String], p: &str) -> (r: bool)
    ensures
        r == lists_path(paths@, p@),
{
    let mut t: usize = 0;
    while t < paths.len()
        invariant
            t <= paths@.len(),
            forall|u: int| 0 <= u < t ==> #[trigger] paths@[u]@ != p@,
        decreases paths@.len() - t,
    {
        if str_eq(paths[t].as_str(), p) {
            return true;
        }
        t = t + 1;
    }
    false
}

/// Whether one of `paths` is the path `p`, comparing as `Path` values do.
pub fn lists_as_path_value(paths: &[String], p: &str) -> (r: bool)
    ensures
        r == lists_as_path(paths@, p@),
{
    let mut t: usize = 0;
    while t < paths.len()
        invariant
            t <= paths@.len(),
            forall|u: int| 0 <= u < t ==> !path_eq(#[trigger] paths@[u]@, p@),
        decreases paths@.len() - t,
    {
        if paths_equal(paths[t].as_str(), p) {
            return true;
        }
        t = t + 1;
    }
    false
}

impl Collection {
    /// Applies the changes found in the folder: each added path gets a new untagged entry,
    /// in order, then every entry with a removed path goes. Returns each added path with
    /// the uid of its entry.
    pub fn apply_changes(&mut self, changes: &FolderChanges, uid_counter: &mut UidCounter) -> (r: Vec<
        (String, entry::Id),
    >)
        requires
            old(self).wf(),
            old(self).entry_uids_below(old(uid_counter).value()),
            old(uid_counter).value() + changes.add@.len() <= u64::MAX,
        ensures
            final(self).wf(),
            final(self).entry_uids_below(final(uid_counter).value()),
            old(self).uids_below(old(uid_counter).value()) ==> final(self).uids_below(final(uid_counter).value()),
            final(uid_counter).value() == old(uid_counter).value() + changes.add@.len(),
            r@.len() == changes.add@.len(),
            forall|t: int|
                0 <= t < r@.len() ==> (#[trigger] r@[t]).0 == changes.add@[t] && r@[t].1.0
                    == old(uid_counter).value() + t,
            forall|k: u64|
                #[trigger] final(self).entries@.dom().contains(k) <==> (old(self).entries@.dom().contains(k)
                    && !lists_as_path(changes.remove@, old(self).entries@[k].path@)) || (old(
                    uid_counter,
                ).value() <= k < final(uid_counter).value() && !lists_as_path(
                    changes.remove@,
                    changes.add@[k - old(uid_counter).value()]@,
                )),
            forall|k: u64|
                #[trigger] final(self).entries@.dom().contains(k) && old(self).entries@.dom().contains(k)
                    ==> final(self).entries@[k] == old(self).entries@[k],
            forall|k: u64|
                #[trigger] final(self).entries@.dom().contains(k) && !old(self).entries@.dom().contains(k)
                    ==> final(self).entries@[k].path == changes.add@[k - old(uid_counter).value()]
                    && final(self).entries@[k].tags@.is_empty(),
            final(self).tags == old(self).tags,
            final(self).sequences == old(self).sequences,
            final(self).tag_specific_apps == old(self).tag_specific_apps,
            final(self).ignored_extensions == old(self).ignored_extensions,
    {
        let ghost old_pairs = self.entries.pairs();
        let ghost c0 = uid_counter.value();
        let n0 = self.entries.len();
        let mut added: Vec<(String, entry::Id)> = Vec::new();
        let mut i: usize = 0;
        while i < changes.add.len()
            invariant
                i <= changes.add@.len(),
                n0 == old_pairs.len(),
                old_pairs == old(self).entries.pairs(),
                c0 == old(uid_counter).value(),
                c0 + changes.add@.len() <= u64::MAX,
                self.wf(),
                self.entry_uids_below(uid_counter.value()),
                uid_counter.value() == c0 + i,
                self.entries.pairs().len() == n0 + i,
                forall|a: int| 0 <= a < n0 ==> #[trigger] self.entries.pairs()[a] == old_pairs[a],
                forall|a: int|
                    n0 <= a < self.entries.pairs().len() ==> (#[trigger] self.entries.pairs()[a]).0 == c0
                        + (a - n0) && self.entries.pairs()[a].1.path == changes.add@[a - n0]
                        && self.entries.pairs()[a].1.tags@.is_empty(),
                added@.len() == i,
                forall|t: int|
                    0 <= t < i ==> (#[trigger] added@[t]).0 == changes.add@[t] && added@[t].1.0 == c0 + t,
                self.tags == old(self).tags,
                self.sequences == old(self).sequences,
                self.tag_specific_apps == old(self).tag_specific_apps,
                self.ignored_extensions == old(self).ignored_extensions,
            decreases changes.add@.len() - i,
        {
            let ghost before = self.entries.pairs();
            let id = self.add_new_entry(changes.add[i].clone(), uid_counter);
            added.push((changes.add[i].clone(), id));
            proof {
                let after = self.entries.pairs();
                assert forall|a: int| 0 <= a < before.len() implies #[trigger] after[a] == before[a] by {}
            }
            i = i + 1;
        }
        let ghost e1 = self.entries;
        let mut keep: Vec<bool> = Vec::new();
        let mut j: usize = 0;
        while j < self.entries.len()
            invariant
                j <= e1.pairs().len(),
                self.entries == e1,
                keep@.len() == j,
                forall|a: int|
                    0 <= a < j ==> #[trigger] keep@[a] == !lists_as_path(
                        changes.remove@,
                        e1.pairs()[a].1.path@,
                    ),
            decreases e1.pairs().len() - j,
        {
            let gone = lists_as_path_value(changes.remove.as_slice(), self.entries.value_at(j).path.as_str());
            keep.push(!gone);
            j = j + 1;
        }
        self.entries.retain_mask(&keep);
        proof {
            let e2 = self.entries;
            let c1 = uid_counter.value();
            assert forall|k: u64| #[trigger] e2@.dom().contains(k) <==> (old(self).entries@.dom().contains(k)
                && !lists_as_path(changes.remove@, old(self).entries@[k].path@)) || (c0 <= k < c1 && !lists_as_path(
                changes.remove@,
                changes.add@[k - c0]@,
            )) by {
                if e2@.dom().contains(k) {
                    e1.lemma_key_index(k);
                    let a = e1.index_of_key(k);
                    e1.lemma_view_at(a);
                    if a < n0 {
                        assert(e1.key_seq()[a] == old(self).entries.key_seq()[a]);
                        old(self).entries.lemma_view_at(a);
                    }
                    if !keep@[a] {
                        assert(!e2@.dom().contains(e1.key_seq()[a]));
                    }
                }
                if old(self).entries@.dom().contains(k) && !lists_as_path(changes.remove@, old(self).entries@[k].path@) {
                    old(self).entries.lemma_key_index(k);
                    let a = old(self).entries.index_of_key(k);
                    old(self).entries.lemma_view_at(a);
                    assert(e1.pairs()[a] == old_pairs[a]);
                    assert(e1.key_seq()[a] == k);
                    assert(keep@[a]);
                }
                if c0 <= k < c1 && !lists_as_path(changes.remove@, changes.add@[k - c0]@) {
                    let a = n0 + (k - c0);
                    assert(e1.pairs()[a].0 == k);
                    assert(e1.key_seq()[a] == k);
                    assert(keep@[a]);
                }
            }
            assert forall|k: u64|
                #[trigger] e2@.dom().contains(k) implies {
                &&& e1@.dom().contains(k)
                &&& e2@[k] == e1@[k]
                &&& k < c1
            } by {
                e1.lemma_key_index(k);
                let a = e1.index_of_key(k);
                if !keep@[a] {
                    assert(!e2@.dom().contains(e1.key_seq()[a]));
                }
            }
            assert forall|k: u64|
                #[trigger] e2@.dom().contains(k) && old(self).entries@.dom().contains(k) implies e2@[k]
                == old(self).entries@[k] by {
                old(self).entries.lemma_key_index(k);
                let a = old(self).entries.index_of_key(k);
                assert(e1.key_seq()[a] == k);
                e1.lemma_view_at(a);
                old(self).entries.lemma_view_at(a);
            }
            assert forall|k: u64|
                #[trigger] e2@.dom().contains(k) && !old(self).entries@.dom().contains(k) implies e2@[k].path
                == changes.add@[k - c0] && e2@[k].tags@.is_empty() by {
                e1.lemma_key_index(k);
                let a = e1.index_of_key(k);
                if a < n0 {
                    assert(e1.key_seq()[a] == old(self).entries.key_seq()[a]);
                    old(self).entries.lemma_view_at(a);
                }
                e1.lemma_view_at(a);
            }
        }
        added
    }
}

/// A file met while walking a collection's folder.
pub struct ListedFile {
    /// Path relative to the collection root.
    pub path: String,
    pub is_dir: bool,
}

/// Whether the file's extension is one of `ignored_extensions`.
pub open spec fn has_ignored_extension(f: ListedFile, ignored_extensions: Seq<String>) -> bool {
    match extension_of(f.path@) {
        Some(ext) => lists_path(ignored_extensions, ext),
        None => false,
    }
}

/// Whether a walked file is an addition: a file that is not ignored and that the
/// collection does not have yet.
pub open spec fn is_addition(f: ListedFile, coll_paths: Seq<String>, ignored_extensions: Seq<String>) -> bool {
    !f.is_dir && !has_ignored_extension(f, ignored_extensions) && !lists_as_path(coll_paths, f.path@)
}

/// The path of `f`, where it is an addition.
pub open spec fn addition_of(coll_paths: Seq<String>, ignored_extensions: Seq<String>) -> spec_fn(ListedFile) -> Option<String> {
    |f: ListedFile| if is_addition(f, coll_paths, ignored_extensions) {
        Some(f.path)
    } else {
        None
    }
}

/// The changes between a collection whose entries have `coll_paths` and its folder, of
/// which `listed` are the walked files; `present[i]` tells whether `coll_paths[i]` still
/// exists there.
pub fn folder_changes(
    listed: &[ListedFile],
    coll_paths: &[String],
    present: &[bool],
    ignored_extensions: &[String],
) -> (r: FolderChanges)
    requires
        present@.len() == coll_paths@.len(),
    ensures
        r.add@ == listed@.filter_map(addition_of(coll_paths@, ignored_extensions@)),
        r.remove@ == masked(coll_paths@, present@.map_values(|p: bool| !p)),
{
    let mut add: Vec<String> = Vec::new();
    let mut i: usize = 0;
    while i < listed.len()
        invariant
            i <= listed@.len(),
            add@ == listed@.take(i as int).filter_map(addition_of(coll_paths@, ignored_extensions@)),
        decreases listed@.len() - i,
    {
        let f = &listed[i];
        let ignored = match path_extension(f.path.as_str()) {
            Some(ext) => lists(ignored_extensions, ext.as_str()),
            None => false,
        };
        if !f.is_dir && !ignored && !lists_as_path_value(coll_paths, f.path.as_str()) {
            add.push(f.path.clone());
        }
        proof {
            listed@.lemma_filter_map_take_succ(addition_of(coll_paths@, ignored_extensions@), i as int);
        }
        i = i + 1;
    }
    proof {
        assert(listed@.take(listed@.len() as int) =~= listed@);
    }
    let ghost gone = present@.map_values(|p: bool| !p);
    let mut remove: Vec<String> = Vec::new();
    let mut j: usize = 0;
    while j < present.len()
        invariant
            j <= present@.len(),
            present@.len() == coll_paths@.len(),
            gone == present@.map_values(|p: bool| !p),
            remove@ == masked(coll_paths@.take(j as int), gone),
        decreases present@.len() - j,
    {
        proof {
            assert(coll_paths@.take(j + 1).drop_last() =~= coll_paths@.take(j as int));
        }
        if !present[j] {
            remove.push(coll_paths[j].clone());
        }
        j = j + 1;
    }
    proof {
        assert(coll_paths@.take(coll_paths@.len() as int) =~= coll_paths@);
    }
    FolderChanges { add, remove }
}

impl Collection {
    /// The paths of the entries, in order.
    pub fn entry_paths(&self) -> (r: Vec<String>)
        ensures
            r@ == self.entries.pairs().map_values(|p: (u64, Entry)| p.1.path),
    {
        let mut r: Vec<String> = Vec::new();
        let mut j: usize = 0;
        while j < self.entries.len()
            invariant
                j <= self.entries.pairs().len(),
                r@ == self.entries.pairs().take(j as int).map_values(|p: (u64, Entry)| p.1.path),
            decreases self.entries.pairs().len() - j,
        {
            r.push(self.entries.value_at(j).path.clone());
            j = j + 1;
            proof {
                assert(r@ =~= self.entries.pairs().take(j as int).map_values(|p: (u64, Entry)| p.1.path));
            }
        }
        proof {
            assert(self.entries.pairs().take(self.entries.pairs().len() as int) =~= self.entries.pairs());
        }
        r
    }
}

} // verus!
