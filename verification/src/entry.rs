//! Entries: paths of the files being organised, along with their tags.
use vstd::prelude::*;

use crate::collection::{Sequences, Tags};
use crate::db::{TagSet, Uid};
use crate::filter_reqs::{reqs_hold, Requirements};
use crate::id_map::IdMap;
use crate::tag::{self, Tag};

verus! {

/// Uid of an entry.
#[derive(Clone, Copy, PartialEq, Eq, Structural, Hash, Debug)]
pub struct Id(pub Uid);

/// Path to an item we're interested in organizing, along with associated tags.
pub struct Entry {
    /// Path relative to the collection root. Assumed to be unique within the collection.
    pub path: String,
    pub tags: TagSet,
}

impl Entry {
    /// An entry with no tags.
    pub fn new(path: String) -> (r: Self)
        ensures
            r.path == path,
            r.tags@ == Set::<tag::Id>::empty(),
    {
        Entry { path, tags: TagSet::new() }
    }

    /// If the entry has `replace`, it gets `with` in its place.
    pub fn replace_tag(&mut self, replace: tag::Id, with: tag::Id)
        ensures
            final(self).path == old(self).path,
            old(self).tags@.contains(replace) ==> final(self).tags@ == old(self).tags@.remove(
                replace,
            ).insert(with),
            !old(self).tags@.contains(replace) ==> final(self).tags@ == old(self).tags@,
    {
        if self.tags.remove(replace) {
            self.tags.insert(with);
        }
    }
}

/// The call of a search that answers false without looking: the tenth.
pub const SEARCH_CUTOFF: u32 = 10;

/// How far a count of calls `d` is from running out of `u32`.
pub open spec fn calls_left(d: nat) -> nat {
    if d < u32::MAX {
        (u32::MAX - d) as nat
    } else {
        0
    }
}

/// The depth-first search from `tag` for `required`, with `d` calls made before this
/// one: whether it finds `required`, and the count of calls afterwards. Each call counts
/// itself; the call that makes the count `SEARCH_CUTOFF` answers false, any other answers
/// true at `required` and else searches the tags that `tag` implies, in order, until one
/// of them answers true. A tag id that names no tag implies nothing, and a count that
/// would pass `u32::MAX` stops the search with false.
pub open spec fn search(tags: Map<u64, Tag>, tag: tag::Id, required: tag::Id, d: nat) -> (bool, nat)
    decreases calls_left(d), 0nat, 0nat,
{
    if d >= u32::MAX {
        (false, d)
    } else if d + 1 == SEARCH_CUTOFF {
        (false, d + 1)
    } else if tag == required {
        (true, d + 1)
    } else if !tags.dom().contains(tag.0) {
        (false, d + 1)
    } else {
        search_list(tags, tags[tag.0].implies.seq(), 0, required, d + 1)
    }
}

/// The search through `list[i..]`, in order, with `d` calls made so far.
pub open spec fn search_list(
    tags: Map<u64, Tag>,
    list: Seq<tag::Id>,
    i: nat,
    required: tag::Id,
    d: nat,
) -> (bool, nat)
    decreases calls_left(d), 1nat, list.len() - i,
{
    if i >= list.len() {
        (false, d)
    } else {
        let (found, after) = search(tags, list[i as int], required, d);
        if found {
            (true, after)
        } else {
            search_list(tags, list, i + 1, required, if after >= d { after } else { d })
        }
    }
}

/// A search never lowers the count of calls.
pub proof fn lemma_search_counts_up(tags: Map<u64, Tag>, tag: tag::Id, required: tag::Id, d: nat)
    ensures
        search(tags, tag, required, d).1 >= d,
    decreases calls_left(d), 0nat, 0nat,
{
    if d < u32::MAX && d + 1 != SEARCH_CUTOFF && tag != required && tags.dom().contains(tag.0) {
        lemma_search_list_counts_up(tags, tags[tag.0].implies.seq(), 0, required, d + 1);
    }
}

/// A search through a list never lowers the count of calls.
pub proof fn lemma_search_list_counts_up(
    tags: Map<u64, Tag>,
    list: Seq<tag::Id>,
    i: nat,
    required: tag::Id,
    d: nat,
)
    ensures
        search_list(tags, list, i, required, d).1 >= d,
    decreases calls_left(d), 1nat, list.len() - i,
{
    if i < list.len() {
        lemma_search_counts_up(tags, list[i as int], required, d);
        let after = search(tags, list[i as int], required, d).1;
        lemma_search_list_counts_up(tags, list, i + 1, required, after);
    }
}

/// Whether `chain` is a chain of implications that a search takes first: every tag of it
/// but the last exists, and the first tag it implies is the next one.
pub open spec fn first_implication_chain(tags: Map<u64, Tag>, chain: Seq<tag::Id>) -> bool {
    forall|k: int|
        0 <= k < chain.len() - 1 ==> tags.dom().contains((#[trigger] chain[k]).0) && tags[chain[k].0].implies.seq().len()
            > 0 && tags[chain[k].0].implies.seq()[0] == chain[k + 1]
}

/// The search from the tag at position `k` of a first-implication chain finds the last
/// tag of the chain.
proof fn lemma_chain_suffix_found(tags: Map<u64, Tag>, chain: Seq<tag::Id>, d: nat, k: int)
    requires
        0 <= k < chain.len(),
        d + chain.len() < SEARCH_CUTOFF,
        first_implication_chain(tags, chain),
    ensures
        search(tags, chain[k], chain.last(), d + k as nat).0,
    decreases chain.len() - k,
{
    if chain[k] != chain.last() {
        assert(k < chain.len() - 1);
        lemma_chain_suffix_found(tags, chain, d, k + 1);
        let list = tags[chain[k].0].implies.seq();
        assert(list[0] == chain[k + 1]);
        assert(search(tags, list[0], chain.last(), (d + k as nat + 1) as nat).0);
    }
}

/// Implication is followed through chains: when every tag of a chain (but the last)
/// implies the next one as the first of its implications, and the chain is shorter than
/// the cutoff leaves room for, a search from its first tag finds its last tag.
pub proof fn law_implication_chain_is_followed(tags: Map<u64, Tag>, chain: Seq<tag::Id>, d: nat)
    requires
        chain.len() > 0,
        d + chain.len() < SEARCH_CUTOFF,
        first_implication_chain(tags, chain),
    ensures
        search(tags, chain[0], chain.last(), d).0,
{
    lemma_chain_suffix_found(tags, chain, d, 0);
}

/// A tag that implies exactly one tag has it as the first of its implications.
proof fn lemma_single_implication_first(tags: Map<u64, Tag>, a: tag::Id, b: tag::Id)
    requires
        tags.dom().contains(a.0),
        tags[a.0].implies@ == set![b],
    ensures
        tags[a.0].implies.seq().len() > 0,
        tags[a.0].implies.seq()[0] == b,
{
    let s = tags[a.0].implies.seq();
    assert(s.to_set().contains(b));
    if s.len() == 0 {
        assert(s.to_set() =~= Set::<tag::Id>::empty());
    }
    assert(s.to_set().contains(s[0]));
}

/// An entry has every tag that its own tags lead to through a chain of single
/// implications shorter than the cutoff: with `cat` implying just `mammal` and `mammal`
/// implying just `animal`, an entry tagged `cat` has `animal`.
pub proof fn law_entry_has_tags_implied_in_chain(en: Entry, tags: Map<u64, Tag>, chain: Seq<tag::Id>)
    requires
        chain.len() > 0,
        chain.len() < SEARCH_CUTOFF,
        en.tags@.contains(chain[0]),
        forall|k: int|
            0 <= k < chain.len() - 1 ==> tags.dom().contains((#[trigger] chain[k]).0) && tags[chain[k].0].implies@
                == set![chain[k + 1]],
    ensures
        entry_has_tag(en, chain.last(), tags),
{
    assert forall|k: int| 0 <= k < chain.len() - 1 implies tags.dom().contains((#[trigger] chain[k]).0)
        && tags[chain[k].0].implies.seq().len() > 0 && tags[chain[k].0].implies.seq()[0] == chain[k + 1] by {
        lemma_single_implication_first(tags, chain[k], chain[k + 1]);
    }
    law_implication_chain_is_followed(tags, chain, 0);
    assert(search(tags, chain[0], chain.last(), 0).0);
}

/// The search through a list of tags that imply nothing finds `required` when the list
/// holds it, and makes one call per tag looked at.
proof fn lemma_leaf_list(tags: Map<u64, Tag>, list: Seq<tag::Id>, i: nat, required: tag::Id, d: nat)
    requires
        i <= list.len(),
        d + list.len() - i < SEARCH_CUTOFF,
        forall|j: int| 0 <= j < list.len() ==> !tags.dom().contains((#[trigger] list[j]).0) || tags[list[j].0].implies.seq().len() == 0,
    ensures
        search_list(tags, list, i, required, d).0 == list.subrange(i as int, list.len() as int).contains(required),
    decreases list.len() - i,
{
    let rest = list.subrange(i as int, list.len() as int);
    if i < list.len() {
        let t = list[i as int];
        let (found, after) = search(tags, t, required, d);
        if t != required && tags.dom().contains(t.0) {
            assert(search_list(tags, tags[t.0].implies.seq(), 0, required, d + 1) == (false, d + 1));
        }
        assert(after == d + 1);
        lemma_leaf_list(tags, list, i + 1, required, d + 1);
        let tail = list.subrange((i + 1) as int, list.len() as int);
        assert(rest =~= seq![t] + tail);
        if !found {
            assert(t != required);
            assert(search_list(tags, list, i, required, d) == search_list(tags, list, i + 1, required, d + 1));
            if rest.contains(required) {
                let j = choose|j: int| 0 <= j < rest.len() && rest[j] == required;
                assert(j > 0);
                assert(tail[j - 1] == required);
            }
            if tail.contains(required) {
                let j = choose|j: int| 0 <= j < tail.len() && tail[j] == required;
                assert(rest[j + 1] == required);
            }
        } else {
            assert(rest[0] == required);
        }
    } else {
        assert(rest.len() == 0);
    }
}

/// A tag that is implied directly is found, whatever its place among the implied tags,
/// as long as those tags imply nothing further and the cutoff leaves room for all of them.
pub proof fn law_direct_implication_is_found(tags: Map<u64, Tag>, a: tag::Id, required: tag::Id, d: nat)
    requires
        tags.dom().contains(a.0),
        tags[a.0].implies@.contains(required),
        d + tags[a.0].implies.seq().len() + 1 < SEARCH_CUTOFF,
        forall|t: tag::Id| #[trigger] tags[a.0].implies@.contains(t) ==> !tags.dom().contains(t.0) || tags[t.0].implies.seq().len() == 0,
    ensures
        search(tags, a, required, d).0,
{
    let list = tags[a.0].implies.seq();
    assert forall|j: int| 0 <= j < list.len() implies !tags.dom().contains((#[trigger] list[j]).0) || tags[list[j].0].implies.seq().len() == 0 by {
        assert(list.to_set().contains(list[j]));
    }
    if a != required {
        lemma_leaf_list(tags, list, 0, required, d + 1);
        assert(list.subrange(0, list.len() as int) =~= list);
        assert(list.to_set().contains(required));
    }
}

/// The search is cut off: along a chain in which each tag implies just the next one, a
/// tag ten calls away is not found.
pub proof fn law_search_is_cut_off(tags: Map<u64, Tag>, chain: Seq<tag::Id>)
    requires
        chain.len() == SEARCH_CUTOFF,
        forall|k: int|
            0 <= k < chain.len() - 1 ==> tags.dom().contains((#[trigger] chain[k]).0) && tags[chain[k].0].implies.seq()
                == seq![chain[k + 1]] && chain[k] != chain.last(),
    ensures
        !search(tags, chain[0], chain.last(), 0).0,
{
    lemma_chain_cut_off(tags, chain, 0);
}

/// From position `k` of such a chain, with `k` calls made, the last tag is not found.
proof fn lemma_chain_cut_off(tags: Map<u64, Tag>, chain: Seq<tag::Id>, k: int)
    requires
        chain.len() == SEARCH_CUTOFF,
        0 <= k < chain.len(),
        forall|j: int|
            0 <= j < chain.len() - 1 ==> tags.dom().contains((#[trigger] chain[j]).0) && tags[chain[j].0].implies.seq()
                == seq![chain[j + 1]] && chain[j] != chain.last(),
    ensures
        !search(tags, chain[k], chain.last(), k as nat).0,
    decreases chain.len() - k,
{
    if k < chain.len() - 1 {
        lemma_chain_cut_off(tags, chain, k + 1);
        let list = tags[chain[k].0].implies.seq();
        assert(list == seq![chain[k + 1]]);
        assert(list[0] == chain[k + 1]);
        let (f, after) = search(tags, chain[k + 1], chain.last(), (k + 1) as nat);
        assert(search_list(tags, list, 1, chain.last(), if after >= k + 1 { after } else { (k + 1) as nat }).0 == false);
    }
}

/// Whether one of the entry's tags is, or implies, `required`: a search from that tag,
/// with a count of its own, finds it.
pub open spec fn entry_has_tag(en: Entry, required: tag::Id, tags: Map<u64, Tag>) -> bool {
    exists|t: tag::Id| #[trigger] en.tags@.contains(t) && search(tags, t, required, 0).0
}

/// Whether `tag_id` is `required_tag_id` or implies it, searching depth first with the
/// calls counted in `depth`, which is shared over the whole search.
pub fn tag_satisfies_required_tag(
    tag_id: tag::Id,
    required_tag_id: tag::Id,
    tags: &IdMap<Tag>,
    depth: &mut u32,
) -> (r: bool)
    requires
        tags.wf(),
    ensures
        (r, *final(depth) as nat) == search(tags@, tag_id, required_tag_id, *old(depth) as nat),
    decreases calls_left(*old(depth) as nat),
{
    if *depth == u32::MAX {
        return false;
    }
    *depth = *depth + 1;
    if *depth == SEARCH_CUTOFF {
        return false;
    }
    if tag_id == required_tag_id {
        return true;
    }
    match tags.get(tag_id.0) {
        None => false,
        Some(tag) => {
            let implied = tag.implies.as_slice();
            let ghost list = tag.implies.seq();
            let ghost whole = search_list(tags@, list, 0, required_tag_id, *depth as nat);
            let mut i: usize = 0;
            while i < implied.len()
                invariant
                    i <= implied@.len(),
                    implied@ == list,
                    tags.wf(),
                    *old(depth) < *depth,
                    whole == search(tags@, tag_id, required_tag_id, *old(depth) as nat),
                    search_list(tags@, list, i as nat, required_tag_id, *depth as nat) == whole,
                decreases implied.len() - i,
            {
                let ghost before = *depth as nat;
                let found = tag_satisfies_required_tag(implied[i], required_tag_id, tags, depth);
                proof {
                    lemma_search_counts_up(tags@, list[i as int], required_tag_id, before);
                    assert(implied@[i as int] == list[i as int]);
                }
                if found {
                    return true;
                }
                i = i + 1;
            }
            false
        },
    }
}

impl Entry {
    /// Whether one of the entry's tags is, or implies, `required_tag_id`; each of its tags
    /// starts a search of its own.
    pub fn satisfies_required_tag(&self, required_tag_id: tag::Id, tags: &IdMap<Tag>) -> (r: bool)
        requires
            tags.wf(),
        ensures
            r == entry_has_tag(*self, required_tag_id, tags@),
    {
        let own = self.tags.as_slice();
        let mut i: usize = 0;
        while i < own.len()
            invariant
                i <= own@.len(),
                own@ == self.tags.seq(),
                tags.wf(),
                forall|j: int| 0 <= j < i ==> !search(tags@, #[trigger] own@[j], required_tag_id, 0).0,
            decreases own.len() - i,
        {
            let mut depth: u32 = 0;
            if tag_satisfies_required_tag(own[i], required_tag_id, tags, &mut depth) {
                proof {
                    assert(self.tags@.contains(own@[i as int]));
                }
                return true;
            }
            i = i + 1;
        }
        proof {
            assert forall|t: tag::Id| #[trigger] self.tags@.contains(t) implies !search(tags@, t, required_tag_id, 0).0 by {
                let j = choose|j: int| 0 <= j < own@.len() && own@[j] == t;
                assert(!search(tags@, own@[j], required_tag_id, 0).0);
            }
        }
        false
    }
}

impl Entry {
    /// Whether the entry `id` (this entry) meets all of `reqs`.
    pub fn reqs_satisfied(&self, id: Id, reqs: &Requirements, tags: &Tags, sequences: &Sequences) -> (r: bool)
        requires
            tags.wf(),
            sequences.wf(),
        ensures
            r == reqs_hold(*reqs, id, *self, tags@, sequences@),
    {
        reqs.all_satisfied_by(id, self, tags, sequences)
    }
}

/// `Some(uid)` when the entry meets `reqs`, `None` otherwise.
pub fn filter_map(
    uid: Id,
    entry: &Entry,
    reqs: &Requirements,
    tags: &Tags,
    sequences: &Sequences,
) -> (r: Option<Id>)
    requires
        tags.wf(),
        sequences.wf(),
    ensures
        r == if reqs_hold(*reqs, uid, *entry, tags@, sequences@) {
            Some(uid)
        } else {
            None
        },
{
    if entry.reqs_satisfied(uid, reqs, tags, sequences) {
        Some(uid)
    } else {
        None
    }
}

} // verus!
