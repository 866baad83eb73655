//! Misc entry/collection utilities.
use vstd::prelude::*;

use crate::collection::Collection;
use crate::db::TagSet;
use crate::entry;
use crate::tag;

verus! {

/// Whether `id` names an entry of `coll`.
pub open spec fn names_entry(coll: &Collection, id: entry::Id) -> bool {
    coll.entries@.dom().contains(id.0)
}

/// The tags that every existing entry among `ids` carries (none when no id names an
/// entry).
pub open spec fn tags_common_to(coll: &Collection, ids: Seq<entry::Id>) -> Set<tag::Id> {
    Set::new(
        |t: tag::Id|
            (exists|i: int| 0 <= i < ids.len() && names_entry(coll, #[trigger] ids[i])) && forall|i: int|
                0 <= i < ids.len() && names_entry(coll, #[trigger] ids[i]) ==> coll.entries@[ids[i].0].tags@.contains(t),
    )
}

/// The tags of `a` that `b` also has.
fn intersect(a: &TagSet, b: &TagSet) -> (r: TagSet)
    ensures
        r@ == a@.intersect(b@),
{
    let own = a.as_slice();
    let mut r = TagSet::new();
    let mut j: usize = 0;
    while j < own.len()
        invariant
            j <= own@.len(),
            own@ == a.seq(),
            r@ == own@.take(j as int).to_set().intersect(b@),
        decreases own@.len() - j,
    {
        if b.contains(own[j]) {
            r.insert(own[j]);
        }
        proof {
            assert(own@.take(j + 1) =~= own@.take(j as int).push(own@[j as int]));
            own@.take(j as int).lemma_push_to_set_commute(own@[j as int]);
            assert(r@ =~= own@.take(j + 1).to_set().intersect(b@));
        }
        j = j + 1;
    }
    proof {
        assert(own@.take(j as int) =~= own@);
        assert(a@ =~= a.seq().to_set());
    }
    r
}

/// A copy of the set `a`.
fn copy_set(a: &TagSet) -> (r: TagSet)
    ensures
        r@ == a@,
{
    intersect(a, a)
}

/// The tags that all the existing entries among `ids` carry, as the filter window shows
/// them for a group of entries (ids without an entry are skipped).
pub fn common_tags(ids: &[entry::Id], coll: &Collection) -> (r: TagSet)
    requires
        coll.wf(),
    ensures
        r@ == tags_common_to(coll, ids@),
{
    let mut set: Option<TagSet> = None;
    let mut i: usize = 0;
    while i < ids.len()
        invariant
            i <= ids@.len(),
            coll.wf(),
            set is None <==> forall|k: int| 0 <= k < i ==> !names_entry(coll, #[trigger] ids@[k]),
            set matches Some(s) ==> s@ == tags_common_to(coll, ids@.take(i as int)),
        decreases ids.len() - i,
    {
        let id = ids[i];
        let ghost pre = ids@.take(i as int);
        let ghost post = ids@.take(i + 1);
        proof {
            assert(post =~= pre.push(id));
        }
        match coll.entries.get(id.0) {
            Some(en) => {
                let next = match &set {
                    None => copy_set(&en.tags),
                    Some(s) => intersect(s, &en.tags),
                };
                proof {
                    assert(names_entry(coll, post[i as int]));
                    assert forall|t: tag::Id| #[trigger] tags_common_to(coll, post).contains(t) == next@.contains(t) by {
                        if next@.contains(t) {
                            assert forall|k: int| 0 <= k < post.len() && names_entry(coll, #[trigger] post[k]) implies coll.entries@[post[k].0].tags@.contains(t) by {
                                if k < i {
                                    assert(post[k] == pre[k]);
                                    assert(set is Some);
                                }
                            }
                        }
                        if tags_common_to(coll, post).contains(t) {
                            assert(coll.entries@[post[i as int].0].tags@.contains(t));
                            if set is Some {
                                let k0 = choose|k: int| 0 <= k < i && names_entry(coll, #[trigger] ids@[k]);
                                assert(pre[k0] == ids@[k0]);
                                assert forall|k: int| 0 <= k < pre.len() && names_entry(coll, #[trigger] pre[k]) implies coll.entries@[pre[k].0].tags@.contains(t) by {
                                    assert(post[k] == pre[k]);
                                }
                            }
                        }
                    }
                    assert(tags_common_to(coll, post) =~= next@);
                }
                set = Some(next);
            },
            None => {
                proof {
                    assert(!names_entry(coll, post[i as int]));
                    if set is Some {
                        let k0 = choose|k: int| 0 <= k < i && names_entry(coll, #[trigger] ids@[k]);
                        assert(pre[k0] == ids@[k0]);
                        assert(post[k0] == ids@[k0]);
                        assert forall|t: tag::Id| #[trigger] tags_common_to(coll, post).contains(t) == tags_common_to(coll, pre).contains(t) by {
                            if tags_common_to(coll, pre).contains(t) {
                                assert forall|k: int| 0 <= k < post.len() && names_entry(coll, #[trigger] post[k]) implies coll.entries@[post[k].0].tags@.contains(t) by {
                                    if k < i {
                                        assert(post[k] == pre[k]);
                                    }
                                }
                            }
                            if tags_common_to(coll, post).contains(t) {
                                assert forall|k: int| 0 <= k < pre.len() && names_entry(coll, #[trigger] pre[k]) implies coll.entries@[pre[k].0].tags@.contains(t) by {
                                    assert(post[k] == pre[k]);
                                }
                            }
                        }
                        assert(tags_common_to(coll, post) =~= tags_common_to(coll, pre));
                    }
                }
            },
        }
        i = i + 1;
    }
    proof {
        assert(ids@.take(ids@.len() as int) =~= ids@);
    }
    match set {
        Some(s) => s,
        None => {
            proof {
                assert(tags_common_to(coll, ids@) =~= Set::<tag::Id>::empty());
            }
            TagSet::new()
        },
    }
}

} // verus!
