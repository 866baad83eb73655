//! A collection: entries, the tags they carry, and sequences of them.
use vstd::prelude::*;

pub mod folder;
pub mod sequences;

use crate::db::{TagSet, Uid, UidCounter};
use crate::entry::{self, Entry};
use crate::filter_reqs::{reqs_hold, resolved_tag, tag_resolves, Requirements};
use crate::filter_spec::{split_words, words};
use crate::id_map::IdMap;
use crate::preferences::AppId;
use crate::sequence::{self, Sequence};
use crate::tag::{self, Tag};
use crate::util::path::{path_pop, path_push, popped_path, pushed_path};
use crate::util::position::{first_where, lemma_first_where, lemma_first_where_unique};
use crate::util::string::{
    ascii_lowercase, chars_of, decimal, dangling_label, make_ascii_lowercase, push_decimal, str_eq, string_from_chars,
};

verus! {

pub type Entries = IdMap<Entry>;

pub type Tags = IdMap<Tag>;

pub type Sequences = IdMap<Sequence>;

pub type TagSpecificApps = IdMap<AppId>;

/// Uid of a collection.
#[derive(Clone, Copy, PartialEq, Eq, Structural, Hash, Debug)]
pub struct Id(pub Uid);

/// The entry to tag does not exist.
#[derive(Debug)]
pub struct AddTagError;

/// One of the tags to merge does not exist.
#[derive(Debug)]
pub struct MergeTagsError;

/// The entry does not exist.
#[derive(Debug)]
pub struct NoSuchEntry;

/// A collection of entries.
///
/// Each collection has a root that all the entries stem from.
pub struct Collection {
    /// List of entries
    pub entries: Entries,
    /// List of tags
    pub tags: Tags,
    pub sequences: Sequences,
    pub tag_specific_apps: TagSpecificApps,
    /// Extensions that are ignored when updating from folder contents
    pub ignored_extensions: Vec<String>,
}

/// Whether one of the tag's names is `word`.
pub open spec fn tag_has_name(tag: Tag, word: Seq<char>) -> bool {
    exists|i: int| 0 <= i < tag.names@.len() && #[trigger] tag.names@[i]@ == word
}

/// Position of the first tag (in order) that has the name `word`, or -1.
pub open spec fn tag_index_for_name(tags: Seq<(u64, Tag)>, word: Seq<char>) -> int {
    first_where(tags, |p: (u64, Tag)| tag_has_name(p.1, word))
}

/// The uids of the entry ids in `ids`.
pub open spec fn entry_uids(ids: Seq<entry::Id>) -> Set<u64> {
    Set::new(|k: u64| exists|i: int| 0 <= i < ids.len() && (#[trigger] ids[i]).0 == k)
}

/// `new` is `old` with `tag` added to the entries whose uids are in `which`.
pub open spec fn entries_tagged(
    old: Map<u64, Entry>,
    new: Map<u64, Entry>,
    which: Set<u64>,
    tag: tag::Id,
) -> bool {
    &&& new.dom() == old.dom()
    &&& forall|k: u64|
        #[trigger] new.dom().contains(k) ==> new[k].path == old[k].path && new[k].tags@ == if which.contains(k) {
            old[k].tags@.insert(tag)
        } else {
            old[k].tags@
        }
}

/// `new` is `old` with `tag` taken off the entries whose uids are in `which`.
pub open spec fn entries_untagged(
    old: Map<u64, Entry>,
    new: Map<u64, Entry>,
    which: Set<u64>,
    tag: tag::Id,
) -> bool {
    &&& new.dom() == old.dom()
    &&& forall|k: u64|
        #[trigger] new.dom().contains(k) ==> new[k].path == old[k].path && new[k].tags@ == if which.contains(k) {
            old[k].tags@.remove(tag)
        } else {
            old[k].tags@
        }
}

/// `new` is `old` with all of `ids` added to the entries whose uids are in `which`.
pub open spec fn entries_tagged_all(
    old: Map<u64, Entry>,
    new: Map<u64, Entry>,
    which: Set<u64>,
    ids: Set<tag::Id>,
) -> bool {
    &&& new.dom() == old.dom()
    &&& forall|k: u64|
        #[trigger] new.dom().contains(k) ==> new[k].path == old[k].path && new[k].tags@ == if which.contains(k) {
            old[k].tags@.union(ids)
        } else {
            old[k].tags@
        }
}

/// The tags that the words of `ws` that name a tag resolve to.
pub open spec fn resolved_ids(tags: Tags, ws: Seq<Seq<char>>) -> Set<tag::Id> {
    Set::new(
        |t: tag::Id|
            exists|i: int| 0 <= i < ws.len() && tag_resolves(tags, #[trigger] ws[i]) && resolved_tag(tags, ws[i]) == t,
    )
}

/// Whether a word names no tag.
pub open spec fn names_no_tag(tags: Tags) -> spec_fn(Seq<char>) -> bool {
    |w: Seq<char>| !tag_resolves(tags, w)
}

/// The label shown for tag `id`: its first name, or `<dangling:Id(..)>` when no such tag
/// exists.
pub open spec fn tag_label(tags: Map<u64, Tag>, id: tag::Id) -> Seq<char> {
    if tags.dom().contains(id.0) {
        crate::tag::first_name_of_names(tags[id.0].names@)
    } else {
        dangling_label(id.0)
    }
}

/// Looking up tag names by id.
pub trait TagsExt {
    /// The tags can be looked up by uid.
    spec fn lookup_ready(&self) -> bool;

    fn first_name_of(&self, id: &tag::Id) -> String
        requires
            self.lookup_ready(),
    ;
}

impl TagsExt for Tags {
    open spec fn lookup_ready(&self) -> bool {
        self.wf()
    }

    fn first_name_of(&self, id: &tag::Id) -> (r: String)
        ensures
            r@ == tag_label(self@, *id),
    {
        match self.get(id.0) {
            Some(tag) => tag.first_name().to_owned(),
            None => {
                let mut s = String::new();
                s.append("<dangling:Id(");
                push_decimal(&mut s, id.0);
                s.append(")>");
                proof {
                    reveal_strlit("<dangling:Id(");
                    reveal_strlit(")>");
                    assert(s@ =~= dangling_label(id.0));
                }
                s
            },
        }
    }
}

impl Collection {
    /// All the maps of the collection are well formed.
    pub open spec fn wf(&self) -> bool {
        &&& self.entries.wf()
        &&& self.tags.wf()
        &&& self.sequences.wf()
        &&& self.tag_specific_apps.wf()
    }

    /// All uids of entries lie below `c`, so a counter that stands at `c` hands out fresh
    /// ones for entries.
    pub open spec fn entry_uids_below(&self, c: u64) -> bool {
        forall|k: u64| #[trigger] self.entries@.dom().contains(k) ==> k < c
    }

    /// All uids of tags lie below `c`.
    pub open spec fn tag_uids_below(&self, c: u64) -> bool {
        forall|k: u64| #[trigger] self.tags@.dom().contains(k) ==> k < c
    }

    /// All uids of sequences lie below `c`.
    pub open spec fn seq_uids_below(&self, c: u64) -> bool {
        forall|k: u64| #[trigger] self.sequences@.dom().contains(k) ==> k < c
    }

    /// All uids of entries, tags and sequences lie below `c`, so a counter that stands at
    /// `c` hands out fresh ones.
    pub open spec fn uids_below(&self, c: u64) -> bool {
        &&& self.entry_uids_below(c)
        &&& self.tag_uids_below(c)
        &&& self.seq_uids_below(c)
    }

    /// An empty collection.
    pub fn new() -> (r: Self)
        ensures
            r.wf(),
            r.entries@ == Map::<u64, Entry>::empty(),
            r.tags@ == Map::<u64, Tag>::empty(),
            r.sequences@ == Map::<u64, Sequence>::empty(),
            r.tag_specific_apps@ == Map::<u64, AppId>::empty(),
            r.ignored_extensions@.len() == 0,
    {
        Collection {
            entries: IdMap::new(),
            tags: IdMap::new(),
            sequences: IdMap::new(),
            tag_specific_apps: IdMap::new(),
            ignored_extensions: Vec::new(),
        }
    }

    /// Adds `tag` to the entry at position `i`.
    fn tag_entry_at(entries: &mut Entries, i: usize, tag: tag::Id)
        requires
            old(entries).wf(),
            i < old(entries).pairs().len(),
        ensures
            final(entries).wf(),
            final(entries).key_seq() == old(entries).key_seq(),
            entries_tagged(
                old(entries)@,
                final(entries)@,
                set![old(entries).key_seq()[i as int]],
                tag,
            ),
    {
        let ghost old_m = *entries;
        let ghost old_en = old_m.pairs()[i as int].1;
        let en = entries.value_at_mut(i);
        en.tags.insert(tag);
        proof {
            let new_en = entries.pairs()[i as int].1;
            assert(new_en.path == old_en.path);
            assert(new_en.tags@ == old_en.tags@.insert(tag));
            IdMap::lemma_update_view(&old_m, entries, i as int, new_en);
            old_m.lemma_view_at(i as int);
            let k = old_m.key_seq()[i as int];
            assert forall|kk: u64| #[trigger] entries@.dom().contains(kk) implies entries@[kk].path
                == old_m@[kk].path && entries@[kk].tags@ == if set![k].contains(kk) {
                old_m@[kk].tags@.insert(tag)
            } else {
                old_m@[kk].tags@
            } by {
                if kk == k {
                } else {
                }
            }
            assert(entries@.dom() =~= old_m@.dom());
        }
    }

    pub fn add_tag_for(&mut self, entry: entry::Id, tag: tag::Id) -> (r: Result<(), AddTagError>)
        requires
            old(self).wf(),
        ensures
            final(self).wf(),
            r is Ok <==> old(self).entries@.dom().contains(entry.0),
            final(self).entries.key_seq() == old(self).entries.key_seq(),
            entries_tagged(
                old(self).entries@,
                final(self).entries@,
                if r is Ok {
                    set![entry.0]
                } else {
                    Set::empty()
                },
                tag,
            ),
            final(self).tags == old(self).tags,
            final(self).sequences == old(self).sequences,
            final(self).tag_specific_apps == old(self).tag_specific_apps,
            final(self).ignored_extensions == old(self).ignored_extensions,
    {
        match self.entries.find(entry.0) {
            Some(i) => {
                Self::tag_entry_at(&mut self.entries, i, tag);
                Ok(())
            },
            None => Err(AddTagError),
        }
    }

    /// Tags each of `entries` in turn, stopping at the first that does not exist.
    pub fn add_tag_for_multi(&mut self, entries: &[entry::Id], tag: tag::Id) -> (r: Result<
        (),
        AddTagError,
    >)
        requires
            old(self).wf(),
        ensures
            ({
                let first_missing = first_where(
                    entries@,
                    |id: entry::Id| !old(self).entries@.dom().contains(id.0),
                );
                &&& r is Ok <==> first_missing < 0
                &&& entries_tagged(
                    old(self).entries@,
                    final(self).entries@,
                    entry_uids(
                        if first_missing < 0 {
                            entries@
                        } else {
                            entries@.take(first_missing)
                        },
                    ),
                    tag,
                )
            }),
            final(self).wf(),
            final(self).entries.key_seq() == old(self).entries.key_seq(),
            final(self).tags == old(self).tags,
            final(self).sequences == old(self).sequences,
            final(self).tag_specific_apps == old(self).tag_specific_apps,
            final(self).ignored_extensions == old(self).ignored_extensions,
    {
        let ghost pred = |id: entry::Id| !old(self).entries@.dom().contains(id.0);
        proof {
            lemma_first_where(entries@, pred);
        }
        let mut i: usize = 0;
        while i < entries.len()
            invariant
                i <= entries@.len(),
                self.wf(),
                pred == (|id: entry::Id| !old(self).entries@.dom().contains(id.0)),
                forall|j: int| 0 <= j < i ==> !pred(#[trigger] entries@[j]),
                self.entries.key_seq() == old(self).entries.key_seq(),
                entries_tagged(old(self).entries@, self.entries@, entry_uids(entries@.take(i as int)), tag),
                self.tags == old(self).tags,
                self.sequences == old(self).sequences,
                self.tag_specific_apps == old(self).tag_specific_apps,
                self.ignored_extensions == old(self).ignored_extensions,
            decreases entries@.len() - i,
        {
            let ghost before = self.entries@;
            match self.entries.find(entries[i].0) {
                Some(pos) => {
                    Self::tag_entry_at(&mut self.entries, pos, tag);
                    proof {
                        let s1 = entry_uids(entries@.take(i as int));
                        let s2 = entry_uids(entries@.take(i + 1));
                        assert(s2 =~= s1.insert(entries@[i as int].0)) by {
                            assert forall|k: u64| s2.contains(k) implies s1.insert(entries@[i as int].0).contains(k) by {
                                let j = choose|j: int| 0 <= j < i + 1 && (#[trigger] entries@.take(i + 1)[j]).0 == k;
                                if j < i {
                                    assert(entries@.take(i as int)[j].0 == k);
                                }
                            }
                            assert forall|k: u64| s1.insert(entries@[i as int].0).contains(k) implies s2.contains(k) by {
                                if k == entries@[i as int].0 {
                                    assert(entries@.take(i + 1)[i as int].0 == k);
                                } else {
                                    let j = choose|j: int| 0 <= j < i && (#[trigger] entries@.take(i as int)[j]).0 == k;
                                    assert(entries@.take(i + 1)[j].0 == k);
                                }
                            }
                        }
                        assert forall|k: u64| #[trigger] self.entries@.dom().contains(k) implies self.entries@[k].tags@ == if s2.contains(k) {
                            old(self).entries@[k].tags@.insert(tag)
                        } else {
                            old(self).entries@[k].tags@
                        } by {
                            if k == entries@[i as int].0 && s1.contains(k) {
                                assert(old(self).entries@[k].tags@.insert(tag).insert(tag) =~= old(self).entries@[k].tags@.insert(tag));
                            }
                        }
                    }
                    i = i + 1;
                },
                None => {
                    proof {
                        lemma_first_where_unique(entries@, pred, i as int);
                    }
                    return Err(AddTagError);
                },
            }
        }
        proof {
            assert(entries@.take(entries@.len() as int) =~= entries@);
            if first_where(entries@, pred) >= 0 {
                assert(!pred(entries@[first_where(entries@, pred)]));
            }
        }
        Ok(())
    }

    /// Takes `tag` off the entry at position `i`.
    fn untag_entry_at(entries: &mut Entries, i: usize, tag: tag::Id)
        requires
            old(entries).wf(),
            i < old(entries).pairs().len(),
        ensures
            final(entries).wf(),
            final(entries).key_seq() == old(entries).key_seq(),
            entries_untagged(
                old(entries)@,
                final(entries)@,
                set![old(entries).key_seq()[i as int]],
                tag,
            ),
    {
        let ghost old_m = *entries;
        let ghost old_en = old_m.pairs()[i as int].1;
        let en = entries.value_at_mut(i);
        en.tags.remove(tag);
        proof {
            let new_en = entries.pairs()[i as int].1;
            assert(new_en.path == old_en.path);
            assert(new_en.tags@ == old_en.tags@.remove(tag));
            IdMap::lemma_update_view(&old_m, entries, i as int, new_en);
            old_m.lemma_view_at(i as int);
            let k = old_m.key_seq()[i as int];
            assert forall|kk: u64| #[trigger] entries@.dom().contains(kk) implies entries@[kk].path
                == old_m@[kk].path && entries@[kk].tags@ == if set![k].contains(kk) {
                old_m@[kk].tags@.remove(tag)
            } else {
                old_m@[kk].tags@
            } by {
                if kk == k {
                } else {
                }
            }
            assert(entries@.dom() =~= old_m@.dom());
        }
    }

    /// Takes `tag` off each of `entries` in turn, stopping at the first that does not exist.
    pub fn remove_tag_for_multi(&mut self, entries: &[entry::Id], tag: tag::Id) -> (r: Result<
        (),
        AddTagError,
    >)
        requires
            old(self).wf(),
        ensures
            ({
                let first_missing = first_where(
                    entries@,
                    |id: entry::Id| !old(self).entries@.dom().contains(id.0),
                );
                &&& r is Ok <==> first_missing < 0
                &&& entries_untagged(
                    old(self).entries@,
                    final(self).entries@,
                    entry_uids(
                        if first_missing < 0 {
                            entries@
                        } else {
                            entries@.take(first_missing)
                        },
                    ),
                    tag,
                )
            }),
            final(self).wf(),
            final(self).entries.key_seq() == old(self).entries.key_seq(),
            final(self).tags == old(self).tags,
            final(self).sequences == old(self).sequences,
            final(self).tag_specific_apps == old(self).tag_specific_apps,
            final(self).ignored_extensions == old(self).ignored_extensions,
    {
        let ghost pred = |id: entry::Id| !old(self).entries@.dom().contains(id.0);
        proof {
            lemma_first_where(entries@, pred);
        }
        let mut i: usize = 0;
        while i < entries.len()
            invariant
                i <= entries@.len(),
                self.wf(),
                pred == (|id: entry::Id| !old(self).entries@.dom().contains(id.0)),
                forall|j: int| 0 <= j < i ==> !pred(#[trigger] entries@[j]),
                self.entries.key_seq() == old(self).entries.key_seq(),
                entries_untagged(old(self).entries@, self.entries@, entry_uids(entries@.take(i as int)), tag),
                self.tags == old(self).tags,
                self.sequences == old(self).sequences,
                self.tag_specific_apps == old(self).tag_specific_apps,
                self.ignored_extensions == old(self).ignored_extensions,
            decreases entries@.len() - i,
        {
            let ghost before = self.entries@;
            match self.entries.find(entries[i].0) {
                Some(pos) => {
                    Self::untag_entry_at(&mut self.entries, pos, tag);
                    proof {
                        let s1 = entry_uids(entries@.take(i as int));
                        let s2 = entry_uids(entries@.take(i + 1));
                        assert(s2 =~= s1.insert(entries@[i as int].0)) by {
                            assert forall|k: u64| s2.contains(k) implies s1.insert(entries@[i as int].0).contains(k) by {
                                let j = choose|j: int| 0 <= j < i + 1 && (#[trigger] entries@.take(i + 1)[j]).0 == k;
                                if j < i {
                                    assert(entries@.take(i as int)[j].0 == k);
                                }
                            }
                            assert forall|k: u64| s1.insert(entries@[i as int].0).contains(k) implies s2.contains(k) by {
                                if k == entries@[i as int].0 {
                                    assert(entries@.take(i + 1)[i as int].0 == k);
                                } else {
                                    let j = choose|j: int| 0 <= j < i && (#[trigger] entries@.take(i as int)[j]).0 == k;
                                    assert(entries@.take(i + 1)[j].0 == k);
                                }
                            }
                        }
                        assert forall|k: u64| #[trigger] self.entries@.dom().contains(k) implies self.entries@[k].tags@ == if s2.contains(k) {
                            old(self).entries@[k].tags@.remove(tag)
                        } else {
                            old(self).entries@[k].tags@
                        } by {
                            if k == entries@[i as int].0 && s1.contains(k) {
                                assert(old(self).entries@[k].tags@.remove(tag).remove(tag) =~= old(self).entries@[k].tags@.remove(tag));
                            }
                        }
                    }
                    i = i + 1;
                },
                None => {
                    proof {
                        lemma_first_where_unique(entries@, pred, i as int);
                    }
                    return Err(AddTagError);
                },
            }
        }
        proof {
            assert(entries@.take(entries@.len() as int) =~= entries@);
            if first_where(entries@, pred) >= 0 {
                assert(!pred(entries@[first_where(entries@, pred)]));
            }
        }
        Ok(())
    }

    /// Applies a typed list of tag names to `entries`: each word that names a tag (the
    /// first tag with that name) is added to each of `entries` in turn, up to the first that
    /// does not exist; the words that name no tag are handed back, in order, to be offered
    /// as new tags. The flag tells whether every adding reached all of `entries`.
    pub fn add_typed_tags(&mut self, entries: &[entry::Id], text: &str) -> (r: (Vec<String>, bool))
        requires
            old(self).wf(),
        ensures
            ({
                let ws = words(text@);
                let first_missing = first_where(
                    entries@,
                    |id: entry::Id| !old(self).entries@.dom().contains(id.0),
                );
                let which = entry_uids(
                    if first_missing < 0 {
                        entries@
                    } else {
                        entries@.take(first_missing)
                    },
                );
                &&& r.0@.map_values(|s: String| s@) == ws.filter(names_no_tag(old(self).tags))
                &&& r.1 == (first_missing < 0 || resolved_ids(old(self).tags, ws) == Set::<tag::Id>::empty())
                &&& entries_tagged_all(old(self).entries@, final(self).entries@, which, resolved_ids(old(self).tags, ws))
            }),
            final(self).wf(),
            final(self).entries.key_seq() == old(self).entries.key_seq(),
            final(self).tags == old(self).tags,
            final(self).sequences == old(self).sequences,
            final(self).tag_specific_apps == old(self).tag_specific_apps,
            final(self).ignored_extensions == old(self).ignored_extensions,
    {
        let ghost pred = |id: entry::Id| !old(self).entries@.dom().contains(id.0);
        let ghost fm = first_where(entries@, pred);
        let ghost which = entry_uids(
            if fm < 0 {
                entries@
            } else {
                entries@.take(fm)
            },
        );
        let ghost nt = names_no_tag(old(self).tags);
        let chars = chars_of(text);
        let ws = split_words(&chars);
        let ghost wv = ws@.map_values(|w: Vec<char>| w@);
        let mut unknown: Vec<String> = Vec::new();
        let mut ok = true;
        let mut i: usize = 0;
        proof {
            assert(wv.take(0) =~= Seq::<Seq<char>>::empty());
            assert(resolved_ids(old(self).tags, wv.take(0)) =~= Set::<tag::Id>::empty());
            assert(entries_tagged_all(old(self).entries@, self.entries@, which, Set::<tag::Id>::empty())) by {
                assert forall|k: u64| #[trigger] self.entries@.dom().contains(k) implies self.entries@[k].tags@
                    == if which.contains(k) {
                    old(self).entries@[k].tags@.union(Set::<tag::Id>::empty())
                } else {
                    old(self).entries@[k].tags@
                } by {
                    assert(old(self).entries@[k].tags@.union(Set::<tag::Id>::empty()) =~= old(self).entries@[k].tags@);
                }
            }
            reveal(Seq::filter);
        }
        while i < ws.len()
            invariant
                i <= ws@.len(),
                wv == ws@.map_values(|w: Vec<char>| w@),
                wv == words(text@),
                self.wf(),
                self.entries.key_seq() == old(self).entries.key_seq(),
                self.tags == old(self).tags,
                self.sequences == old(self).sequences,
                self.tag_specific_apps == old(self).tag_specific_apps,
                self.ignored_extensions == old(self).ignored_extensions,
                pred == (|id: entry::Id| !old(self).entries@.dom().contains(id.0)),
                fm == first_where(entries@, pred),
                which == entry_uids(
                    if fm < 0 {
                        entries@
                    } else {
                        entries@.take(fm)
                    },
                ),
                nt == names_no_tag(old(self).tags),
                unknown@.map_values(|s: String| s@) == wv.take(i as int).filter(nt),
                ok == (fm < 0 || resolved_ids(old(self).tags, wv.take(i as int)) == Set::<tag::Id>::empty()),
                entries_tagged_all(old(self).entries@, self.entries@, which, resolved_ids(old(self).tags, wv.take(i as int))),
            decreases ws@.len() - i,
        {
            let w = string_from_chars(ws[i].as_slice(), 0, ws[i].len());
            let ghost word = wv[i as int];
            let ghost s0 = resolved_ids(old(self).tags, wv.take(i as int));
            let ghost s1 = resolved_ids(old(self).tags, wv.take(i + 1));
            proof {
                assert(w@ =~= word);
                assert(wv.take(i + 1) =~= wv.take(i as int).push(word));
                wv.take(i as int).lemma_filter_push(word, nt);
            }
            match self.resolve_tag(w.as_str()) {
                Some(id) => {
                    let ghost before = self.entries@;
                    proof {
                        assert(tag_resolves(old(self).tags, word) && resolved_tag(old(self).tags, word) == id);
                        assert(s1 =~= s0.insert(id)) by {
                            assert forall|t: tag::Id| s1.contains(t) implies s0.insert(id).contains(t) by {
                                let j = choose|j: int|
                                    0 <= j < i + 1 && tag_resolves(old(self).tags, #[trigger] wv.take(i + 1)[j])
                                        && resolved_tag(old(self).tags, wv.take(i + 1)[j]) == t;
                                if j < i {
                                    assert(wv.take(i as int)[j] == wv.take(i + 1)[j]);
                                }
                            }
                            assert forall|t: tag::Id| s0.insert(id).contains(t) implies s1.contains(t) by {
                                if t == id {
                                    assert(wv.take(i + 1)[i as int] == word);
                                } else {
                                    let j = choose|j: int|
                                        0 <= j < i && tag_resolves(old(self).tags, #[trigger] wv.take(i as int)[j])
                                            && resolved_tag(old(self).tags, wv.take(i as int)[j]) == t;
                                    assert(wv.take(i + 1)[j] == wv.take(i as int)[j]);
                                }
                            }
                        }
                        assert((|e: entry::Id| !before.dom().contains(e.0)) =~= pred);
                    }
                    let res = self.add_tag_for_multi(entries, id);
                    proof {
                        assert(res is Ok <==> fm < 0);
                        assert(s1.contains(id));
                    }
                    if res.is_err() {
                        ok = false;
                    }
                    proof {
                        assert forall|k: u64| #[trigger] self.entries@.dom().contains(k) implies self.entries@[k].path
                            == old(self).entries@[k].path && self.entries@[k].tags@ == if which.contains(k) {
                            old(self).entries@[k].tags@.union(s1)
                        } else {
                            old(self).entries@[k].tags@
                        } by {
                            if which.contains(k) {
                                assert(old(self).entries@[k].tags@.union(s0).insert(id) =~= old(self).entries@[k].tags@.union(s1));
                            }
                        }
                        assert(self.entries@.dom() =~= old(self).entries@.dom());
                    }
                },
                None => {
                    unknown.push(w);
                    proof {
                        assert(!tag_resolves(old(self).tags, word));
                        assert(s1 =~= s0) by {
                            assert forall|t: tag::Id| s1.contains(t) implies s0.contains(t) by {
                                let j = choose|j: int|
                                    0 <= j < i + 1 && tag_resolves(old(self).tags, #[trigger] wv.take(i + 1)[j])
                                        && resolved_tag(old(self).tags, wv.take(i + 1)[j]) == t;
                                assert(j != i);
                                assert(wv.take(i as int)[j] == wv.take(i + 1)[j]);
                            }
                            assert forall|t: tag::Id| s0.contains(t) implies s1.contains(t) by {
                                let j = choose|j: int|
                                    0 <= j < i && tag_resolves(old(self).tags, #[trigger] wv.take(i as int)[j])
                                        && resolved_tag(old(self).tags, wv.take(i as int)[j]) == t;
                                assert(wv.take(i + 1)[j] == wv.take(i as int)[j]);
                            }
                        }
                        assert(unknown@.map_values(|s: String| s@) =~= wv.take(i as int).filter(nt).push(word));
                    }
                },
            }
            i = i + 1;
        }
        proof {
            assert(wv.take(i as int) =~= wv);
        }
        (unknown, ok)
    }

    /// Adds `tag` under a new uid.
    pub fn add_new_tag(&mut self, tag: Tag, uid_counter: &mut UidCounter) -> (r: tag::Id)
        requires
            old(self).wf(),
            old(self).tag_uids_below(old(uid_counter).value()),
            old(uid_counter).value() < u64::MAX,
        ensures
            final(self).wf(),
            final(self).tag_uids_below(final(uid_counter).value()),
            old(self).uids_below(old(uid_counter).value()) ==> final(self).uids_below(final(uid_counter).value()),
            r.0 == old(uid_counter).value(),
            final(uid_counter).value() == old(uid_counter).value() + 1,
            !old(self).tags@.dom().contains(r.0),
            final(self).tags@ == old(self).tags@.insert(r.0, tag),
            final(self).tags.key_seq() == old(self).tags.key_seq().push(r.0),
            final(self).entries == old(self).entries,
            final(self).sequences == old(self).sequences,
            final(self).tag_specific_apps == old(self).tag_specific_apps,
            final(self).ignored_extensions == old(self).ignored_extensions,
    {
        let uid = tag::Id(uid_counter.next());
        self.tags.insert(uid.0, tag);
        uid
    }

    /// Adds an untagged entry for `path` under a new uid.
    pub fn add_new_entry(&mut self, path: String, uid_counter: &mut UidCounter) -> (r: entry::Id)
        requires
            old(self).wf(),
            old(self).entry_uids_below(old(uid_counter).value()),
            old(uid_counter).value() < u64::MAX,
        ensures
            final(self).wf(),
            final(self).entry_uids_below(final(uid_counter).value()),
            old(self).uids_below(old(uid_counter).value()) ==> final(self).uids_below(final(uid_counter).value()),
            r.0 == old(uid_counter).value(),
            final(uid_counter).value() == old(uid_counter).value() + 1,
            !old(self).entries@.dom().contains(r.0),
            final(self).entries@.dom() == old(self).entries@.dom().insert(r.0),
            final(self).entries@[r.0].path == path,
            final(self).entries@[r.0].tags@ == Set::<tag::Id>::empty(),
            forall|k: u64| #[trigger] old(self).entries@.dom().contains(k) ==> final(self).entries@[k] == old(self).entries@[k],
            final(self).entries.key_seq() == old(self).entries.key_seq().push(r.0),
            final(self).entries.pairs() == old(self).entries.pairs().push((r.0, final(self).entries@[r.0])),
            final(self).tags == old(self).tags,
            final(self).sequences == old(self).sequences,
            final(self).tag_specific_apps == old(self).tag_specific_apps,
            final(self).ignored_extensions == old(self).ignored_extensions,
    {
        let uid = entry::Id(uid_counter.next());
        self.entries.insert(uid.0, Entry::new(path));
        uid
    }

    /// Adds an empty sequence named `name` under a new uid.
    pub fn add_new_sequence(&mut self, name: &str, uid_counter: &mut UidCounter) -> (r: sequence::Id)
        requires
            old(self).wf(),
            old(self).seq_uids_below(old(uid_counter).value()),
            old(uid_counter).value() < u64::MAX,
        ensures
            final(self).wf(),
            final(self).seq_uids_below(final(uid_counter).value()),
            old(self).uids_below(old(uid_counter).value()) ==> final(self).uids_below(final(uid_counter).value()),
            r.0 == old(uid_counter).value(),
            final(uid_counter).value() == old(uid_counter).value() + 1,
            !old(self).sequences@.dom().contains(r.0),
            final(self).sequences@.dom() == old(self).sequences@.dom().insert(r.0),
            final(self).sequences@[r.0].name@ == name@,
            final(self).sequences@[r.0].entries@ == Seq::<entry::Id>::empty(),
            forall|k: u64| #[trigger] old(self).sequences@.dom().contains(k) ==> final(self).sequences@[k] == old(self).sequences@[k],
            final(self).sequences.key_seq() == old(self).sequences.key_seq().push(r.0),
            final(self).entries == old(self).entries,
            final(self).tags == old(self).tags,
            final(self).tag_specific_apps == old(self).tag_specific_apps,
            final(self).ignored_extensions == old(self).ignored_extensions,
    {
        let uid = sequence::Id(uid_counter.next());
        self.sequences.insert(uid.0, Sequence::new_with_name(name));
        uid
    }

    /// Whether `word` is one of the names of `tag`.
    pub fn tag_names_contain(tag: &Tag, word: &str) -> (r: bool)
        ensures
            r == tag_has_name(*tag, word@),
    {
        let mut i: usize = 0;
        while i < tag.names.len()
            invariant
                i <= tag.names@.len(),
                forall|j: int| 0 <= j < i ==> (#[trigger] tag.names@[j])@ != word@,
            decreases tag.names@.len() - i,
        {
            if str_eq(tag.names[i].as_str(), word) {
                return true;
            }
            i = i + 1;
        }
        false
    }

    /// The first tag (in order) that has `word` as one of its names.
    pub fn resolve_tag(&self, word: &str) -> (r: Option<tag::Id>)
        requires
            self.wf(),
        ensures
            tag_index_for_name(self.tags.pairs(), word@) < 0 ==> r is None,
            tag_index_for_name(self.tags.pairs(), word@) >= 0 ==> r == Some(
                tag::Id(self.tags.key_seq()[tag_index_for_name(self.tags.pairs(), word@)]),
            ),
            r is Some <==> exists|k: u64| #[trigger] self.tags@.dom().contains(k) && tag_has_name(self.tags@[k], word@),
    {
        let ghost pred = |p: (u64, Tag)| tag_has_name(p.1, word@);
        proof {
            lemma_first_where(self.tags.pairs(), pred);
        }
        let mut i: usize = 0;
        while i < self.tags.len()
            invariant
                i <= self.tags.pairs().len(),
                self.wf(),
                pred == (|p: (u64, Tag)| tag_has_name(p.1, word@)),
                forall|j: int| 0 <= j < i ==> !pred(#[trigger] self.tags.pairs()[j]),
            decreases self.tags.pairs().len() - i,
        {
            if Self::tag_names_contain(self.tags.value_at(i), word) {
                proof {
                    lemma_first_where_unique(self.tags.pairs(), pred, i as int);
                    self.tags.lemma_view_at(i as int);
                }
                return Some(tag::Id(self.tags.key_at(i)));
            }
            i = i + 1;
        }
        proof {
            if first_where(self.tags.pairs(), pred) >= 0 {
                assert(!pred(self.tags.pairs()[first_where(self.tags.pairs(), pred)]));
            }
            assert forall|k: u64| #[trigger] self.tags@.dom().contains(k) implies !tag_has_name(self.tags@[k], word@) by {
                self.tags.lemma_key_index(k);
                assert(!pred(self.tags.pairs()[self.tags.index_of_key(k)]));
            }
        }
        None
    }

    /// Check if we have the specific text as a tag name in the tag database.
    pub fn has_text_as_tag_name(&self, tag_text: &str) -> (r: bool)
        requires
            self.wf(),
        ensures
            r == exists|k: u64| #[trigger] self.tags@.dom().contains(k) && tag_has_name(self.tags@[k], tag_text@),
    {
        self.resolve_tag(tag_text).is_some()
    }

    /// Adds a tag named by `tag_text` made ASCII lower case, unless a tag already has that
    /// name; returns `None` in that case.
    pub fn add_new_tag_from_text(&mut self, tag_text: String, uid_counter: &mut UidCounter) -> (r:
        Option<tag::Id>)
        requires
            old(self).wf(),
            old(self).tag_uids_below(old(uid_counter).value()),
            old(uid_counter).value() < u64::MAX,
        ensures
            final(self).wf(),
            final(self).tag_uids_below(final(uid_counter).value()),
            old(self).uids_below(old(uid_counter).value()) ==> final(self).uids_below(final(uid_counter).value()),
            r is None <==> exists|k: u64| #[trigger] old(self).tags@.dom().contains(k) && tag_has_name(
                old(self).tags@[k],
                ascii_lowercase(tag_text@),
            ),
            r is None ==> final(self).tags == old(self).tags && final(uid_counter).value() == old(
                uid_counter,
            ).value(),
            r matches Some(id) ==> {
                &&& id.0 == old(uid_counter).value()
                &&& final(uid_counter).value() == old(uid_counter).value() + 1
                &&& final(self).tags@.dom() == old(self).tags@.dom().insert(id.0)
                &&& !old(self).tags@.dom().contains(id.0)
                &&& final(self).tags@[id.0].names@.len() == 1
                &&& final(self).tags@[id.0].names@[0]@ == ascii_lowercase(tag_text@)
                &&& final(self).tags@[id.0].implies@ == Set::<tag::Id>::empty()
                &&& forall|k: u64| #[trigger] old(self).tags@.dom().contains(k) ==> final(self).tags@[k] == old(self).tags@[k]
            },
            final(self).entries == old(self).entries,
            final(self).sequences == old(self).sequences,
            final(self).tag_specific_apps == old(self).tag_specific_apps,
            final(self).ignored_extensions == old(self).ignored_extensions,
    {
        let mut tag_text = tag_text;
        make_ascii_lowercase(&mut tag_text);
        if self.has_text_as_tag_name(tag_text.as_str()) {
            return None;
        }
        let ghost text = tag_text@;
        let tag = Tag::with_name(tag_text);
        Some(self.add_new_tag(tag, uid_counter))
    }

    /// Where renaming the file of entry `uid` to `new_name` puts it: its folder, with
    /// `new_name` in place of its file name. `None` when there is no such entry.
    pub fn renamed_path(&self, uid: entry::Id, new_name: &str) -> (r: Option<String>)
        requires
            self.wf(),
        ensures
            r is Some <==> self.entries@.dom().contains(uid.0),
            r matches Some(p) ==> p@ == pushed_path(popped_path(self.entries@[uid.0].path@), new_name@),
    {
        match self.entries.get(uid.0) {
            Some(en) => {
                let folder = path_pop(en.path.as_str());
                Some(path_push(folder.as_str(), new_name))
            },
            None => None,
        }
    }

    /// Renames the file of entry `uid` to `new_name`: the entry's path keeps its folder
    /// and takes `new_name` as its file name.
    pub fn rename(&mut self, uid: entry::Id, new_name: &str) -> (r: Result<(), NoSuchEntry>)
        requires
            old(self).wf(),
        ensures
            final(self).wf(),
            r is Ok <==> old(self).entries@.dom().contains(uid.0),
            r is Ok ==> final(self).entries@.dom() == old(self).entries@.dom()
                && final(self).entries@[uid.0].path@ == pushed_path(
                popped_path(old(self).entries@[uid.0].path@),
                new_name@,
            ) && final(self).entries@[uid.0].tags == old(self).entries@[uid.0].tags
                && forall|k: u64| #[trigger] old(self).entries@.dom().contains(k) && k != uid.0 ==> final(self).entries@[k] == old(self).entries@[k],
            r is Err ==> final(self).entries == old(self).entries,
            final(self).entries.key_seq() == old(self).entries.key_seq(),
            final(self).tags == old(self).tags,
            final(self).sequences == old(self).sequences,
            final(self).tag_specific_apps == old(self).tag_specific_apps,
            final(self).ignored_extensions == old(self).ignored_extensions,
    {
        match self.entries.find(uid.0) {
            Some(i) => {
                let ghost old_m = self.entries;
                proof {
                    old_m.lemma_view_at(i as int);
                }
                let folder = path_pop(self.entries.value_at(i).path.as_str());
                let new_path = path_push(folder.as_str(), new_name);
                let en = self.entries.value_at_mut(i);
                en.path = new_path;
                proof {
                    IdMap::lemma_update_view(&old_m, &self.entries, i as int, self.entries.pairs()[i as int].1);
                }
                Ok(())
            },
            None => Err(NoSuchEntry),
        }
    }

    /// Every entry that has `replace` gets `with` in its place; every tag that implies
    /// `replace` implies `with` in its place.
    pub fn replace_tag_refs(&mut self, replace: tag::Id, with: tag::Id)
        requires
            old(self).wf(),
        ensures
            final(self).wf(),
            final(self).entries.key_seq() == old(self).entries.key_seq(),
            final(self).tags.key_seq() == old(self).tags.key_seq(),
            final(self).entries@.dom() == old(self).entries@.dom(),
            final(self).tags@.dom() == old(self).tags@.dom(),
            forall|k: u64| #[trigger] final(self).entries@.dom().contains(k) ==> entry_with_tag_replaced(
                old(self).entries@[k],
                final(self).entries@[k],
                replace,
                with,
            ),
            forall|k: u64| #[trigger] final(self).tags@.dom().contains(k) ==> tag_with_imply_replaced(
                old(self).tags@[k],
                final(self).tags@[k],
                replace,
                with,
            ),
            final(self).sequences == old(self).sequences,
            final(self).tag_specific_apps == old(self).tag_specific_apps,
            final(self).ignored_extensions == old(self).ignored_extensions,
    {
        let n = self.entries.len();
        let mut i: usize = 0;
        while i < n
            invariant
                i <= n,
                n == old(self).entries.pairs().len(),
                self.entries.pairs().len() == n,
                forall|j: int| 0 <= j < n ==> (#[trigger] self.entries.pairs()[j]).0 == old(self).entries.pairs()[j].0,
                forall|j: int| 0 <= j < i ==> entry_with_tag_replaced(old(self).entries.pairs()[j].1, #[trigger] self.entries.pairs()[j].1, replace, with),
                forall|j: int| i <= j < n ==> #[trigger] self.entries.pairs()[j] == old(self).entries.pairs()[j],
                self.tags == old(self).tags,
                self.sequences == old(self).sequences,
                self.tag_specific_apps == old(self).tag_specific_apps,
                self.ignored_extensions == old(self).ignored_extensions,
            decreases n - i,
        {
            let en = self.entries.value_at_mut(i);
            en.replace_tag(replace, with);
            i = i + 1;
        }
        proof {
            IdMap::lemma_same_keys(&old(self).entries, &self.entries);
            assert forall|k: u64| #[trigger] self.entries@.dom().contains(k) implies entry_with_tag_replaced(
                old(self).entries@[k],
                self.entries@[k],
                replace,
                with,
            ) by {
                self.entries.lemma_key_index(k);
                old(self).entries.lemma_view_at(self.entries.index_of_key(k));
            }
        }
        let ghost e1 = self.entries;
        let m = self.tags.len();
        let mut i: usize = 0;
        while i < m
            invariant
                i <= m,
                m == old(self).tags.pairs().len(),
                self.tags.pairs().len() == m,
                forall|j: int| 0 <= j < m ==> (#[trigger] self.tags.pairs()[j]).0 == old(self).tags.pairs()[j].0,
                forall|j: int| 0 <= j < i ==> tag_with_imply_replaced(old(self).tags.pairs()[j].1, #[trigger] self.tags.pairs()[j].1, replace, with),
                forall|j: int| i <= j < m ==> #[trigger] self.tags.pairs()[j] == old(self).tags.pairs()[j],
                self.entries == e1,
                self.sequences == old(self).sequences,
                self.tag_specific_apps == old(self).tag_specific_apps,
                self.ignored_extensions == old(self).ignored_extensions,
            decreases m - i,
        {
            let tag = self.tags.value_at_mut(i);
            tag.replace_imply(replace, with);
            i = i + 1;
        }
        proof {
            IdMap::lemma_same_keys(&old(self).tags, &self.tags);
            assert forall|k: u64| #[trigger] self.tags@.dom().contains(k) implies tag_with_imply_replaced(
                old(self).tags@[k],
                self.tags@[k],
                replace,
                with,
            ) by {
                self.tags.lemma_key_index(k);
                old(self).tags.lemma_view_at(self.tags.index_of_key(k));
            }
        }
    }

    /// Merges `merge` into `into`, replacing all references to it with `into`.
    ///
    /// 1. Replace all references of `merge` with `into`
    /// 2. Merge all the names of `merge` into `into`
    /// 3. Finally, remove `merge`
    ///
    /// When either tag does not exist, the references are still replaced, and the error
    /// comes after that.
    pub fn merge_tags(&mut self, merge: tag::Id, into: tag::Id) -> (r: Result<(), MergeTagsError>)
        requires
            old(self).wf(),
            merge != into,
        ensures
            final(self).wf(),
            r is Ok <==> old(self).tags@.dom().contains(merge.0) && old(self).tags@.dom().contains(into.0),
            final(self).entries@.dom() == old(self).entries@.dom(),
            final(self).entries.key_seq() == old(self).entries.key_seq(),
            forall|k: u64| #[trigger] final(self).entries@.dom().contains(k) ==> entry_with_tag_replaced(
                old(self).entries@[k],
                final(self).entries@[k],
                merge,
                into,
            ),
            r is Err ==> final(self).tags@.dom() == old(self).tags@.dom() && forall|k: u64| #[trigger] final(self).tags@.dom().contains(k) ==> tag_with_imply_replaced(
                old(self).tags@[k],
                final(self).tags@[k],
                merge,
                into,
            ),
            r is Ok ==> {
                &&& final(self).tags@.dom() == old(self).tags@.dom().remove(merge.0)
                &&& forall|k: u64| #[trigger] final(self).tags@.dom().contains(k) && k != into.0 ==> tag_with_imply_replaced(
                    old(self).tags@[k],
                    final(self).tags@[k],
                    merge,
                    into,
                )
                &&& final(self).tags@[into.0].names@ == old(self).tags@[into.0].names@ + old(self).tags@[merge.0].names@
                &&& final(self).tags@[into.0].implies@ == imply_replaced(old(self).tags@[into.0].implies@, merge, into)
            },
            final(self).sequences == old(self).sequences,
            final(self).tag_specific_apps == old(self).tag_specific_apps,
            final(self).ignored_extensions == old(self).ignored_extensions,
    {
        self.replace_tag_refs(merge, into);
        let mi = self.tags.find(merge.0);
        let ii = self.tags.find(into.0);
        match (mi, ii) {
            (Some(mi), Some(ii)) => {
                let ghost replaced = self.tags;
                proof {
                    replaced.lemma_view_at(mi as int);
                    replaced.lemma_view_at(ii as int);
                }
                let mut merge_names: Vec<String> = Vec::new();
                let mtag = self.tags.value_at_mut(mi);
                std::mem::swap(&mut merge_names, &mut mtag.names);
                let ghost mid = self.tags;
                proof {
                    IdMap::lemma_update_view(&replaced, &mid, mi as int, mid.pairs()[mi as int].1);
                    mid.lemma_view_at(ii as int);
                }
                let itag = self.tags.value_at_mut(ii);
                itag.names.append(&mut merge_names);
                proof {
                    IdMap::lemma_update_view(&mid, &self.tags, ii as int, self.tags.pairs()[ii as int].1);
                }
                let ghost before_remove = self.tags;
                self.tags.remove(merge.0);
                proof {
                    assert(self.tags@.dom() =~= old(self).tags@.dom().remove(merge.0));
                }
                Ok(())
            },
            _ => Err(MergeTagsError),
        }
    }
}

impl Collection {
    /// Removes the tags `tags_to_del` that exist, and takes them off every entry.
    pub fn remove_tags(&mut self, tags_to_del: &[tag::Id])
        requires
            old(self).wf(),
        ensures
            final(self).wf(),
            final(self).tags@.dom() == old(self).tags@.dom().filter(|k: u64| !tags_to_del@.contains(tag::Id(k))),
            forall|k: u64| #[trigger] final(self).tags@.dom().contains(k) ==> final(self).tags@[k] == old(self).tags@[k],
            final(self).entries@.dom() == old(self).entries@.dom(),
            final(self).entries.key_seq() == old(self).entries.key_seq(),
            forall|k: u64| #[trigger] final(self).entries@.dom().contains(k) ==> final(self).entries@[k].path == old(self).entries@[k].path
                && final(self).entries@[k].tags@ == old(self).entries@[k].tags@.difference(
                removed_tags(tags_to_del@, old(self).tags@.dom()),
            ),
            final(self).sequences == old(self).sequences,
            final(self).tag_specific_apps == old(self).tag_specific_apps,
            final(self).ignored_extensions == old(self).ignored_extensions,
    {
        let n = self.tags.len();
        let mut keep: Vec<bool> = Vec::new();
        let mut i: usize = 0;
        while i < n
            invariant
                i <= n,
                n == self.tags.pairs().len(),
                self.wf(),
                self.tags == old(self).tags,
                keep@.len() == i,
                forall|j: int| 0 <= j < i ==> #[trigger] keep@[j] == !tags_to_del@.contains(tag::Id(self.tags.key_seq()[j])),
                self.entries@.dom() == old(self).entries@.dom(),
                self.entries.key_seq() == old(self).entries.key_seq(),
                forall|k: u64| #[trigger] self.entries@.dom().contains(k) ==> self.entries@[k].path == old(self).entries@[k].path
                    && self.entries@[k].tags@ == old(self).entries@[k].tags@.difference(
                    removed_tags(tags_to_del@, self.tags.key_seq().take(i as int).to_set()),
                ),
                self.sequences == old(self).sequences,
                self.tag_specific_apps == old(self).tag_specific_apps,
                self.ignored_extensions == old(self).ignored_extensions,
            decreases n - i,
        {
            let key = self.tags.key_at(i);
            let del = contains_tag_id(tags_to_del, tag::Id(key));
            if del {
                cleanse_tag_from_entries(&mut self.entries, tag::Id(key));
            }
            keep.push(!del);
            proof {
                let ks = self.tags.key_seq();
                let before = removed_tags(tags_to_del@, ks.take(i as int).to_set());
                let after = removed_tags(tags_to_del@, ks.take(i + 1).to_set());
                assert(ks.take(i + 1) =~= ks.take(i as int).push(key));
                ks.take(i as int).lemma_push_to_set_commute(key);
                if del {
                    assert(after =~= before.insert(tag::Id(key)));
                } else {
                    assert(after =~= before);
                }
                assert forall|k: u64| #[trigger] self.entries@.dom().contains(k) implies self.entries@[k].tags@ == old(self).entries@[k].tags@.difference(after) by {
                    if del {
                        assert(self.entries@[k].tags@ =~= old(self).entries@[k].tags@.difference(after));
                    }
                }
            }
            i = i + 1;
        }
        proof {
            let ks = self.tags.key_seq();
            assert(ks.take(n as int) =~= ks);
            assert forall|t: tag::Id| #[trigger] ks.to_set().contains(t.0) == old(self).tags@.dom().contains(t.0) by {
                if ks.to_set().contains(t.0) {
                    assert(ks.contains(t.0));
                }
                if old(self).tags@.dom().contains(t.0) {
                    assert(ks.contains(t.0));
                }
            }
            assert(removed_tags(tags_to_del@, ks.to_set()) =~= removed_tags(tags_to_del@, old(self).tags@.dom()));
        }
        let ghost before = self.tags;
        self.tags.retain_mask(&keep);
        proof {
            let fset = old(self).tags@.dom().filter(|k: u64| !tags_to_del@.contains(tag::Id(k)));
            assert forall|k: u64| #[trigger] fset.contains(k)
                == self.tags@.dom().contains(k) by {
                if old(self).tags@.dom().contains(k) {
                    before.lemma_key_index(k);
                    let j = before.index_of_key(k);
                    assert(keep@[j] == !tags_to_del@.contains(tag::Id(k)));
                }
            }
            assert(self.tags@.dom() =~= fset);
            assert forall|k: u64| #[trigger] self.tags@.dom().contains(k) implies self.tags@[k] == old(self).tags@[k] by {
                before.lemma_key_index(k);
                let j = before.index_of_key(k);
                before.lemma_view_at(j);
                if !keep@[j] {
                    assert(!self.tags@.dom().contains(before.key_seq()[j]));
                }
                assert(keep@[j]);
                assert(self.tags@[before.key_seq()[j]] == before.pairs()[j].1);
            }
        }
    }
}

impl Collection {
    /// The sequences (in order) that hold any of `ids`.
    pub fn find_related_sequences(&self, ids: &[entry::Id]) -> (r: Vec<sequence::Id>)
        requires
            self.wf(),
        ensures
            r@ == self.sequences.pairs().filter(|p: (u64, Sequence)| seq_related(p.1, ids@)).map_values(
                |p: (u64, Sequence)| sequence::Id(p.0),
            ),
    {
        let ghost pred = |p: (u64, Sequence)| seq_related(p.1, ids@);
        let ghost f = |p: (u64, Sequence)| sequence::Id(p.0);
        let mut r: Vec<sequence::Id> = Vec::new();
        let mut i: usize = 0;
        while i < self.sequences.len()
            invariant
                i <= self.sequences.pairs().len(),
                pred == (|p: (u64, Sequence)| seq_related(p.1, ids@)),
                f == (|p: (u64, Sequence)| sequence::Id(p.0)),
                r@ == self.sequences.pairs().take(i as int).filter(pred).map_values(f),
            decreases self.sequences.pairs().len() - i,
        {
            let ghost ps = self.sequences.pairs();
            proof {
                assert(ps.take(i + 1) =~= ps.take(i as int).push(ps[i as int]));
                ps.take(i as int).lemma_filter_push(ps[i as int], pred);
            }
            if slice_contains_any_of(self.sequences.value_at(i).entries.as_slice(), ids) {
                r.push(sequence::Id(self.sequences.key_at(i)));
                proof {
                    ps.take(i as int).filter(pred).lemma_push_map_commute(f, ps[i as int]);
                }
            }
            i = i + 1;
        }
        proof {
            assert(self.sequences.pairs().take(i as int) =~= self.sequences.pairs());
        }
        r
    }

    /// The first sequence (in order) that holds `id`.
    pub fn get_first_related_sequence_of(&self, id: entry::Id) -> (r: Option<&Sequence>)
        requires
            self.wf(),
        ensures
            ({
                let f = first_where(self.sequences.pairs(), |p: (u64, Sequence)| p.1.entries@.contains(id));
                &&& f < 0 ==> r is None
                &&& f >= 0 ==> r == Some(&self.sequences.pairs()[f].1)
            }),
    {
        let ghost pred = |p: (u64, Sequence)| p.1.entries@.contains(id);
        proof {
            lemma_first_where(self.sequences.pairs(), pred);
        }
        let mut i: usize = 0;
        while i < self.sequences.len()
            invariant
                i <= self.sequences.pairs().len(),
                pred == (|p: (u64, Sequence)| p.1.entries@.contains(id)),
                forall|j: int| 0 <= j < i ==> !pred(#[trigger] self.sequences.pairs()[j]),
            decreases self.sequences.pairs().len() - i,
        {
            if self.sequences.value_at(i).contains_entry(id) {
                proof {
                    lemma_first_where_unique(self.sequences.pairs(), pred, i as int);
                }
                return Some(self.sequences.value_at(i));
            }
            i = i + 1;
        }
        proof {
            if first_where(self.sequences.pairs(), pred) >= 0 {
                assert(!pred(self.sequences.pairs()[first_where(self.sequences.pairs(), pred)]));
            }
        }
        None
    }
}

impl Collection {
    /// The entries (in order) that meet all of `reqs`.
    pub fn filter(&self, reqs: &Requirements) -> (r: Vec<entry::Id>)
        requires
            self.wf(),
        ensures
            r@ == self.entries.pairs().filter(
                |p: (u64, Entry)| reqs_hold(*reqs, entry::Id(p.0), p.1, self.tags@, self.sequences@),
            ).map_values(|p: (u64, Entry)| entry::Id(p.0)),
            forall|k: int| 0 <= k < r@.len() ==> self.entries@.dom().contains(#[trigger] r@[k].0),
    {
        let ghost pred = |p: (u64, Entry)| reqs_hold(*reqs, entry::Id(p.0), p.1, self.tags@, self.sequences@);
        let ghost f = |p: (u64, Entry)| entry::Id(p.0);
        let mut r: Vec<entry::Id> = Vec::new();
        let mut i: usize = 0;
        while i < self.entries.len()
            invariant
                i <= self.entries.pairs().len(),
                self.wf(),
                pred == (|p: (u64, Entry)| reqs_hold(*reqs, entry::Id(p.0), p.1, self.tags@, self.sequences@)),
                f == (|p: (u64, Entry)| entry::Id(p.0)),
                r@ == self.entries.pairs().take(i as int).filter(pred).map_values(f),
                forall|k: int| 0 <= k < r@.len() ==> self.entries@.dom().contains(#[trigger] r@[k].0),
            decreases self.entries.pairs().len() - i,
        {
            let ghost ps = self.entries.pairs();
            proof {
                assert(ps.take(i + 1) =~= ps.take(i as int).push(ps[i as int]));
                ps.take(i as int).lemma_filter_push(ps[i as int], pred);
            }
            let uid = entry::Id(self.entries.key_at(i));
            match entry::filter_map(uid, self.entries.value_at(i), reqs, &self.tags, &self.sequences) {
                Some(id) => {
                    proof {
                        self.entries.lemma_view_at(i as int);
                    }
                    r.push(id);
                    proof {
                        ps.take(i as int).filter(pred).lemma_push_map_commute(f, ps[i as int]);
                    }
                },
                None => {},
            }
            i = i + 1;
        }
        proof {
            assert(self.entries.pairs().take(i as int) =~= self.entries.pairs());
        }
        r
    }
}

/// Whether the sequence holds any of `ids`.
pub open spec fn seq_related(s: Sequence, ids: Seq<entry::Id>) -> bool {
    exists|i: int| 0 <= i < ids.len() && s.entries@.contains(#[trigger] ids[i])
}

/// Whether `haystack` holds any of `needles`.
pub fn slice_contains_any_of(haystack: &[entry::Id], needles: &[entry::Id]) -> (r: bool)
    ensures
        r == exists|i: int| 0 <= i < needles@.len() && haystack@.contains(#[trigger] needles@[i]),
{
    let mut i: usize = 0;
    while i < needles.len()
        invariant
            i <= needles@.len(),
            forall|j: int| 0 <= j < i ==> !haystack@.contains(#[trigger] needles@[j]),
        decreases needles.len() - i,
    {
        if crate::sequence::entry_position(haystack, needles[i]).is_some() {
            return true;
        }
        i = i + 1;
    }
    false
}

/// The tags among `del` that are uids in `existing`.
pub open spec fn removed_tags(del: Seq<tag::Id>, existing: Set<u64>) -> Set<tag::Id> {
    Set::new(|t: tag::Id| del.contains(t) && existing.contains(t.0))
}

/// Whether `ids` holds `id`.
pub fn contains_tag_id(ids: &[tag::Id], id: tag::Id) -> (r: bool)
    ensures
        r == ids@.contains(id),
{
    let mut i: usize = 0;
    while i < ids.len()
        invariant
            i <= ids@.len(),
            forall|j: int| 0 <= j < i ==> ids@[j] != id,
        decreases ids.len() - i,
    {
        if ids[i] == id {
            return true;
        }
        i = i + 1;
    }
    false
}

/// Takes `tag_to_cleanse` off every entry.
pub fn cleanse_tag_from_entries(entries: &mut Entries, tag_to_cleanse: tag::Id)
    requires
        old(entries).wf(),
    ensures
        final(entries).wf(),
        final(entries).key_seq() == old(entries).key_seq(),
        final(entries)@.dom() == old(entries)@.dom(),
        forall|k: u64| #[trigger] final(entries)@.dom().contains(k) ==> final(entries)@[k].path == old(entries)@[k].path
            && final(entries)@[k].tags@ == old(entries)@[k].tags@.remove(tag_to_cleanse),
{
    let n = entries.len();
    let mut i: usize = 0;
    while i < n
        invariant
            i <= n,
            n == old(entries).pairs().len(),
            entries.pairs().len() == n,
            forall|j: int| 0 <= j < n ==> (#[trigger] entries.pairs()[j]).0 == old(entries).pairs()[j].0,
            forall|j: int| 0 <= j < i ==> (#[trigger] entries.pairs()[j]).1.path == old(entries).pairs()[j].1.path
                && entries.pairs()[j].1.tags@ == old(entries).pairs()[j].1.tags@.remove(tag_to_cleanse),
            forall|j: int| i <= j < n ==> #[trigger] entries.pairs()[j] == old(entries).pairs()[j],
        decreases n - i,
    {
        let en = entries.value_at_mut(i);
        en.tags.remove(tag_to_cleanse);
        i = i + 1;
    }
    proof {
        IdMap::lemma_same_keys(&old(entries), &entries);
        assert forall|k: u64| #[trigger] entries@.dom().contains(k) implies entries@[k].path == old(entries)@[k].path
            && entries@[k].tags@ == old(entries)@[k].tags@.remove(tag_to_cleanse) by {
            entries.lemma_key_index(k);
            old(entries).lemma_view_at(entries.index_of_key(k));
        }
    }
}

/// The implied tags after `replace` is replaced by `with`.
pub open spec fn imply_replaced(implies: Set<tag::Id>, replace: tag::Id, with: tag::Id) -> Set<tag::Id> {
    if implies.contains(replace) {
        implies.remove(replace).insert(with)
    } else {
        implies
    }
}

/// `new` is `old` with the tag `replace` replaced by `with`.
/// After one tag is replaced by another, nothing carries or implies the replaced tag, and
/// whatever carried or implied it carries or implies its replacement.
pub proof fn law_replaced_tag_is_gone(implies: Set<tag::Id>, replace: tag::Id, with: tag::Id)
    requires
        replace != with,
    ensures
        !imply_replaced(implies, replace, with).contains(replace),
        implies.contains(replace) ==> imply_replaced(implies, replace, with).contains(with),
        forall|t: tag::Id| t != replace && #[trigger] implies.contains(t) ==> imply_replaced(implies, replace, with).contains(t),
{
}

pub open spec fn entry_with_tag_replaced(old: Entry, new: Entry, replace: tag::Id, with: tag::Id) -> bool {
    &&& new.path == old.path
    &&& new.tags@ == imply_replaced(old.tags@, replace, with)
}

/// `new` is `old` with the implied tag `replace` replaced by `with`.
pub open spec fn tag_with_imply_replaced(old: Tag, new: Tag, replace: tag::Id, with: tag::Id) -> bool {
    &&& new.names == old.names
    &&& new.implies@ == imply_replaced(old.implies@, replace, with)
}

} // verus!
