//! Filter requirements: which entries a filter selects, and how a parsed filter string
//! becomes them.
use vstd::prelude::*;

use crate::collection::{tag_index_for_name, tag_label, Collection, Sequences, Tags, TagsExt};
use crate::entry::{self, entry_has_tag, Entry};
use crate::filter_lang::{FnCall, Requirement};
use crate::id_map::{lemma_masked_filter, masked, retain_by_mask};
use crate::sequence::Sequence;
use crate::util::position::{first_where, lemma_first_where, lemma_first_where_unique};
use crate::tag::{self, Tag};
use crate::util::string::{
    contains_substring, decimal, has_substring, lowercase, parse_usize, parsed_usize, push_decimal,
    str_eq, to_lowercase,
};

verus! {

/// A list of requirements; an entry is selected when it meets all of them.
#[derive(Debug, PartialEq)]
pub struct Requirements {
    reqs: Vec<Req>,
}

/// A requirement that an entry can meet.
#[derive(Debug, PartialEq)]
pub enum Req {
    /// Any of the requirements holds.
    Any(Requirements),
    /// All of the requirements hold.
    All(Requirements),
    /// None of the requirements holds.
    NoneOf(Requirements),
    /// The entry has the tag, or a tag that implies it.
    Tag(tag::Id),
    /// The entry has exactly this tag.
    TagExact(tag::Id),
    /// The requirement does not hold.
    Not(Box<Req>),
    /// The lower-cased path contains the string.
    FilenameSub(String),
    /// The entry is part of a sequence.
    PartOfSeq,
    /// The entry has exactly this many tags.
    NTags(usize),
}

/// Why a parsed filter could not be turned into requirements.
#[derive(Debug)]
pub enum ReqTransformError {
    UnknownFn { name: String },
    NoSuchTag(String),
    MissingParameter,
    InvalidParameter,
}

/// Whether `r` requires the tag `id`.
pub open spec fn is_tag_req(r: Req, id: tag::Id) -> bool {
    r matches Req::Tag(x) && x == id
}

/// Whether `r` requires exactly the tag `id`.
pub open spec fn is_tag_exact_req(r: Req, id: tag::Id) -> bool {
    r matches Req::TagExact(x) && x == id
}

/// Whether `r` requires not having the tag `id`.
pub open spec fn is_not_tag_req(r: Req, id: tag::Id) -> bool {
    r matches Req::Not(b) && is_tag_req(*b, id)
}

/// Whether some sequence holds the entry `id`.
pub open spec fn in_some_sequence(seqs: Map<u64, Sequence>, id: entry::Id) -> bool {
    exists|k: u64| #[trigger] seqs.dom().contains(k) && seqs[k].entries@.contains(id)
}

/// Whether the entry `id` with contents `en` meets `req`.
pub open spec fn req_holds(
    req: Req,
    id: entry::Id,
    en: Entry,
    tags: Map<u64, Tag>,
    seqs: Map<u64, Sequence>,
) -> bool
    decreases req,
{
    match req {
        Req::Any(rs) => exists|i: int|
            0 <= i < rs.seq().len() && req_holds(#[trigger] rs.seq()[i], id, en, tags, seqs),
        Req::All(rs) => forall|i: int|
            0 <= i < rs.seq().len() ==> req_holds(#[trigger] rs.seq()[i], id, en, tags, seqs),
        Req::NoneOf(rs) => !exists|i: int|
            0 <= i < rs.seq().len() && req_holds(#[trigger] rs.seq()[i], id, en, tags, seqs),
        Req::Tag(t) => entry_has_tag(en, t, tags),
        Req::TagExact(t) => en.tags@.contains(t),
        Req::Not(b) => !req_holds(*b, id, en, tags, seqs),
        Req::FilenameSub(s) => has_substring(lowercase(en.path@), s@),
        Req::PartOfSeq => in_some_sequence(seqs, id),
        Req::NTags(n) => en.tags@.len() == n,
    }
}

/// Whether the entry meets all of `reqs`.
pub open spec fn reqs_hold(
    reqs: Requirements,
    id: entry::Id,
    en: Entry,
    tags: Map<u64, Tag>,
    seqs: Map<u64, Sequence>,
) -> bool {
    forall|i: int| 0 <= i < reqs.seq().len() ==> req_holds(#[trigger] reqs.seq()[i], id, en, tags, seqs)
}

/// Whether some sequence of `sequences` holds `id`.
pub fn part_of_some_sequence(sequences: &Sequences, id: entry::Id) -> (r: bool)
    requires
        sequences.wf(),
    ensures
        r == in_some_sequence(sequences@, id),
{
    let mut i: usize = 0;
    while i < sequences.len()
        invariant
            i <= sequences.pairs().len(),
            sequences.wf(),
            forall|j: int| 0 <= j < i ==> !(#[trigger] sequences.pairs()[j]).1.entries@.contains(id),
        decreases sequences.pairs().len() - i,
    {
        if sequences.value_at(i).contains_entry(id) {
            proof {
                sequences.lemma_view_at(i as int);
            }
            return true;
        }
        i = i + 1;
    }
    proof {
        assert forall|k: u64| #[trigger] sequences@.dom().contains(k) implies !sequences@[k].entries@.contains(id) by {
            sequences.lemma_key_index(k);
            assert(!sequences.pairs()[sequences.index_of_key(k)].1.entries@.contains(id));
        }
    }
    false
}

impl Req {
    /// Whether the entry `id` with contents `en` meets this requirement.
    pub fn satisfied_by(&self, id: entry::Id, en: &Entry, tags: &Tags, sequences: &Sequences) -> (r: bool)
        requires
            tags.wf(),
            sequences.wf(),
        ensures
            r == req_holds(*self, id, *en, tags@, sequences@),
        decreases self,
    {
        match self {
            Req::Any(rs) => {
                let r = rs.any_satisfied_by(id, en, tags, sequences);
                proof {
                    assert(rs.seq() == rs.reqs@);
                }
                r
            },
            Req::All(rs) => rs.all_satisfied_by(id, en, tags, sequences),
            Req::NoneOf(rs) => {
                let r = rs.any_satisfied_by(id, en, tags, sequences);
                proof {
                    assert(rs.seq() == rs.reqs@);
                }
                !r
            },
            Req::Tag(t) => en.satisfies_required_tag(*t, tags),
            Req::TagExact(t) => en.tags.contains(*t),
            Req::Not(b) => !b.satisfied_by(id, en, tags, sequences),
            Req::FilenameSub(s) => {
                let lower = to_lowercase(en.path.as_str());
                contains_substring(lower.as_str(), s.as_str())
            },
            Req::PartOfSeq => part_of_some_sequence(sequences, id),
            Req::NTags(n) => en.tags.len() == *n,
        }
    }
}

/// What `any` may answer for `f` over `s`: true only when some call of `f` on an item
/// answers true, false only when every call answers false.
pub open spec fn any_result<F: Fn(&Req) -> bool>(s: Seq<Req>, f: F, r: bool) -> bool {
    &&& r ==> exists|i: int| 0 <= i < s.len() && call_ensures(f, (&#[trigger] s[i],), true)
    &&& !r ==> forall|i: int| 0 <= i < s.len() ==> call_ensures(f, (&#[trigger] s[i],), false)
}

/// What `all` may answer for `f` over `s`: true only when every call of `f` on an item
/// answers true, false only when some call answers false.
pub open spec fn all_result<F: Fn(&Req) -> bool>(s: Seq<Req>, f: F, r: bool) -> bool {
    &&& r ==> forall|i: int| 0 <= i < s.len() ==> call_ensures(f, (&#[trigger] s[i],), true)
    &&& !r ==> exists|i: int| 0 <= i < s.len() && call_ensures(f, (&#[trigger] s[i],), false)
}

/// What `none` may answer for `f` over `s`: the opposite of what `any` may answer.
pub open spec fn none_result<F: Fn(&Req) -> bool>(s: Seq<Req>, f: F, r: bool) -> bool {
    any_result(s, f, !r)
}

/// Whether each call of `f` on a requirement has one possible answer.
pub open spec fn answers_fixed<F: Fn(&Req) -> bool>(f: F) -> bool {
    forall|q: Req, a: bool, b: bool| call_ensures(f, (&q,), a) && call_ensures(f, (&q,), b) ==> a == b
}

/// Whether `g` answers the opposite of `f` on every requirement.
pub open spec fn answers_negated<F: Fn(&Req) -> bool, G: Fn(&Req) -> bool>(f: F, g: G) -> bool {
    forall|q: Req, b: bool| #[trigger] call_ensures(g, (&q,), b) ==> call_ensures(f, (&q,), !b)
}

impl Requirements {
    /// The requirements, in order.
    pub closed spec fn seq(&self) -> Seq<Req> {
        self.reqs@
    }

    /// Whether the entry meets any of the requirements.
    pub fn any_satisfied_by(&self, id: entry::Id, en: &Entry, tags: &Tags, sequences: &Sequences) -> (r: bool)
        requires
            tags.wf(),
            sequences.wf(),
        ensures
            r == exists|i: int| 0 <= i < self.seq().len() && req_holds(#[trigger] self.seq()[i], id, *en, tags@, sequences@),
        decreases self,
    {
        let mut i: usize = 0;
        while i < self.reqs.len()
            invariant
                i <= self.reqs@.len(),
                tags.wf(),
                sequences.wf(),
                forall|j: int| 0 <= j < i ==> !req_holds(#[trigger] self.reqs@[j], id, *en, tags@, sequences@),
            decreases self.reqs.len() - i,
        {
            proof {
                assert(decreases_to!(self => self.reqs@[i as int]));
            }
            if self.reqs[i].satisfied_by(id, en, tags, sequences) {
                proof {
                    assert(self.seq()[i as int] == self.reqs@[i as int]);
                    assert(req_holds(self.seq()[i as int], id, *en, tags@, sequences@));
                }
                return true;
            }
            i = i + 1;
        }
        false
    }

    /// Whether the entry meets all of the requirements.
    pub fn all_satisfied_by(&self, id: entry::Id, en: &Entry, tags: &Tags, sequences: &Sequences) -> (r: bool)
        requires
            tags.wf(),
            sequences.wf(),
        ensures
            r == reqs_hold(*self, id, *en, tags@, sequences@),
        decreases self,
    {
        let mut i: usize = 0;
        while i < self.reqs.len()
            invariant
                i <= self.reqs@.len(),
                tags.wf(),
                sequences.wf(),
                forall|j: int| 0 <= j < i ==> req_holds(#[trigger] self.reqs@[j], id, *en, tags@, sequences@),
            decreases self.reqs.len() - i,
        {
            proof {
                assert(decreases_to!(self => self.reqs@[i as int]));
            }
            if !self.reqs[i].satisfied_by(id, en, tags, sequences) {
                proof {
                    assert(self.seq()[i as int] == self.reqs@[i as int]);
                }
                return false;
            }
            i = i + 1;
        }
        true
    }
}

/// Whether some requirement of `s` is `Tag(id)`.
pub open spec fn has_tag_req(s: Seq<Req>, id: tag::Id) -> bool {
    exists|i: int| 0 <= i < s.len() && is_tag_req(#[trigger] s[i], id)
}

/// Whether some requirement of `s` is `TagExact(id)`.
pub open spec fn has_tag_exact_req(s: Seq<Req>, id: tag::Id) -> bool {
    exists|i: int| 0 <= i < s.len() && is_tag_exact_req(#[trigger] s[i], id)
}

/// Whether some requirement of `s` is `Not(Tag(id))`.
pub open spec fn has_not_tag_req(s: Seq<Req>, id: tag::Id) -> bool {
    exists|i: int| 0 <= i < s.len() && is_not_tag_req(#[trigger] s[i], id)
}

/// Which kind of top-level tag requirement an operation is about.
pub enum TagReqKind {
    Tag,
    TagExact,
    NotTag,
}

/// Whether `r` is the requirement of kind `kind` on the tag `id`.
pub open spec fn is_kind_req(r: Req, kind: TagReqKind, id: tag::Id) -> bool {
    match kind {
        TagReqKind::Tag => is_tag_req(r, id),
        TagReqKind::TagExact => is_tag_exact_req(r, id),
        TagReqKind::NotTag => is_not_tag_req(r, id),
    }
}

/// The requirement of kind `kind` on the tag `id`.
pub open spec fn kind_req(kind: TagReqKind, id: tag::Id) -> Req {
    match kind {
        TagReqKind::Tag => Req::Tag(id),
        TagReqKind::TagExact => Req::TagExact(id),
        TagReqKind::NotTag => Req::Not(Box::new(Req::Tag(id))),
    }
}

impl Req {
    fn is_kind(&self, kind: &TagReqKind, id: tag::Id) -> (r: bool)
        ensures
            r == is_kind_req(*self, *kind, id),
    {
        match kind {
            TagReqKind::Tag => match self {
                Req::Tag(x) => *x == id,
                _ => false,
            },
            TagReqKind::TagExact => match self {
                Req::TagExact(x) => *x == id,
                _ => false,
            },
            TagReqKind::NotTag => match self {
                Req::Not(b) => match &**b {
                    Req::Tag(x) => *x == id,
                    _ => false,
                },
                _ => false,
            },
        }
    }
}

impl Default for Requirements {
    fn default() -> (r: Self)
        ensures
            r.seq() == Seq::<Req>::empty(),
    {
        Requirements { reqs: Vec::new() }
    }
}

impl Requirements {
    /// Whether some requirement is of kind `kind` on `id`.
    fn have_kind(&self, kind: &TagReqKind, id: tag::Id) -> (r: bool)
        ensures
            r == exists|i: int| 0 <= i < self.seq().len() && is_kind_req(#[trigger] self.seq()[i], *kind, id),
    {
        let mut i: usize = 0;
        while i < self.reqs.len()
            invariant
                i <= self.reqs@.len(),
                forall|j: int| 0 <= j < i ==> !is_kind_req(#[trigger] self.reqs@[j], *kind, id),
            decreases self.reqs.len() - i,
        {
            if self.reqs[i].is_kind(kind, id) {
                assert(is_kind_req(self.seq()[i as int], *kind, id));
                return true;
            }
            i = i + 1;
        }
        proof {
            assert forall|j: int| 0 <= j < self.seq().len() implies !is_kind_req(#[trigger] self.seq()[j], *kind, id) by {
                assert(!is_kind_req(self.reqs@[j], *kind, id));
            }
        }
        false
    }

    /// Takes away every top-level requirement of kind `kind` on `id`.
    fn remove_kind(&mut self, kind: &TagReqKind, id: tag::Id)
        ensures
            final(self).seq() == old(self).seq().filter(|r: Req| !is_kind_req(r, *kind, id)),
    {
        let mut keep: Vec<bool> = Vec::new();
        let mut i: usize = 0;
        while i < self.reqs.len()
            invariant
                i <= self.reqs@.len(),
                self.reqs == old(self).reqs,
                keep@.len() == i,
                forall|j: int| 0 <= j < i ==> #[trigger] keep@[j] == !is_kind_req(self.reqs@[j], *kind, id),
            decreases self.reqs.len() - i,
        {
            let k = !self.reqs[i].is_kind(kind, id);
            keep.push(k);
            i = i + 1;
        }
        proof {
            lemma_masked_filter(self.reqs@, keep@, |r: Req| !is_kind_req(r, *kind, id));
        }
        retain_by_mask(&mut self.reqs, &keep);
    }

    /// Without any requirement.
    pub fn clear(&mut self)
        ensures
            final(self).seq() == Seq::<Req>::empty(),
    {
        self.reqs.clear();
    }

    /// Whether a top-level requirement asks for the tag `id`.
    pub fn have_tag(&self, id: tag::Id) -> (r: bool)
        ensures
            r == has_tag_req(self.seq(), id),
    {
        self.have_kind(&TagReqKind::Tag, id)
    }

    /// Whether a top-level requirement asks for exactly the tag `id`.
    pub fn have_tag_exact(&self, id: tag::Id) -> (r: bool)
        ensures
            r == has_tag_exact_req(self.seq(), id),
    {
        self.have_kind(&TagReqKind::TagExact, id)
    }

    /// It's required that the item doesn't have this tag.
    pub fn not_have_tag(&self, id: tag::Id) -> (r: bool)
        ensures
            r == has_not_tag_req(self.seq(), id),
    {
        self.have_kind(&TagReqKind::NotTag, id)
    }

    /// Adds the top-level requirement of kind `kind` on `id`.
    fn add_kind(&mut self, kind: &TagReqKind, id: tag::Id)
        ensures
            final(self).seq() == old(self).seq().push(kind_req(*kind, id)),
    {
        let req = match kind {
            TagReqKind::Tag => Req::Tag(id),
            TagReqKind::TagExact => Req::TagExact(id),
            TagReqKind::NotTag => Req::Not(Box::new(Req::Tag(id))),
        };
        self.reqs.push(req);
    }

    /// Adds or takes away the top-level requirement of kind `kind` on `id`.
    fn set_kind(&mut self, kind: &TagReqKind, id: tag::Id, on: bool)
        ensures
            on ==> final(self).seq() == old(self).seq().push(kind_req(*kind, id)),
            !on ==> final(self).seq() == old(self).seq().filter(|r: Req| !is_kind_req(r, *kind, id)),
            (exists|i: int| 0 <= i < final(self).seq().len() && is_kind_req(#[trigger] final(self).seq()[i], *kind, id)) == on,
    {
        if on {
            self.add_kind(kind, id);
            proof {
                let n = old(self).seq().len() as int;
                assert(is_kind_req(self.seq()[n], *kind, id));
            }
        } else {
            self.remove_kind(kind, id);
            proof {
                let pred = |r: Req| !is_kind_req(r, *kind, id);
                assert forall|i: int| 0 <= i < self.seq().len() implies !is_kind_req(#[trigger] self.seq()[i], *kind, id) by {
                    old(self).seq().lemma_filter_pred(pred, i);
                }
            }
        }
    }

    /// Note that this is top-level only. It might result in conflicting requirements.
    pub fn set_have_tag(&mut self, id: tag::Id, have: bool)
        ensures
            have ==> final(self).seq() == old(self).seq().push(Req::Tag(id)),
            !have ==> final(self).seq() == old(self).seq().filter(|r: Req| !is_tag_req(r, id)),
            has_tag_req(final(self).seq(), id) == have,
    {
        self.set_kind(&TagReqKind::Tag, id, have);
        proof {
            assert((|r: Req| !is_kind_req(r, TagReqKind::Tag, id)) =~= (|r: Req| !is_tag_req(r, id)));
        }
    }

    /// Note that this is top-level only. It might result in conflicting requirements.
    pub fn set_have_tag_exact(&mut self, id: tag::Id, have: bool)
        ensures
            have ==> final(self).seq() == old(self).seq().push(Req::TagExact(id)),
            !have ==> final(self).seq() == old(self).seq().filter(|r: Req| !is_tag_exact_req(r, id)),
            has_tag_exact_req(final(self).seq(), id) == have,
    {
        self.set_kind(&TagReqKind::TagExact, id, have);
        proof {
            assert((|r: Req| !is_kind_req(r, TagReqKind::TagExact, id)) =~= (|r: Req| !is_tag_exact_req(r, id)));
        }
    }

    /// Note that this is top-level only. It might result in conflicting requirements.
    pub fn set_not_have_tag(&mut self, id: tag::Id, not_have: bool)
        ensures
            not_have ==> final(self).seq() == old(self).seq().push(Req::Not(Box::new(Req::Tag(id)))),
            !not_have ==> final(self).seq() == old(self).seq().filter(|r: Req| !is_not_tag_req(r, id)),
            has_not_tag_req(final(self).seq(), id) == not_have,
    {
        self.set_kind(&TagReqKind::NotTag, id, not_have);
        proof {
            assert((|r: Req| !is_kind_req(r, TagReqKind::NotTag, id)) =~= (|r: Req| !is_not_tag_req(r, id)));
        }
    }

    /// Note that this is top-level only. It might result in conflicting requirements.
    pub fn toggle_have_tag(&mut self, id: tag::Id)
        ensures
            has_tag_req(old(self).seq(), id) ==> final(self).seq() == old(self).seq().filter(|r: Req| !is_tag_req(r, id)),
            !has_tag_req(old(self).seq(), id) ==> final(self).seq() == old(self).seq().push(Req::Tag(id)),
            has_tag_req(final(self).seq(), id) == !has_tag_req(old(self).seq(), id),
    {
        let have = self.have_tag(id);
        self.set_have_tag(id, !have);
    }

    /// Note that this is top-level only. It might result in conflicting requirements.
    pub fn toggle_have_tag_exact(&mut self, id: tag::Id)
        ensures
            has_tag_exact_req(old(self).seq(), id) ==> final(self).seq() == old(self).seq().filter(|r: Req| !is_tag_exact_req(r, id)),
            !has_tag_exact_req(old(self).seq(), id) ==> final(self).seq() == old(self).seq().push(Req::TagExact(id)),
            has_tag_exact_req(final(self).seq(), id) == !has_tag_exact_req(old(self).seq(), id),
    {
        let have = self.have_tag_exact(id);
        self.set_have_tag_exact(id, !have);
    }

    /// Note that this is top-level only. It might result in conflicting requirements.
    pub fn toggle_not_have_tag(&mut self, id: tag::Id)
        ensures
            has_not_tag_req(old(self).seq(), id) ==> final(self).seq() == old(self).seq().filter(|r: Req| !is_not_tag_req(r, id)),
            !has_not_tag_req(old(self).seq(), id) ==> final(self).seq() == old(self).seq().push(Req::Not(Box::new(Req::Tag(id)))),
            has_not_tag_req(final(self).seq(), id) == !has_not_tag_req(old(self).seq(), id),
    {
        let not_have = self.not_have_tag(id);
        self.set_not_have_tag(id, !not_have);
    }

    pub fn is_empty(&self) -> (r: bool)
        ensures
            r == (self.seq().len() == 0),
    {
        self.reqs.len() == 0
    }

    /// Whether `f` holds for some requirement (top level only).
    pub fn any(&self, f: impl Fn(&Req) -> bool) -> (r: bool)
        requires
            forall|i: int| 0 <= i < self.seq().len() ==> call_requires(f, (&#[trigger] self.seq()[i],)),
        ensures
            any_result(self.seq(), f, r),
    {
        let mut i: usize = 0;
        while i < self.reqs.len()
            invariant
                i <= self.reqs@.len(),
                forall|j: int| 0 <= j < self.seq().len() ==> call_requires(f, (&#[trigger] self.seq()[j],)),
                forall|j: int| 0 <= j < i ==> call_ensures(f, (&#[trigger] self.seq()[j],), false),
            decreases self.reqs.len() - i,
        {
            assert(self.seq()[i as int] == self.reqs@[i as int]);
            if f(&self.reqs[i]) {
                return true;
            }
            i = i + 1;
        }
        false
    }

    /// Whether `f` holds for every requirement (top level only).
    pub fn all(&self, f: impl Fn(&Req) -> bool) -> (r: bool)
        requires
            forall|i: int| 0 <= i < self.seq().len() ==> call_requires(f, (&#[trigger] self.seq()[i],)),
        ensures
            all_result(self.seq(), f, r),
    {
        let mut i: usize = 0;
        while i < self.reqs.len()
            invariant
                i <= self.reqs@.len(),
                forall|j: int| 0 <= j < self.seq().len() ==> call_requires(f, (&#[trigger] self.seq()[j],)),
                forall|j: int| 0 <= j < i ==> call_ensures(f, (&#[trigger] self.seq()[j],), true),
            decreases self.reqs.len() - i,
        {
            assert(self.seq()[i as int] == self.reqs@[i as int]);
            if !f(&self.reqs[i]) {
                return false;
            }
            i = i + 1;
        }
        true
    }

    /// Whether `f` holds for no requirement (top level only).
    pub fn none(&self, f: impl Fn(&Req) -> bool) -> (r: bool)
        requires
            forall|i: int| 0 <= i < self.seq().len() ==> call_requires(f, (&#[trigger] self.seq()[i],)),
        ensures
            none_result(self.seq(), f, r),
    {
        !self.any(f)
    }

    /// Whether the tag named `name` is required (top level only).
    pub fn have_tag_by_name(&self, name: &str, coll: &Collection) -> (r: bool)
        requires
            coll.wf(),
        ensures
            ({
                let ix = tag_index_for_name(coll.tags.pairs(), name@);
                r == (ix >= 0 && has_tag_req(self.seq(), tag::Id(coll.tags.key_seq()[ix])))
            }),
    {
        match coll.resolve_tag(name) {
            Some(id) => self.have_tag(id),
            None => false,
        }
    }

    /// Whether not having the tag named `name` is required (top level only).
    pub fn not_have_tag_by_name(&self, name: &str, coll: &Collection) -> (r: bool)
        requires
            coll.wf(),
        ensures
            ({
                let ix = tag_index_for_name(coll.tags.pairs(), name@);
                r == (ix >= 0 && has_not_tag_req(self.seq(), tag::Id(coll.tags.key_seq()[ix])))
            }),
    {
        match coll.resolve_tag(name) {
            Some(id) => self.not_have_tag(id),
            None => false,
        }
    }
}

/// Names of the function that asks for any of its parameters.
pub open spec fn is_any_fn(name: Seq<char>) -> bool {
    name == "any"@
}

pub open spec fn is_all_fn(name: Seq<char>) -> bool {
    name == "all"@
}

pub open spec fn is_none_fn(name: Seq<char>) -> bool {
    name == "none"@
}

/// Names of the function that asks for a part of the file name.
pub open spec fn is_filename_fn(name: Seq<char>) -> bool {
    name == "filename"@ || name == "file"@ || name == "fname"@ || name == "f"@
}

/// Names of the function that asks for membership in a sequence.
pub open spec fn is_seq_fn(name: Seq<char>) -> bool {
    name == "seq"@ || name == "sequence"@
}

/// Names of the function that asks for entries without tags.
pub open spec fn is_untagged_fn(name: Seq<char>) -> bool {
    name == "notag"@ || name == "no-tag"@ || name == "untagged"@
}

pub open spec fn is_ntags_fn(name: Seq<char>) -> bool {
    name == "ntags"@
}

/// The text of a plain or exact tag requirement.
pub open spec fn word_of(f: Requirement) -> Option<Seq<char>> {
    match f {
        Requirement::Tag(t) => Some(t@),
        Requirement::TagExact(t) => Some(t@),
        _ => None,
    }
}

/// Whether the tag named `name` exists (so that resolving it succeeds).
pub open spec fn tag_resolves(tags: Tags, name: Seq<char>) -> bool {
    tag_index_for_name(tags.pairs(), name) >= 0
}

/// The tag that the name `name` resolves to: the first tag (in order) with that name.
pub open spec fn resolved_tag(tags: Tags, name: Seq<char>) -> tag::Id {
    tag::Id(tags.key_seq()[tag_index_for_name(tags.pairs(), name)])
}

/// Whether the parsed requirement `f` can be turned into a requirement.
pub open spec fn transform_ok(f: Requirement, tags: Tags) -> bool
    decreases f,
{
    match f {
        Requirement::Tag(name) => tag_resolves(tags, name@),
        Requirement::TagExact(name) => tag_resolves(tags, name@),
        Requirement::FnCall(call) => {
            if is_any_fn(call.name@) || is_all_fn(call.name@) || is_none_fn(call.name@) {
                forall|i: int| 0 <= i < call.params@.len() ==> transform_ok(#[trigger] call.params@[i], tags)
            } else if is_filename_fn(call.name@) {
                call.params@.len() > 0 && word_of(call.params@[0]) is Some
            } else if is_seq_fn(call.name@) || is_untagged_fn(call.name@) {
                true
            } else if is_ntags_fn(call.name@) {
                call.params@.len() > 0 && word_of(call.params@[0]) is Some && parsed_usize(
                    word_of(call.params@[0])->0,
                ) is Some
            } else {
                false
            }
        },
        Requirement::Not(b) => transform_ok(*b, tags),
    }
}

/// The error for a parsed requirement that cannot be turned into a requirement.
pub open spec fn transform_err(f: Requirement, tags: Tags) -> ReqTransformError
    decreases f, 0int,
{
    match f {
        Requirement::Tag(name) => ReqTransformError::NoSuchTag(name),
        Requirement::TagExact(name) => ReqTransformError::NoSuchTag(name),
        Requirement::FnCall(call) => {
            if is_any_fn(call.name@) || is_all_fn(call.name@) || is_none_fn(call.name@) {
                first_err_in(call.params@, 0, tags)
            } else if is_filename_fn(call.name@) || is_ntags_fn(call.name@) {
                if call.params@.len() == 0 {
                    ReqTransformError::MissingParameter
                } else {
                    ReqTransformError::InvalidParameter
                }
            } else {
                ReqTransformError::UnknownFn { name: call.name }
            }
        },
        Requirement::Not(b) => transform_err(*b, tags),
    }
}

/// The error of the first of `params[i..]` that cannot be turned into a requirement.
pub open spec fn first_err_in(params: Seq<Requirement>, i: int, tags: Tags) -> ReqTransformError
    decreases params, params.len() - i,
{
    if 0 <= i < params.len() {
        if !transform_ok(params[i], tags) {
            transform_err(params[i], tags)
        } else {
            first_err_in(params, i + 1, tags)
        }
    } else {
        ReqTransformError::MissingParameter
    }
}

/// Whether the requirements `rs` are what the parsed requirements `fs` turn into.
pub open spec fn all_transform_to(fs: Seq<Requirement>, rs: Seq<Req>, tags: Tags) -> bool
    decreases fs, 0int,
{
    &&& rs.len() == fs.len()
    &&& forall|i: int| 0 <= i < fs.len() ==> transforms_to(#[trigger] fs[i], rs[i], tags)
}

/// Whether `r` is what the parsed requirement `f` turns into.
pub open spec fn transforms_to(f: Requirement, r: Req, tags: Tags) -> bool
    decreases f, 1int,
{
    match f {
        Requirement::Tag(name) => r == Req::Tag(resolved_tag(tags, name@)),
        Requirement::TagExact(name) => r == Req::TagExact(resolved_tag(tags, name@)),
        Requirement::FnCall(call) => {
            if is_any_fn(call.name@) {
                r matches Req::Any(rs) && all_transform_to(call.params@, rs.seq(), tags)
            } else if is_all_fn(call.name@) {
                r matches Req::All(rs) && all_transform_to(call.params@, rs.seq(), tags)
            } else if is_none_fn(call.name@) {
                r matches Req::NoneOf(rs) && all_transform_to(call.params@, rs.seq(), tags)
            } else if is_filename_fn(call.name@) {
                r matches Req::FilenameSub(s) && call.params@.len() > 0 && word_of(call.params@[0]) == Some(s@)
            } else if is_seq_fn(call.name@) {
                r == Req::PartOfSeq
            } else if is_untagged_fn(call.name@) {
                r == Req::NTags(0)
            } else if is_ntags_fn(call.name@) {
                r matches Req::NTags(n) && call.params@.len() > 0 && word_of(call.params@[0]) is Some
                    && parsed_usize(word_of(call.params@[0])->0) == Some(n as nat)
            } else {
                false
            }
        },
        Requirement::Not(b) => r matches Req::Not(rb) && transforms_to(*b, *rb, tags),
    }
}

/// The text of a plain or exact tag requirement.
fn word_text(f: &Requirement) -> (r: Option<&String>)
    ensures
        match r {
            Some(t) => word_of(*f) == Some(t@),
            None => word_of(*f) is None,
        },
{
    match f {
        Requirement::Tag(t) => Some(t),
        Requirement::TagExact(t) => Some(t),
        _ => None,
    }
}

impl Req {
    /// Turns a parsed requirement into a requirement, resolving tag names in `coll`.
    pub fn from_tagfilter_lang_req(tf_req: Requirement, coll: &Collection) -> (r: Result<
        Self,
        ReqTransformError,
    >)
        requires
            coll.wf(),
        ensures
            match r {
                Ok(req) => transform_ok(tf_req, coll.tags) && transforms_to(tf_req, req, coll.tags),
                Err(e) => !transform_ok(tf_req, coll.tags) && e == transform_err(tf_req, coll.tags),
            },
        decreases tf_req,
    {
        let ghost f = tf_req;
        match tf_req {
            Requirement::Tag(name) => match coll.resolve_tag(name.as_str()) {
                Some(id) => Ok(Req::Tag(id)),
                None => Err(ReqTransformError::NoSuchTag(name)),
            },
            Requirement::TagExact(name) => match coll.resolve_tag(name.as_str()) {
                Some(id) => Ok(Req::TagExact(id)),
                None => Err(ReqTransformError::NoSuchTag(name)),
            },
            Requirement::FnCall(call) => {
                let ghost c = call;
                let is_any = str_eq(call.name.as_str(), "any");
                let is_all = str_eq(call.name.as_str(), "all");
                let is_none = str_eq(call.name.as_str(), "none");
                if is_any || is_all || is_none {
                    let mut reqs = Requirements::default();
                    proof {
                        assert(decreases_to!(f => c.params));
                    }
                    proof {
                        lemma_first_where(c.params@, |g: Requirement| !transform_ok(g, coll.tags));
                        let j = first_where(c.params@, |g: Requirement| !transform_ok(g, coll.tags));
                        if j >= 0 {
                            lemma_first_err_in(c.params@, 0, coll.tags);
                        }
                    }
                    match reqs.resolve(call.params, coll) {
                        Ok(()) => {
                            if is_any {
                                Ok(Req::Any(reqs))
                            } else if is_all {
                                Ok(Req::All(reqs))
                            } else {
                                Ok(Req::NoneOf(reqs))
                            }
                        },
                        Err(e) => Err(e),
                    }
                } else if str_eq(call.name.as_str(), "filename") || str_eq(call.name.as_str(), "file")
                    || str_eq(call.name.as_str(), "fname") || str_eq(call.name.as_str(), "f") {
                    if call.params.len() == 0 {
                        Err(ReqTransformError::MissingParameter)
                    } else {
                        match word_text(&call.params[0]) {
                            Some(t) => Ok(Req::FilenameSub(t.clone())),
                            None => Err(ReqTransformError::InvalidParameter),
                        }
                    }
                } else if str_eq(call.name.as_str(), "seq") || str_eq(call.name.as_str(), "sequence") {
                    Ok(Req::PartOfSeq)
                } else if str_eq(call.name.as_str(), "notag") || str_eq(call.name.as_str(), "no-tag")
                    || str_eq(call.name.as_str(), "untagged") {
                    Ok(Req::NTags(0))
                } else if str_eq(call.name.as_str(), "ntags") {
                    if call.params.len() == 0 {
                        Err(ReqTransformError::MissingParameter)
                    } else {
                        match word_text(&call.params[0]) {
                            Some(t) => match parse_usize(t.as_str()) {
                                Some(n) => Ok(Req::NTags(n)),
                                None => Err(ReqTransformError::InvalidParameter),
                            },
                            None => Err(ReqTransformError::InvalidParameter),
                        }
                    }
                } else {
                    Err(ReqTransformError::UnknownFn { name: call.name })
                }
            },
            Requirement::Not(req) => {
                match Req::from_tagfilter_lang_req(*req, coll) {
                    Ok(r) => Ok(Req::Not(Box::new(r))),
                    Err(e) => Err(e),
                }
            },
        }
    }
}

impl Requirements {
    /// Replaces the requirements by the ones that `requirements` turn into; at the first
    /// one that cannot be turned, stops with its error, keeping those before it.
    pub fn resolve(&mut self, requirements: Vec<Requirement>, coll: &Collection) -> (r: Result<
        (),
        ReqTransformError,
    >)
        requires
            coll.wf(),
        ensures
            ({
                let j = first_where(requirements@, |f: Requirement| !transform_ok(f, coll.tags));
                &&& r is Ok <==> j < 0
                &&& r is Ok ==> all_transform_to(requirements@, final(self).seq(), coll.tags)
                &&& r matches Err(e) ==> e == transform_err(requirements@[j], coll.tags)
                    && all_transform_to(requirements@.take(j), final(self).seq(), coll.tags)
            }),
        decreases requirements,
    {
        let ghost all = requirements@;
        let ghost pred = |f: Requirement| !transform_ok(f, coll.tags);
        proof {
            lemma_first_where(all, pred);
        }
        self.reqs.clear();
        let n = requirements.len();
        let mut rest = requirements;
        let mut i: usize = 0;
        while rest.len() > 0
            invariant
                i <= all.len(),
                all.len() == n,
                all == requirements@,
                rest@ == all.skip(i as int),
                coll.wf(),
                pred == (|f: Requirement| !transform_ok(f, coll.tags)),
                forall|j: int| 0 <= j < i ==> !pred(#[trigger] all[j]),
                all_transform_to(all.take(i as int), self.reqs@, coll.tags),
            decreases rest.len(),
        {
            let f = rest.remove(0);
            proof {
                assert(f == all[i as int]);
                assert(i < requirements@.len());
                assert(decreases_to!(requirements => requirements@));
                assert(decreases_to!(requirements@ => requirements@[i as int]));
                assert(decreases_to!(requirements => f));
            }
            match Req::from_tagfilter_lang_req(f, coll) {
                Ok(req) => {
                    self.reqs.push(req);
                    proof {
                        assert(all.take(i + 1) =~= all.take(i as int).push(all[i as int]));
                        assert forall|j: int| 0 <= j < i + 1 implies transforms_to(#[trigger] all.take(i + 1)[j], self.reqs@[j], coll.tags) by {
                            if j < i {
                                assert(all.take(i + 1)[j] == all.take(i as int)[j]);
                            }
                        }
                    }
                    i = i + 1;
                },
                Err(e) => {
                    proof {
                        lemma_first_where_unique(all, pred, i as int);
                    }
                    return Err(e);
                },
            }
        }
        proof {
            assert(all.take(i as int) =~= all);
            if first_where(all, pred) >= 0 {
                assert(!pred(all[first_where(all, pred)]));
            }
        }
        Ok(())
    }
}

/// Scanning the parameters from `i` gives the error of the first one that fails.
pub proof fn lemma_first_err_in(params: Seq<Requirement>, i: int, tags: Tags)
    requires
        0 <= i,
        first_where(params, |g: Requirement| !transform_ok(g, tags)) >= i,
    ensures
        first_err_in(params, i, tags) == transform_err(
            params[first_where(params, |g: Requirement| !transform_ok(g, tags))],
            tags,
        ),
    decreases params.len() - i,
{
    let pred = |g: Requirement| !transform_ok(g, tags);
    lemma_first_where(params, pred);
    let j = first_where(params, pred);
    if i < j {
        assert(!pred(params[i]));
        lemma_first_err_in(params, i + 1, tags);
    }
}

/// The filter-string text of a requirement.
pub open spec fn req_text(r: Req, tags: Map<u64, Tag>) -> Seq<char>
    decreases r, 1int,
{
    match r {
        Req::Any(rs) => "@any["@ + reqs_text(rs.seq(), tags) + "]"@,
        Req::All(rs) => "@all["@ + reqs_text(rs.seq(), tags) + "]"@,
        Req::NoneOf(rs) => "@none["@ + reqs_text(rs.seq(), tags) + "]"@,
        Req::Tag(id) => tag_label(tags, id),
        Req::TagExact(id) => "$"@ + tag_label(tags, id),
        Req::Not(b) => "!"@ + req_text(*b, tags),
        Req::FilenameSub(sub) => "@f["@ + sub@ + "]"@,
        Req::PartOfSeq => "@seq"@,
        Req::NTags(n) => if n == 0 {
            "@untagged"@
        } else {
            "@ntags["@ + decimal(n as nat) + "]"@
        },
    }
}

/// The filter-string text of a list of requirements: each one followed by a space.
pub open spec fn reqs_text(s: Seq<Req>, tags: Map<u64, Tag>) -> Seq<char>
    decreases s, 0int,
{
    if s.len() == 0 {
        Seq::empty()
    } else {
        reqs_text(s.subrange(0, s.len() - 1), tags) + req_text(s[s.len() - 1], tags) + " "@
    }
}

impl Req {
    /// The filter-string text of this requirement.
    pub fn to_string(&self, tags: &Tags) -> (r: String)
        requires
            tags.wf(),
        ensures
            r@ == req_text(*self, tags@),
        decreases self,
    {
        let mut out = String::new();
        match self {
            Req::Any(rs) => {
                out.append("@any[");
                out.append(rs.to_string(tags).as_str());
                out.append("]");
                proof {
                    assert(rs.seq() == rs.reqs@);
                }
            },
            Req::All(rs) => {
                out.append("@all[");
                out.append(rs.to_string(tags).as_str());
                out.append("]");
                proof {
                    assert(rs.seq() == rs.reqs@);
                }
            },
            Req::NoneOf(rs) => {
                out.append("@none[");
                out.append(rs.to_string(tags).as_str());
                out.append("]");
                proof {
                    assert(rs.seq() == rs.reqs@);
                }
            },
            Req::Tag(id) => {
                out.append(tags.first_name_of(id).as_str());
            },
            Req::TagExact(id) => {
                out.append("$");
                out.append(tags.first_name_of(id).as_str());
            },
            Req::Not(b) => {
                out.append("!");
                out.append(b.to_string(tags).as_str());
            },
            Req::FilenameSub(sub) => {
                out.append("@f[");
                out.append(sub.as_str());
                out.append("]");
            },
            Req::PartOfSeq => {
                out.append("@seq");
            },
            Req::NTags(n) => {
                if *n == 0 {
                    out.append("@untagged");
                } else {
                    out.append("@ntags[");
                    push_decimal(&mut out, *n as u64);
                    out.append("]");
                }
            },
        }
        assert(out@ =~= req_text(*self, tags@));
        out
    }
}

impl Requirements {
    /// The filter-string text: each requirement followed by a space.
    pub fn to_string(&self, tags: &Tags) -> (r: String)
        requires
            tags.wf(),
        ensures
            r@ == reqs_text(self.seq(), tags@),
        decreases self,
    {
        let mut buf = String::new();
        let mut i: usize = 0;
        while i < self.reqs.len()
            invariant
                i <= self.reqs@.len(),
                tags.wf(),
                buf@ == reqs_text(self.reqs@.take(i as int), tags@),
            decreases self.reqs.len() - i,
        {
            proof {
                assert(decreases_to!(self => self.reqs@[i as int]));
            }
            buf.append(self.reqs[i].to_string(tags).as_str());
            buf.append(" ");
            proof {
                let t = self.reqs@.take(i + 1);
                assert(t.subrange(0, t.len() - 1) =~= self.reqs@.take(i as int));
                assert(buf@ =~= reqs_text(t, tags@));
            }
            i = i + 1;
        }
        proof {
            assert(self.reqs@.take(i as int) =~= self.reqs@);
        }
        buf
    }
}

/// An empty filter selects every entry.
pub proof fn law_empty_requirements_select_everything(
    reqs: Requirements,
    id: entry::Id,
    en: Entry,
    tags: Map<u64, Tag>,
    seqs: Map<u64, Sequence>,
)
    requires
        reqs.seq().len() == 0,
    ensures
        reqs_hold(reqs, id, en, tags, seqs),
{
}


/// For a test `f` whose answers are fixed by the requirement it is given, and `g` its
/// negation: `none(f)` is `!any(f)`, and `all(g)` is `none(f)`. On no requirements, `any`
/// answers false and `none` and `all` answer true.
pub proof fn law_none_is_not_any_is_all_not<F: Fn(&Req) -> bool, G: Fn(&Req) -> bool>(
    reqs: Requirements,
    f: F,
    g: G,
    r_any: bool,
    r_none: bool,
    r_all: bool,
)
    requires
        answers_fixed(f),
        answers_negated(f, g),
        any_result(reqs.seq(), f, r_any),
        none_result(reqs.seq(), f, r_none),
        all_result(reqs.seq(), g, r_all),
    ensures
        r_none == !r_any,
        r_all == r_none,
        reqs.seq().len() == 0 ==> !r_any && r_none && r_all,
{
    let s = reqs.seq();
    if r_any && r_none {
        let i = choose|i: int| 0 <= i < s.len() && call_ensures(f, (&s[i],), true);
        assert(call_ensures(f, (&s[i],), false));
    }
    if !r_any && !r_none {
        let i = choose|i: int| 0 <= i < s.len() && call_ensures(f, (&s[i],), true);
        assert(call_ensures(f, (&s[i],), false));
    }
    if r_all && r_any {
        let i = choose|i: int| 0 <= i < s.len() && call_ensures(f, (&s[i],), true);
        assert(call_ensures(g, (&s[i],), true));
        assert(call_ensures(f, (&s[i],), false));
    }
    if !r_all && !r_any {
        let i = choose|i: int| 0 <= i < s.len() && call_ensures(g, (&s[i],), false);
        assert(call_ensures(f, (&s[i],), true));
        assert(call_ensures(f, (&s[i],), false));
    }
}


/// The names `any`, `all` and `none` are different.
proof fn lemma_set_fn_names_differ()
    ensures
        "any"@ != "all"@,
        "any"@ != "none"@,
        "all"@ != "none"@,
{
    reveal_strlit("any");
    reveal_strlit("all");
    reveal_strlit("none");
    assert("any"@[1] != "all"@[1]);
}

/// Two requirements that the same parsed requirement turns into hold of the same entries.
pub proof fn lemma_transforms_agree(
    f: Requirement,
    q1: Req,
    q2: Req,
    tags: Tags,
    id: entry::Id,
    en: Entry,
    seqs: Map<u64, Sequence>,
)
    requires
        transforms_to(f, q1, tags),
        transforms_to(f, q2, tags),
    ensures
        req_holds(q1, id, en, tags@, seqs) == req_holds(q2, id, en, tags@, seqs),
    decreases f,
{
    match f {
        Requirement::FnCall(call) => {
            lemma_set_fn_names_differ();
            if is_any_fn(call.name@) || is_all_fn(call.name@) || is_none_fn(call.name@) {
                let rs1 = match q1 {
                    Req::Any(rs) => rs,
                    Req::All(rs) => rs,
                    Req::NoneOf(rs) => rs,
                    _ => q1->Any_0,
                };
                let rs2 = match q2 {
                    Req::Any(rs) => rs,
                    Req::All(rs) => rs,
                    Req::NoneOf(rs) => rs,
                    _ => q2->Any_0,
                };
                assert(decreases_to!(f => call.params));
                assert(all_transform_to(call.params@, rs1.seq(), tags));
                assert(all_transform_to(call.params@, rs2.seq(), tags));
                assert forall|i: int| 0 <= i < call.params@.len() implies req_holds(#[trigger] rs1.seq()[i], id, en, tags@, seqs)
                    == req_holds(rs2.seq()[i], id, en, tags@, seqs) by {
                    assert(decreases_to!(call.params => call.params@));
                    assert(decreases_to!(call.params@ => call.params@[i]));
                    assert(transforms_to(call.params@[i], rs1.seq()[i], tags));
                    assert(transforms_to(call.params@[i], rs2.seq()[i], tags));
                    lemma_transforms_agree(call.params@[i], rs1.seq()[i], rs2.seq()[i], tags, id, en, seqs);
                }
                if req_holds(q1, id, en, tags@, seqs) != req_holds(q2, id, en, tags@, seqs) {
                    if is_all_fn(call.name@) {
                        if req_holds(q1, id, en, tags@, seqs) {
                            let i = choose|i: int| 0 <= i < rs2.seq().len() && !req_holds(#[trigger] rs2.seq()[i], id, en, tags@, seqs);
                            assert(req_holds(rs1.seq()[i], id, en, tags@, seqs));
                        } else {
                            let i = choose|i: int| 0 <= i < rs1.seq().len() && !req_holds(#[trigger] rs1.seq()[i], id, en, tags@, seqs);
                            assert(req_holds(rs2.seq()[i], id, en, tags@, seqs));
                        }
                    } else {
                        if exists|i: int| 0 <= i < rs1.seq().len() && req_holds(#[trigger] rs1.seq()[i], id, en, tags@, seqs) {
                            let i = choose|i: int| 0 <= i < rs1.seq().len() && req_holds(#[trigger] rs1.seq()[i], id, en, tags@, seqs);
                            assert(req_holds(rs2.seq()[i], id, en, tags@, seqs));
                        } else {
                            let i = choose|i: int| 0 <= i < rs2.seq().len() && req_holds(#[trigger] rs2.seq()[i], id, en, tags@, seqs);
                            assert(req_holds(rs1.seq()[i], id, en, tags@, seqs));
                        }
                    }
                }
            }
        },
        Requirement::Not(b) => {
            let r1 = *(q1->Not_0);
            let r2 = *(q2->Not_0);
            lemma_transforms_agree(*b, r1, r2, tags, id, en, seqs);
        },
        _ => {},
    }
}

/// A call of `all` holds of an entry exactly when every requirement that one of its
/// parameters turns into holds of it.
pub proof fn law_all_call_needs_every_parameter(
    call: FnCall,
    r: Req,
    tags: Tags,
    id: entry::Id,
    en: Entry,
    seqs: Map<u64, Sequence>,
)
    requires
        is_all_fn(call.name@),
        transforms_to(Requirement::FnCall(call), r, tags),
    ensures
        req_holds(r, id, en, tags@, seqs) <==> forall|i: int, q: Req|
            0 <= i < call.params@.len() && #[trigger] transforms_to(call.params@[i], q, tags) ==> req_holds(
                q,
                id,
                en,
                tags@,
                seqs,
            ),
{
    lemma_set_fn_names_differ();
    let rs = r->All_0;
    assert(all_transform_to(call.params@, rs.seq(), tags));
    assert(rs.seq().len() == call.params@.len());
    if req_holds(r, id, en, tags@, seqs) {
        assert forall|i: int, q: Req|
            0 <= i < call.params@.len() && #[trigger] transforms_to(call.params@[i], q, tags) implies req_holds(
                q,
                id,
                en,
                tags@,
                seqs,
            ) by {
            assert(transforms_to(call.params@[i], rs.seq()[i], tags));
            lemma_transforms_agree(call.params@[i], rs.seq()[i], q, tags, id, en, seqs);
        }
    } else {
        let i = choose|i: int| 0 <= i < rs.seq().len() && !req_holds(#[trigger] rs.seq()[i], id, en, tags@, seqs);
        assert(transforms_to(call.params@[i], rs.seq()[i], tags));
    }
}

/// A call of `any` holds of an entry exactly when some requirement that one of its
/// parameters turns into holds of it.
pub proof fn law_any_call_needs_some_parameter(
    call: FnCall,
    r: Req,
    tags: Tags,
    id: entry::Id,
    en: Entry,
    seqs: Map<u64, Sequence>,
)
    requires
        is_any_fn(call.name@),
        transforms_to(Requirement::FnCall(call), r, tags),
    ensures
        req_holds(r, id, en, tags@, seqs) <==> exists|i: int, q: Req|
            0 <= i < call.params@.len() && #[trigger] transforms_to(call.params@[i], q, tags) && req_holds(
                q,
                id,
                en,
                tags@,
                seqs,
            ),
{
    lemma_set_fn_names_differ();
    let rs = r->Any_0;
    assert(all_transform_to(call.params@, rs.seq(), tags));
    assert(rs.seq().len() == call.params@.len());
    if req_holds(r, id, en, tags@, seqs) {
        let i = choose|i: int| 0 <= i < rs.seq().len() && req_holds(#[trigger] rs.seq()[i], id, en, tags@, seqs);
        assert(transforms_to(call.params@[i], rs.seq()[i], tags));
    } else {
        assert forall|i: int, q: Req|
            0 <= i < call.params@.len() && #[trigger] transforms_to(call.params@[i], q, tags) implies !req_holds(
                q,
                id,
                en,
                tags@,
                seqs,
            ) by {
            assert(transforms_to(call.params@[i], rs.seq()[i], tags));
            lemma_transforms_agree(call.params@[i], rs.seq()[i], q, tags, id, en, seqs);
        }
    }
}

/// A call of `none` holds of an entry exactly when no requirement that one of its
/// parameters turns into holds of it.
pub proof fn law_none_call_needs_no_parameter(
    call: FnCall,
    r: Req,
    tags: Tags,
    id: entry::Id,
    en: Entry,
    seqs: Map<u64, Sequence>,
)
    requires
        is_none_fn(call.name@),
        transforms_to(Requirement::FnCall(call), r, tags),
    ensures
        req_holds(r, id, en, tags@, seqs) <==> !exists|i: int, q: Req|
            0 <= i < call.params@.len() && #[trigger] transforms_to(call.params@[i], q, tags) && req_holds(
                q,
                id,
                en,
                tags@,
                seqs,
            ),
{
    lemma_set_fn_names_differ();
    let rs = r->NoneOf_0;
    assert(all_transform_to(call.params@, rs.seq(), tags));
    assert(rs.seq().len() == call.params@.len());
    if !req_holds(r, id, en, tags@, seqs) {
        let i = choose|i: int| 0 <= i < rs.seq().len() && req_holds(#[trigger] rs.seq()[i], id, en, tags@, seqs);
        assert(transforms_to(call.params@[i], rs.seq()[i], tags));
    } else {
        assert forall|i: int, q: Req|
            0 <= i < call.params@.len() && #[trigger] transforms_to(call.params@[i], q, tags) implies !req_holds(
                q,
                id,
                en,
                tags@,
                seqs,
            ) by {
            assert(transforms_to(call.params@[i], rs.seq()[i], tags));
            lemma_transforms_agree(call.params@[i], rs.seq()[i], q, tags, id, en, seqs);
        }
    }
}

/// A negated requirement holds of an entry exactly when what it negates does not.
pub proof fn law_not_negates(
    b: Requirement,
    r: Req,
    q: Req,
    tags: Tags,
    id: entry::Id,
    en: Entry,
    seqs: Map<u64, Sequence>,
)
    requires
        transforms_to(Requirement::Not(Box::new(b)), r, tags),
        transforms_to(b, q, tags),
    ensures
        req_holds(r, id, en, tags@, seqs) == !req_holds(q, id, en, tags@, seqs),
{
    lemma_transforms_agree(b, *(r->Not_0), q, tags, id, en, seqs);
}


/// A tag name selects the entries that have, directly or through implication, the first
/// tag with that name; with `$` only those that have it themselves.
pub proof fn law_tag_names_select_their_tag(
    name: String,
    r: Req,
    tags: Tags,
    id: entry::Id,
    en: Entry,
    seqs: Map<u64, Sequence>,
)
    ensures
        transforms_to(Requirement::Tag(name), r, tags) ==> req_holds(r, id, en, tags@, seqs) == entry_has_tag(
            en,
            resolved_tag(tags, name@),
            tags@,
        ),
        transforms_to(Requirement::TagExact(name), r, tags) ==> req_holds(r, id, en, tags@, seqs)
            == en.tags@.contains(resolved_tag(tags, name@)),
{
}

/// A call of `f` (or `file`, `fname`, `filename`) with a word selects the entries whose
/// lower-cased path holds that word.
pub proof fn law_filename_call_selects_by_path(
    call: FnCall,
    word: String,
    r: Req,
    tags: Tags,
    id: entry::Id,
    en: Entry,
    seqs: Map<u64, Sequence>,
)
    requires
        is_filename_fn(call.name@),
        call.params@.len() > 0,
        call.params@[0] == Requirement::Tag(word),
        transforms_to(Requirement::FnCall(call), r, tags),
    ensures
        req_holds(r, id, en, tags@, seqs) == has_substring(lowercase(en.path@), word@),
{
    lemma_set_fn_names_differ();
    reveal_strlit("any");
    reveal_strlit("all");
    reveal_strlit("none");
    reveal_strlit("filename");
    reveal_strlit("file");
    reveal_strlit("fname");
    reveal_strlit("f");
    assert("file"@[0] != "none"@[0]);
    assert("filename"@.len() == 8 && "file"@.len() == 4 && "fname"@.len() == 5 && "f"@.len() == 1);
    assert("any"@.len() == 3 && "all"@.len() == 3 && "none"@.len() == 4);
    assert("file"@ != "none"@);
    assert(!is_any_fn(call.name@) && !is_all_fn(call.name@) && !is_none_fn(call.name@));
    let s = r->FilenameSub_0;
    assert(s@ == word@);
}

} // verus!
