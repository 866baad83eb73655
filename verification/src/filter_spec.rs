//! The flat kind of filter: tags to have, tags not to have, a file-name part,
//! and whether entries must be untagged.
use vstd::prelude::*;
use vstd::laws_eq::obeys_concrete_eq;

use crate::collection::{tag_index_for_name, Collection, Tags};
use crate::filter_reqs::{resolved_tag, tag_resolves};
use crate::db::Uid;
use crate::entry::{self, entry_has_tag, law_entry_has_tags_implied_in_chain, Entry, SEARCH_CUTOFF};
use crate::filter_reqs::{req_holds, Req};
use crate::sequence::Sequence;
use crate::tag::{self, first_name_of_names, Tag};
use crate::util::position::{first_pos, lemma_first_pos, position_of};
use crate::util::string::{
    char_is_whitespace, chars_of, contains_substring, has_substring, is_whitespace, lowercase,
    string_from_chars, to_lowercase,
};

verus! {

/// A flat filter.
pub struct FilterSpec {
    pub has_tags: Vec<Uid>,
    pub doesnt_have_tags: Vec<Uid>,
    pub filename_substring: String,
    pub doesnt_have_any_tags: bool,
}

impl Default for FilterSpec {
    /// The filter that shows everything.
    fn default() -> (r: Self)
        ensures
            r.has_tags@.len() == 0,
            r.doesnt_have_tags@.len() == 0,
            r.filename_substring@.len() == 0,
            !r.doesnt_have_any_tags,
    {
        FilterSpec {
            has_tags: Vec::new(),
            doesnt_have_tags: Vec::new(),
            filename_substring: String::new(),
            doesnt_have_any_tags: false,
        }
    }
}

/// Why a filter string could not be read.
#[derive(Debug)]
pub enum ParseResolveError {
    NoSuchTag(String),
}

/// `vec` with the first occurrence of `uid` taken out, if there is one.
pub open spec fn removed_first<T>(vec: Seq<T>, uid: T) -> Seq<T> {
    if first_pos(vec, uid) >= 0 {
        vec.remove(first_pos(vec, uid))
    } else {
        vec
    }
}

/// `vec` with `uid` added at the end, unless it is there already.
pub open spec fn inserted_once(vec: Seq<Uid>, uid: Uid) -> Seq<Uid> {
    if vec.contains(uid) {
        vec
    } else {
        vec.push(uid)
    }
}

/// `vec` with `uid` taken out (first occurrence) when it is there, added when it is not.
pub open spec fn toggled(vec: Seq<Uid>, uid: Uid) -> Seq<Uid> {
    if vec.contains(uid) {
        removed_first(vec, uid)
    } else {
        vec.push(uid)
    }
}

/// Whether the filter asks anything of an entry: a tag to have or not to have, a
/// file-name part, or that it be untagged.
pub open spec fn filters_something(spec: FilterSpec) -> bool {
    spec.has_tags@.len() > 0 || spec.doesnt_have_tags@.len() > 0 || spec.filename_substring@.len() > 0
        || spec.doesnt_have_any_tags
}

fn remove_vec_elem(vec: &mut Vec<Uid>, uid: Uid) -> (r: bool)
    ensures
        r == old(vec)@.contains(uid),
        final(vec)@ == removed_first(old(vec)@, uid),
{
    proof {
        broadcast use vstd::laws_eq::group_laws_eq;
        lemma_first_pos(vec@, uid);
    }
    match position_of(vec.as_slice(), &uid) {
        Some(pos) => {
            vec.remove(pos);
            true
        },
        None => false,
    }
}

fn insert_vec_elem(vec: &mut Vec<Uid>, uid: Uid)
    ensures
        final(vec)@ == inserted_once(old(vec)@, uid),
{
    proof {
        broadcast use vstd::laws_eq::group_laws_eq;
    }
    if position_of(vec.as_slice(), &uid).is_none() {
        vec.push(uid);
    }
}

fn toggle_vec_elem(vec: &mut Vec<Uid>, uid: Uid)
    ensures
        final(vec)@ == toggled(old(vec)@, uid),
{
    proof {
        lemma_first_pos(vec@, uid);
    }
    if !remove_vec_elem(vec, uid) {
        insert_vec_elem(vec, uid);
    }
}

fn set_vec_elem(vec: &mut Vec<Uid>, uid: Uid, set: bool)
    ensures
        set ==> final(vec)@ == inserted_once(old(vec)@, uid),
        !set ==> final(vec)@ == removed_first(old(vec)@, uid),
{
    if set {
        insert_vec_elem(vec, uid);
    } else {
        remove_vec_elem(vec, uid);
    }
}

impl FilterSpec {
    /// Whether this filter actually filters anything or just shows everything.
    pub fn active(&self) -> (r: bool)
        ensures
            r == filters_something(*self),
    {
        self.has_tags.len() > 0 || self.doesnt_have_tags.len() > 0
            || !self.filename_substring.as_str().is_empty() || self.doesnt_have_any_tags
    }

    pub fn toggle_has(&mut self, uid: Uid)
        ensures
            final(self).has_tags@ == toggled(old(self).has_tags@, uid),
            final(self).doesnt_have_tags == old(self).doesnt_have_tags,
            final(self).filename_substring == old(self).filename_substring,
            final(self).doesnt_have_any_tags == old(self).doesnt_have_any_tags,
    {
        toggle_vec_elem(&mut self.has_tags, uid);
    }

    pub fn set_has(&mut self, uid: Uid, set: bool)
        ensures
            set ==> final(self).has_tags@ == inserted_once(old(self).has_tags@, uid),
            !set ==> final(self).has_tags@ == removed_first(old(self).has_tags@, uid),
            final(self).doesnt_have_tags == old(self).doesnt_have_tags,
            final(self).filename_substring == old(self).filename_substring,
            final(self).doesnt_have_any_tags == old(self).doesnt_have_any_tags,
    {
        set_vec_elem(&mut self.has_tags, uid, set);
    }

    pub fn toggle_doesnt_have(&mut self, uid: Uid)
        ensures
            final(self).doesnt_have_tags@ == toggled(old(self).doesnt_have_tags@, uid),
            final(self).has_tags == old(self).has_tags,
            final(self).filename_substring == old(self).filename_substring,
            final(self).doesnt_have_any_tags == old(self).doesnt_have_any_tags,
    {
        toggle_vec_elem(&mut self.doesnt_have_tags, uid);
    }

    pub fn set_doesnt_have(&mut self, uid: Uid, set: bool)
        ensures
            set ==> final(self).doesnt_have_tags@ == inserted_once(old(self).doesnt_have_tags@, uid),
            !set ==> final(self).doesnt_have_tags@ == removed_first(old(self).doesnt_have_tags@, uid),
            final(self).has_tags == old(self).has_tags,
            final(self).filename_substring == old(self).filename_substring,
            final(self).doesnt_have_any_tags == old(self).doesnt_have_any_tags,
    {
        set_vec_elem(&mut self.doesnt_have_tags, uid, set);
    }

    /// Back to the filter that shows everything.
    pub fn clear(&mut self)
        ensures
            final(self).has_tags@.len() == 0,
            final(self).doesnt_have_tags@.len() == 0,
            final(self).filename_substring@.len() == 0,
            !final(self).doesnt_have_any_tags,
    {
        *self = FilterSpec::default();
    }
}

/// Toggling a uid twice leaves the list as it was, when the uid is not in it.
pub proof fn law_toggle_twice_restores(vec: Seq<Uid>, uid: Uid)
    requires
        !vec.contains(uid),
    ensures
        toggled(toggled(vec, uid), uid) == vec,
{
    let once = vec.push(uid);
    assert(once.contains(uid)) by {
        assert(once[vec.len() as int] == uid);
    }
    lemma_first_pos(once, uid);
    let p = first_pos(once, uid);
    if p < vec.len() {
        assert(vec[p] == uid);
    }
    assert(once.remove(p) =~= vec);
}

/// Toggling a uid changes whether the list holds it.
pub proof fn law_toggle_flips_membership(vec: Seq<Uid>, uid: Uid)
    requires
        vec.no_duplicates(),
    ensures
        toggled(vec, uid).contains(uid) == !vec.contains(uid),
        toggled(vec, uid).no_duplicates(),
{
    lemma_first_pos(vec, uid);
    if vec.contains(uid) {
        let p = first_pos(vec, uid);
        let r = vec.remove(p);
        if r.contains(uid) {
            let j = choose|j: int| 0 <= j < r.len() && r[j] == uid;
            let j2 = if j < p { j } else { j + 1 };
            assert(vec[j2] == uid && j2 != p);
        }
        assert forall|a: int, b: int| 0 <= a < b < r.len() implies r[a] != r[b] by {
            let a2 = if a < p { a } else { a + 1 };
            let b2 = if b < p { b } else { b + 1 };
            assert(vec[a2] != vec[b2]);
        }
    } else {
        let r = vec.push(uid);
        assert(r[vec.len() as int] == uid);
        assert forall|a: int, b: int| 0 <= a < b < r.len() implies r[a] != r[b] by {
            if b == vec.len() {
                assert(vec[a] != uid);
            }
        }
    }
}

/// The words of `s`: its maximal runs of non-whitespace characters, in order.
pub open spec fn words(s: Seq<char>) -> Seq<Seq<char>>
    decreases s.len(),
{
    if s.len() == 0 {
        Seq::empty()
    } else {
        let prev = words(s.drop_last());
        let c = s.last();
        if is_whitespace(c) {
            prev
        } else if s.len() >= 2 && !is_whitespace(s[s.len() - 2]) {
            prev.update(prev.len() - 1, prev.last().push(c))
        } else {
            prev.push(seq![c])
        }
    }
}

/// A string that ends in a non-whitespace character has a word.
pub proof fn lemma_words_nonempty(s: Seq<char>)
    requires
        s.len() > 0,
        !is_whitespace(s.last()),
    ensures
        words(s).len() > 0,
    decreases s.len(),
{
    if s.len() >= 2 && !is_whitespace(s[s.len() - 2]) {
        lemma_words_nonempty(s.drop_last());
    }
}

/// The state while reading a filter string: tags to have, tags not to have, the file-name
/// part, and whether entries must be untagged.
pub type ReadState = (Seq<Uid>, Seq<Uid>, Seq<char>, bool);

/// Reading one word. A word `meta:arg` with `meta` being `f` or `fname` sets the
/// file-name part to `arg`; one with `meta` or `arg` being `no-tag` asks for untagged
/// entries; any other word names a tag to have, or with a leading `!`, not to have.
/// A tag name that no tag has is the error.
pub open spec fn read_word(st: ReadState, word: Seq<char>, tags: Tags) -> Result<ReadState, Seq<char>> {
    let p = first_pos(word, ':');
    if p >= 0 && (word.take(p) == "f"@ || word.take(p) == "fname"@) {
        Ok((st.0, st.1, word.skip(p + 1), st.3))
    } else if p >= 0 && (word.take(p) == "no-tag"@ || word.skip(p + 1) == "no-tag"@) {
        Ok((st.0, st.1, st.2, true))
    } else {
        let neg = word.len() > 0 && word[0] == '!';
        let name = if neg {
            word.drop_first()
        } else {
            word
        };
        if tag_resolves(tags, name) {
            let id = resolved_tag(tags, name).0;
            if neg {
                Ok((st.0, st.1.push(id), st.2, st.3))
            } else {
                Ok((st.0.push(id), st.1, st.2, st.3))
            }
        } else {
            Err(name)
        }
    }
}

/// Reading a list of words, stopping at the first error.
pub open spec fn read_words(ws: Seq<Seq<char>>, tags: Tags) -> Result<ReadState, Seq<char>>
    decreases ws.len(),
{
    if ws.len() == 0 {
        Ok((Seq::empty(), Seq::empty(), Seq::empty(), false))
    } else {
        match read_words(ws.drop_last(), tags) {
            Ok(st) => read_word(st, ws.last(), tags),
            Err(e) => Err(e),
        }
    }
}

/// The words of `chars`.
pub(crate) fn split_words(chars: &Vec<char>) -> (r: Vec<Vec<char>>)
    ensures
        r@.map_values(|w: Vec<char>| w@) == words(chars@),
{
    let mut ws: Vec<Vec<char>> = Vec::new();
    let mut i: usize = 0;
    while i < chars.len()
        invariant
            i <= chars@.len(),
            ws@.map_values(|w: Vec<char>| w@) == words(chars@.take(i as int)),
        decreases chars.len() - i,
    {
        let c = chars[i];
        let ghost prev = words(chars@.take(i as int));
        proof {
            assert(chars@.take(i + 1).drop_last() =~= chars@.take(i as int));
            assert(chars@.take(i + 1).last() == c);
        }
        if char_is_whitespace(c) {
        } else if i >= 1 && !char_is_whitespace(chars[i - 1]) {
            proof {
                assert(chars@.take(i as int).last() == chars@[i - 1]);
                lemma_words_nonempty(chars@.take(i as int));
                assert(chars@.take(i + 1)[i - 1] == chars@[i - 1]);
            }
            let mut w = ws.pop().unwrap();
            w.push(c);
            ws.push(w);
            proof {
                assert(ws@.map_values(|w: Vec<char>| w@) =~= prev.update(prev.len() - 1, prev.last().push(c)));
            }
        } else {
            let mut w: Vec<char> = Vec::new();
            w.push(c);
            ws.push(w);
            proof {
                if i >= 1 {
                    assert(chars@.take(i + 1)[i - 1] == chars@[i - 1]);
                }
                assert(ws@.map_values(|w: Vec<char>| w@) =~= prev.push(seq![c]));
            }
        }
        i = i + 1;
    }
    proof {
        assert(chars@.take(i as int) =~= chars@);
    }
    ws
}

/// Whether `chars[from..to]` spells `lit`.
fn slice_is(chars: &Vec<char>, from: usize, to: usize, lit: &str) -> (r: bool)
    requires
        from <= to <= chars@.len(),
    ensures
        r == (chars@.subrange(from as int, to as int) == lit@),
{
    let l = chars_of(lit);
    if to - from != l.len() {
        return false;
    }
    let mut i: usize = 0;
    while i < l.len()
        invariant
            from <= to <= chars@.len(),
            to - from == l@.len(),
            l@ == lit@,
            i <= l@.len(),
            forall|j: int| 0 <= j < i ==> chars@[from + j] == l@[j],
        decreases l.len() - i,
    {
        if chars[from + i] != l[i] {
            assert(chars@.subrange(from as int, to as int)[i as int] != lit@[i as int]);
            return false;
        }
        i = i + 1;
    }
    assert(chars@.subrange(from as int, to as int) =~= lit@);
    true
}

/// The position of the first `:` in `w`.
fn colon_position(w: &Vec<char>) -> (r: Option<usize>)
    ensures
        match r {
            Some(p) => p == first_pos(w@, ':') && p < w@.len(),
            None => first_pos(w@, ':') < 0,
        },
{
    proof {
        lemma_first_pos(w@, ':');
    }
    let mut i: usize = 0;
    while i < w.len()
        invariant
            i <= w@.len(),
            forall|j: int| 0 <= j < i ==> w@[j] != ':',
        decreases w.len() - i,
    {
        if w[i] == ':' {
            proof {
                crate::util::position::lemma_first_pos_unique(w@, ':', i as int);
            }
            return Some(i);
        }
        i = i + 1;
    }
    None
}

impl FilterSpec {
    /// Reads a filter string, resolving tag names in `coll`.
    pub fn parse_and_resolve(string: &str, coll: &Collection) -> (r: Result<Self, ParseResolveError>)
        requires
            coll.wf(),
        ensures
            match (r, read_words(words(string@), coll.tags)) {
                (Ok(spec), Ok(st)) => spec.has_tags@ == st.0 && spec.doesnt_have_tags@ == st.1
                    && spec.filename_substring@ == st.2 && spec.doesnt_have_any_tags == st.3,
                (Err(ParseResolveError::NoSuchTag(name)), Err(e)) => name@ == e,
                _ => false,
            },
    {
        let chars = chars_of(string);
        let ws = split_words(&chars);
        let ghost wv = ws@.map_values(|w: Vec<char>| w@);
        let mut tags: Vec<Uid> = Vec::new();
        let mut neg_tags: Vec<Uid> = Vec::new();
        let mut fstring = String::new();
        let mut doesnt_have_any_tags = false;
        let mut i: usize = 0;
        while i < ws.len()
            invariant
                i <= ws@.len(),
                coll.wf(),
                wv == ws@.map_values(|w: Vec<char>| w@),
                wv == words(string@),
                read_words(wv.take(i as int), coll.tags) == Ok::<ReadState, Seq<char>>(
                    (tags@, neg_tags@, fstring@, doesnt_have_any_tags),
                ),
            decreases ws.len() - i,
        {
            let word = &ws[i];
            proof {
                assert(wv.take(i + 1).drop_last() =~= wv.take(i as int));
                assert(wv.take(i + 1).last() == word@);
            }
            let mut is_meta = false;
            match colon_position(word) {
                Some(pos) => {
                    let n = word.len();
                    proof {
                        assert(word@.take(pos as int) =~= word@.subrange(0, pos as int));
                        assert(word@.skip(pos + 1) =~= word@.subrange(pos + 1, n as int));
                    }
                    if slice_is(word, 0, pos, "f") || slice_is(word, 0, pos, "fname") {
                        fstring = string_from_chars(word.as_slice(), pos + 1, n);
                        is_meta = true;
                    } else if slice_is(word, 0, pos, "no-tag") || slice_is(word, pos + 1, n, "no-tag") {
                        doesnt_have_any_tags = true;
                        is_meta = true;
                    }
                },
                None => {},
            }
            if !is_meta {
                let neg = word.len() > 0 && word[0] == '!';
                let start: usize = if neg {
                    1
                } else {
                    0
                };
                let tag_name = string_from_chars(word.as_slice(), start, word.len());
                proof {
                    if neg {
                        assert(tag_name@ =~= word@.drop_first());
                    } else {
                        assert(tag_name@ =~= word@);
                    }
                }
                match coll.resolve_tag(tag_name.as_str()) {
                    Some(id) => {
                        if neg {
                            neg_tags.push(id.0);
                        } else {
                            tags.push(id.0);
                        }
                    },
                    None => {
                        proof {
                            assert(read_words(wv.take(i + 1), coll.tags) == Err::<ReadState, Seq<char>>(tag_name@));
                            lemma_read_words_err_stays(wv, (i + 1) as int, coll.tags);
                            assert(wv.take(wv.len() as int) =~= wv);
                        }
                        return Err(ParseResolveError::NoSuchTag(tag_name));
                    },
                }
            }
            i = i + 1;
        }
        proof {
            assert(wv.take(i as int) =~= wv);
        }
        Ok(FilterSpec {
            has_tags: tags,
            filename_substring: fstring,
            doesnt_have_tags: neg_tags,
            doesnt_have_any_tags,
        })
    }
}

/// Once reading a prefix of the words fails, reading more of them fails the same way.
pub proof fn lemma_read_words_err_stays(ws: Seq<Seq<char>>, i: int, tags: Tags)
    requires
        0 <= i <= ws.len(),
        read_words(ws.take(i), tags) is Err,
    ensures
        read_words(ws.take(ws.len() as int), tags) == read_words(ws.take(i), tags),
    decreases ws.len() - i,
{
    if i < ws.len() {
        assert(ws.take(i + 1).drop_last() =~= ws.take(i));
        lemma_read_words_err_stays(ws, i + 1, tags);
    }
}

/// The first names of the tags `ids`, each after `prefix` and before a space.
pub open spec fn names_text(ids: Seq<Uid>, tags: Map<u64, Tag>, prefix: Seq<char>) -> Seq<char>
    decreases ids.len(),
{
    if ids.len() == 0 {
        Seq::empty()
    } else {
        names_text(ids.drop_last(), tags, prefix) + prefix + tags[ids.last()].names@[0]@ + seq![' ']
    }
}

/// Whether every tag of `ids` exists and has a name.
pub open spec fn all_named(ids: Seq<Uid>, tags: Map<u64, Tag>) -> bool {
    forall|i: int|
        0 <= i < ids.len() ==> tags.dom().contains(#[trigger] ids[i]) && tags[ids[i]].names@.len() > 0
}

/// The text of a filter: `:notag` for one that wants untagged entries, and otherwise the
/// tags to have, then the tags not to have (each after a `!`), then the file-name part.
pub open spec fn spec_text(spec: FilterSpec, tags: Map<u64, Tag>) -> Seq<char> {
    if spec.doesnt_have_any_tags {
        seq![':', 'n', 'o', 't', 'a', 'g']
    } else {
        names_text(spec.has_tags@, tags, Seq::empty()) + names_text(spec.doesnt_have_tags@, tags, seq!['!'])
            + spec.filename_substring@
    }
}

/// Whether entry `en` passes the filter `spec`: its lower-cased path holds the file-name
/// part, it has (directly or through implication) every tag to have and none of the tags
/// not to have, and it is untagged where the filter asks for that.
pub open spec fn spec_holds(spec: FilterSpec, en: Entry, tags: Map<u64, Tag>) -> bool {
    &&& has_substring(lowercase(en.path@), spec.filename_substring@)
    &&& forall|i: int| 0 <= i < spec.has_tags@.len() ==> entry_has_tag(en, tag::Id(#[trigger] spec.has_tags@[i]), tags)
    &&& forall|i: int| 0 <= i < spec.doesnt_have_tags@.len() ==> !entry_has_tag(en, tag::Id(#[trigger] spec.doesnt_have_tags@[i]), tags)
    &&& spec.doesnt_have_any_tags ==> en.tags@.is_empty()
}

/// Appends the first names of the tags `ids` to `out`, each after `prefix` and before a
/// space.
fn push_names(out: &mut String, ids: &[Uid], tags: &Tags, prefix: &str)
    requires
        tags.wf(),
        all_named(ids@, tags@),
    ensures
        final(out)@ == old(out)@ + names_text(ids@, tags@, prefix@),
{
    let mut i: usize = 0;
    while i < ids.len()
        invariant
            i <= ids@.len(),
            tags.wf(),
            all_named(ids@, tags@),
            out@ == old(out)@ + names_text(ids@.take(i as int), tags@, prefix@),
        decreases ids@.len() - i,
    {
        let tag = match tags.get(ids[i]) {
            Some(tag) => tag,
            None => {
                proof {
                    assert(tags@.dom().contains(ids@[i as int]));
                }
                return;
            },
        };
        out.append(prefix);
        out.append(tag.names[0].as_str());
        out.append(" ");
        proof {
            reveal_strlit(" ");
            assert(ids@.take(i + 1).drop_last() =~= ids@.take(i as int));
            assert(out@ =~= old(out)@ + names_text(ids@.take(i + 1), tags@, prefix@));
        }
        i = i + 1;
    }
    proof {
        assert(ids@.take(ids@.len() as int) =~= ids@);
    }
}

impl FilterSpec {
    /// The filter written as text.
    pub fn to_spec_string(&self, tags: &Tags) -> (r: String)
        requires
            tags.wf(),
            !self.doesnt_have_any_tags ==> all_named(self.has_tags@, tags@) && all_named(
                self.doesnt_have_tags@,
                tags@,
            ),
        ensures
            r@ == spec_text(*self, tags@),
    {
        if self.doesnt_have_any_tags {
            let r = String::from_str(":notag");
            proof {
                reveal_strlit(":notag");
            }
            r
        } else {
            let mut out = String::new();
            push_names(&mut out, self.has_tags.as_slice(), tags, "");
            push_names(&mut out, self.doesnt_have_tags.as_slice(), tags, "!");
            out.append(self.filename_substring.as_str());
            proof {
                reveal_strlit("");
                reveal_strlit("!");
                assert(""@ =~= Seq::<char>::empty());
                assert("!"@ =~= seq!['!']);
                assert(out@ =~= spec_text(*self, tags@));
            }
            out
        }
    }
}

impl Entry {
    /// Whether this entry passes the filter `spec`.
    pub fn spec_satisfied(&self, spec: &FilterSpec, tags: &Tags) -> (r: bool)
        requires
            tags.wf(),
        ensures
            r == spec_holds(*spec, *self, tags@),
    {
        let lower = to_lowercase(self.path.as_str());
        if !contains_substring(lower.as_str(), spec.filename_substring.as_str()) {
            return false;
        }
        let mut i: usize = 0;
        while i < spec.has_tags.len()
            invariant
                i <= spec.has_tags@.len(),
                tags.wf(),
                forall|j: int| 0 <= j < i ==> entry_has_tag(*self, tag::Id(#[trigger] spec.has_tags@[j]), tags@),
            decreases spec.has_tags@.len() - i,
        {
            if !self.satisfies_required_tag(tag::Id(spec.has_tags[i]), tags) {
                return false;
            }
            i = i + 1;
        }
        let mut i: usize = 0;
        while i < spec.doesnt_have_tags.len()
            invariant
                i <= spec.doesnt_have_tags@.len(),
                tags.wf(),
                forall|j: int| 0 <= j < i ==> !entry_has_tag(*self, tag::Id(#[trigger] spec.doesnt_have_tags@[j]), tags@),
            decreases spec.doesnt_have_tags@.len() - i,
        {
            if self.satisfies_required_tag(tag::Id(spec.doesnt_have_tags[i]), tags) {
                return false;
            }
            i = i + 1;
        }
        if spec.doesnt_have_any_tags && !self.tags.is_empty() {
            return false;
        }
        true
    }
}

/// A string of whitespace only has no words.
proof fn lemma_blank_has_no_words(s: Seq<char>)
    requires
        forall|i: int| 0 <= i < s.len() ==> is_whitespace(#[trigger] s[i]),
    ensures
        words(s) == Seq::<Seq<char>>::empty(),
    decreases s.len(),
{
    if s.len() > 0 {
        lemma_blank_has_no_words(s.drop_last());
        assert(is_whitespace(s[s.len() - 1]));
    }
}

/// An empty (or blank) filter string means "don't filter at all": it reads without error
/// into the filter with no tags, no file-name part and no demand to be untagged, and
/// that filter passes every entry.
pub proof fn law_blank_filter_passes_everything(s: Seq<char>, tags: Tags, spec: FilterSpec, en: Entry)
    requires
        forall|i: int| 0 <= i < s.len() ==> is_whitespace(#[trigger] s[i]),
        spec.has_tags@.len() == 0,
        spec.doesnt_have_tags@.len() == 0,
        spec.filename_substring@.len() == 0,
        !spec.doesnt_have_any_tags,
    ensures
        read_words(words(s), tags) == Ok::<ReadState, Seq<char>>(
            (spec.has_tags@, spec.doesnt_have_tags@, spec.filename_substring@, spec.doesnt_have_any_tags),
        ),
        spec_holds(spec, en, tags@),
{
    lemma_blank_has_no_words(s);
    assert(spec.has_tags@ =~= Seq::<Uid>::empty());
    assert(spec.doesnt_have_tags@ =~= Seq::<Uid>::empty());
    assert(spec.filename_substring@ =~= Seq::<char>::empty());
    let hay = lowercase(en.path@);
    let needle = spec.filename_substring@;
    assert(hay.subrange(0, 0 + needle.len() as int) =~= needle);
    assert(has_substring(hay, needle));
}


/// The words that `names_text(ids, tags, prefix)` is made of: each first name after
/// `prefix`.
pub open spec fn name_words(ids: Seq<Uid>, tags: Map<u64, Tag>, prefix: Seq<char>) -> Seq<Seq<char>>
    decreases ids.len(),
{
    if ids.len() == 0 {
        Seq::empty()
    } else {
        name_words(ids.drop_last(), tags, prefix).push(prefix + tags[ids.last()].names@[0]@)
    }
}

/// Whether the tag `id` is written faithfully in a filter text: the tag exists, its first
/// name is one word with no `:` that does not start with `!`, and looking that name up
/// gives `id` again.
pub open spec fn written_faithfully(tags: Tags, id: Uid) -> bool {
    let name = tags@[id].names@[0]@;
    &&& tags@.dom().contains(id)
    &&& tags@[id].names@.len() > 0
    &&& name.len() > 0
    &&& name[0] != '!'
    &&& forall|k: int| 0 <= k < name.len() ==> !is_whitespace(#[trigger] name[k]) && name[k] != ':'
    &&& tag_resolves(tags, name)
    &&& resolved_tag(tags, name).0 == id
}

/// Appending a word and a space to a text that is empty or ends in whitespace adds that
/// word to its words.
proof fn lemma_words_append_word(s: Seq<char>, w: Seq<char>)
    requires
        s.len() == 0 || is_whitespace(s.last()),
        w.len() > 0,
        forall|k: int| 0 <= k < w.len() ==> !is_whitespace(#[trigger] w[k]),
    ensures
        words(s + w) == words(s).push(w),
        words(s + w + seq![' ']) == words(s).push(w),
    decreases w.len(),
{
    let sw = s + w;
    assert(sw.last() == w.last());
    assert(!is_whitespace(w[w.len() - 1]));
    if w.len() == 1 {
        assert(sw.drop_last() =~= s);
        if s.len() > 0 {
            assert(sw[sw.len() - 2] == s.last());
        }
        assert(w =~= seq![w[0]]);
    } else {
        let w0 = w.drop_last();
        assert forall|k: int| 0 <= k < w0.len() implies !is_whitespace(#[trigger] w0[k]) by {
            assert(w0[k] == w[k]);
        }
        lemma_words_append_word(s, w0);
        assert(sw.drop_last() =~= s + w0);
        assert(sw[sw.len() - 2] == w[w.len() - 2]);
        assert(!is_whitespace(w[w.len() - 2]));
        assert(w0.push(w.last()) =~= w);
    }
    let sws = sw + seq![' '];
    assert(sws.drop_last() =~= sw);
    assert(sws.last() == ' ');
    assert(is_whitespace(' '));
    assert(words(sws) == words(sw));
    assert(s + w + seq![' '] =~= sws);
}

/// The words of a text followed by `names_text(ids, ..)` are those of the text followed
/// by the written names.
proof fn lemma_words_names_text(base: Seq<char>, ids: Seq<Uid>, tags: Tags, prefix: Seq<char>)
    requires
        base.len() == 0 || is_whitespace(base.last()),
        prefix.len() == 0 || prefix == seq!['!'],
        forall|i: int| 0 <= i < ids.len() ==> written_faithfully(tags, #[trigger] ids[i]),
    ensures
        words(base + names_text(ids, tags@, prefix)) == words(base) + name_words(ids, tags@, prefix),
        names_text(ids, tags@, prefix).len() == 0 || is_whitespace(names_text(ids, tags@, prefix).last()),
    decreases ids.len(),
{
    if ids.len() == 0 {
        assert(base + names_text(ids, tags@, prefix) =~= base);
        assert(words(base) + name_words(ids, tags@, prefix) =~= words(base));
    } else {
        let rest = ids.drop_last();
        assert forall|i: int| 0 <= i < rest.len() implies written_faithfully(tags, #[trigger] rest[i]) by {
            assert(rest[i] == ids[i]);
        }
        lemma_words_names_text(base, rest, tags, prefix);
        let id = ids.last();
        assert(written_faithfully(tags, ids[ids.len() - 1]));
        let name = tags@[id].names@[0]@;
        let w = prefix + name;
        let front = base + names_text(rest, tags@, prefix);
        assert(front.len() == 0 || is_whitespace(front.last())) by {
            if names_text(rest, tags@, prefix).len() > 0 {
                assert(front.last() == names_text(rest, tags@, prefix).last());
            }
        }
        assert forall|k: int| 0 <= k < w.len() implies !is_whitespace(#[trigger] w[k]) by {
            if k < prefix.len() {
                assert(w[k] == '!');
            } else {
                assert(w[k] == name[k - prefix.len()]);
            }
        }
        lemma_words_append_word(front, w);
        assert(base + names_text(ids, tags@, prefix) =~= front + w + seq![' ']);
        assert(words(base) + name_words(ids, tags@, prefix) =~= (words(base) + name_words(rest, tags@, prefix)).push(w));
    }
}

/// Reading the written names of `ids` after a state `st` adds them, in order, to the
/// tags to have (no prefix) or the tags not to have (prefix `!`).
proof fn lemma_read_name_words(
    ws: Seq<Seq<char>>,
    st: ReadState,
    ids: Seq<Uid>,
    tags: Tags,
    prefix: Seq<char>,
)
    requires
        read_words(ws, tags) == Ok::<ReadState, Seq<char>>(st),
        prefix.len() == 0 || prefix == seq!['!'],
        forall|i: int| 0 <= i < ids.len() ==> written_faithfully(tags, #[trigger] ids[i]),
    ensures
        read_words(ws + name_words(ids, tags@, prefix), tags) == Ok::<ReadState, Seq<char>>(
            if prefix.len() == 0 {
                (st.0 + ids, st.1, st.2, st.3)
            } else {
                (st.0, st.1 + ids, st.2, st.3)
            },
        ),
    decreases ids.len(),
{
    if ids.len() == 0 {
        assert(ws + name_words(ids, tags@, prefix) =~= ws);
        assert(st.0 + ids =~= st.0);
        assert(st.1 + ids =~= st.1);
    } else {
        let rest = ids.drop_last();
        assert forall|i: int| 0 <= i < rest.len() implies written_faithfully(tags, #[trigger] rest[i]) by {
            assert(rest[i] == ids[i]);
        }
        lemma_read_name_words(ws, st, rest, tags, prefix);
        let id = ids.last();
        assert(written_faithfully(tags, ids[ids.len() - 1]));
        let name = tags@[id].names@[0]@;
        let w = prefix + name;
        let all = ws + name_words(ids, tags@, prefix);
        assert(all.drop_last() =~= ws + name_words(rest, tags@, prefix));
        assert(all.last() == w);
        lemma_first_pos(w, ':');
        assert(first_pos(w, ':') < 0) by {
            if first_pos(w, ':') >= 0 {
                let q = first_pos(w, ':');
                if q < prefix.len() {
                    assert(w[q] == '!');
                } else {
                    assert(w[q] == name[q - prefix.len()]);
                }
            }
        }
        if prefix.len() == 0 {
            assert(w =~= name);
        } else {
            assert(w[0] == '!');
            assert(w.drop_first() =~= name);
        }
        assert(rest.push(id) =~= ids);
        assert((st.0 + rest).push(id) =~= st.0 + ids);
        assert((st.1 + rest).push(id) =~= st.1 + ids);
    }
}

/// A filter that asks for no file-name part and not for untagged entries, and whose tags
/// are all written faithfully, reads back from its text as the same tags to have and not
/// to have, in the same order.
pub proof fn law_spec_text_reads_back(spec: FilterSpec, tags: Tags)
    requires
        spec.filename_substring@.len() == 0,
        !spec.doesnt_have_any_tags,
        forall|i: int| 0 <= i < spec.has_tags@.len() ==> written_faithfully(tags, #[trigger] spec.has_tags@[i]),
        forall|i: int|
            0 <= i < spec.doesnt_have_tags@.len() ==> written_faithfully(tags, #[trigger] spec.doesnt_have_tags@[i]),
    ensures
        read_words(words(spec_text(spec, tags@)), tags) == Ok::<ReadState, Seq<char>>(
            (spec.has_tags@, spec.doesnt_have_tags@, Seq::<char>::empty(), false),
        ),
{
    let h = spec.has_tags@;
    let n = spec.doesnt_have_tags@;
    let e = Seq::<char>::empty();
    let t1 = names_text(h, tags@, e);
    lemma_words_names_text(e, h, tags, e);
    assert(e + t1 =~= t1);
    lemma_words_names_text(t1, n, tags, seq!['!']);
    assert(spec_text(spec, tags@) =~= t1 + names_text(n, tags@, seq!['!']));
    assert(words(e) =~= Seq::<Seq<char>>::empty());
    let w1 = name_words(h, tags@, e);
    let w2 = name_words(n, tags@, seq!['!']);
    assert(words(spec_text(spec, tags@)) =~= w1 + w2);
    let st0: ReadState = (Seq::empty(), Seq::empty(), Seq::empty(), false);
    assert(read_words(Seq::<Seq<char>>::empty(), tags) == Ok::<ReadState, Seq<char>>(st0));
    lemma_read_name_words(Seq::<Seq<char>>::empty(), st0, h, tags, e);
    assert(Seq::<Seq<char>>::empty() + w1 =~= w1);
    assert(st0.0 + h =~= h);
    let st1: ReadState = (h, Seq::empty(), Seq::empty(), false);
    lemma_read_name_words(w1, st1, n, tags, seq!['!']);
    assert(st1.1 + n =~= n);
}


/// A filter that is not active lets every entry through.
pub proof fn law_inactive_filter_passes_everything(spec: FilterSpec, en: Entry, tags: Tags)
    requires
        !filters_something(spec),
    ensures
        spec_holds(spec, en, tags@),
{
    let hay = lowercase(en.path@);
    let needle = spec.filename_substring@;
    assert(hay.subrange(0, 0 + needle.len() as int) =~= needle);
}


/// The filter with just the tag `t` to have.
pub open spec fn only_has(spec: FilterSpec, t: Uid) -> bool {
    &&& spec.has_tags@ == seq![t]
    &&& spec.doesnt_have_tags@.len() == 0
    &&& spec.filename_substring@.len() == 0
    &&& !spec.doesnt_have_any_tags
}

/// The filter with just the tag `t` not to have.
pub open spec fn only_lacks(spec: FilterSpec, t: Uid) -> bool {
    &&& spec.has_tags@.len() == 0
    &&& spec.doesnt_have_tags@ == seq![t]
    &&& spec.filename_substring@.len() == 0
    &&& !spec.doesnt_have_any_tags
}

/// A tag to have and the same tag not to have are judged alike: an entry passes the
/// filter that asks for `t` exactly when it fails the filter that asks not to have `t`,
/// and exactly when it meets the filter requirement `Tag(t)` of the filter language.
pub proof fn law_have_and_lack_are_opposite(
    has: FilterSpec,
    lacks: FilterSpec,
    t: Uid,
    id: entry::Id,
    en: Entry,
    tags: Tags,
    seqs: Map<u64, Sequence>,
)
    requires
        only_has(has, t),
        only_lacks(lacks, t),
    ensures
        spec_holds(has, en, tags@) == !spec_holds(lacks, en, tags@),
        spec_holds(has, en, tags@) == req_holds(Req::Tag(tag::Id(t)), id, en, tags@, seqs),
{
    let hay = lowercase(en.path@);
    assert(hay.subrange(0, 0 + has.filename_substring@.len() as int) =~= has.filename_substring@);
    assert(hay.subrange(0, 0 + lacks.filename_substring@.len() as int) =~= lacks.filename_substring@);
    assert(has.has_tags@[0] == t);
    assert(lacks.doesnt_have_tags@[0] == t);
}

/// A tag not to have excludes the entries that have it through implication too: when an
/// entry's own tag leads to `t` through a chain of single implications shorter than the
/// cutoff, the filter that asks not to have `t` rejects the entry, and the one that asks
/// for `t` lets it through.
pub proof fn law_lacking_counts_implied_tags(
    has: FilterSpec,
    lacks: FilterSpec,
    en: Entry,
    tags: Tags,
    chain: Seq<tag::Id>,
)
    requires
        chain.len() > 0,
        chain.len() < SEARCH_CUTOFF,
        en.tags@.contains(chain[0]),
        forall|k: int|
            0 <= k < chain.len() - 1 ==> tags@.dom().contains((#[trigger] chain[k]).0) && tags@[chain[k].0].implies@
                == set![chain[k + 1]],
        only_has(has, chain.last().0),
        only_lacks(lacks, chain.last().0),
    ensures
        !spec_holds(lacks, en, tags@),
        spec_holds(has, en, tags@),
{
    law_entry_has_tags_implied_in_chain(en, tags@, chain);
    assert(lacks.doesnt_have_tags@[0] == chain.last().0);
    assert(tag::Id(chain.last().0) == chain.last());
    let hay = lowercase(en.path@);
    assert(hay.subrange(0, 0 + has.filename_substring@.len() as int) =~= has.filename_substring@);
    assert(has.has_tags@[0] == chain.last().0);
}


/// The file-name part of a flat filter selects as the filter requirement `FilenameSub`
/// with the same text does.
pub proof fn law_filename_part_agrees(
    spec: FilterSpec,
    sub: String,
    id: entry::Id,
    en: Entry,
    tags: Tags,
    seqs: Map<u64, Sequence>,
)
    requires
        spec.has_tags@.len() == 0,
        spec.doesnt_have_tags@.len() == 0,
        !spec.doesnt_have_any_tags,
        spec.filename_substring@ == sub@,
    ensures
        spec_holds(spec, en, tags@) == req_holds(Req::FilenameSub(sub), id, en, tags@, seqs),
{
}

/// Asking for untagged entries in a flat filter selects as the filter requirement for no
/// tags at all does.
pub proof fn law_untagged_agrees(
    spec: FilterSpec,
    id: entry::Id,
    en: Entry,
    tags: Tags,
    seqs: Map<u64, Sequence>,
)
    requires
        spec.has_tags@.len() == 0,
        spec.doesnt_have_tags@.len() == 0,
        spec.filename_substring@.len() == 0,
        spec.doesnt_have_any_tags,
    ensures
        spec_holds(spec, en, tags@) == req_holds(Req::NTags(0), id, en, tags@, seqs),
{
    let hay = lowercase(en.path@);
    assert(hay.subrange(0, 0 + spec.filename_substring@.len() as int) =~= spec.filename_substring@);
    if en.tags@.len() == 0 {
        assert(en.tags@ =~= Set::<tag::Id>::empty());
    }
}

} // verus!
