//! Completing tag names while typing a query.
use vstd::prelude::*;

use crate::collection::{tag_has_name, Tags};
use crate::tag::{self, first_name_of_names, Tag};
use crate::util::string::{
    char_is_whitespace, chars_of, contains_substring, has_substring, is_whitespace, str_eq,
    string_from_chars,
};

verus! {

/// The state of the completion list.
#[derive(PartialEq, Eq, Structural, Debug)]
pub struct AcState {
    /// Selection index in the completion list
    pub select: Option<usize>,
    /// Input changed this frame
    pub input_changed: bool,
    /// A completion was applied
    pub applied: bool,
}

/// Where the selection goes when up or down is pressed: down moves it one further (onto
/// the first item from nothing); up moves it one back, and from the first item onto
/// nothing. With nothing selected and the input just changed, the first item is selected.
pub open spec fn next_select(select: Option<usize>, input_changed: bool, up: bool, down: bool) -> Option<
    usize,
> {
    let after_down = if down {
        match select {
            None => Some(0usize),
            Some(s) => Some((s + 1) as usize),
        }
    } else {
        select
    };
    match after_down {
        Some(s) => if up {
            if s > 0 {
                Some((s - 1) as usize)
            } else {
                None
            }
        } else {
            Some(s)
        },
        None => if input_changed {
            Some(0usize)
        } else {
            None
        },
    }
}

/// Pressing down and then up returns the selection to where it was.
pub proof fn law_down_then_up_returns(select: Option<usize>, input_changed: bool)
    requires
        select != Some(usize::MAX),
    ensures
        next_select(next_select(select, input_changed, false, true), input_changed, true, false)
            == select,
{
}

/// Completing the word being typed leaves the completion as the word being typed, when
/// the completion holds no word break.
pub proof fn law_completed_word_is_the_completion(s: Seq<char>, completion: Seq<char>)
    requires
        forall|i: int| 0 <= i < completion.len() ==> !is_word_break(#[trigger] completion[i]),
    ensures
        ({
            let after = s.take(word_start(s)) + completion;
            after.skip(word_start(after)) == completion
        }),
{
    lemma_word_start(s);
    let prefix = s.take(word_start(s));
    let after = prefix + completion;
    lemma_word_start_after_breakless(prefix, completion);
    assert(after.skip(prefix.len() as int) =~= completion);
}

/// Appending characters that are no word break does not move where the word starts,
/// when the text before ends in a word break (or is empty).
proof fn lemma_word_start_after_breakless(prefix: Seq<char>, tail: Seq<char>)
    requires
        prefix.len() > 0 ==> is_word_break(prefix.last()),
        forall|i: int| 0 <= i < tail.len() ==> !is_word_break(#[trigger] tail[i]),
    ensures
        word_start(prefix + tail) == prefix.len(),
    decreases tail.len(),
{
    if tail.len() == 0 {
        assert(prefix + tail =~= prefix);
        if prefix.len() > 0 {
        }
    } else {
        let t = tail.drop_last();
        assert forall|i: int| 0 <= i < t.len() implies !is_word_break(#[trigger] t[i]) by {
            assert(t[i] == tail[i]);
        }
        lemma_word_start_after_breakless(prefix, t);
        assert((prefix + tail).drop_last() =~= prefix + t);
        assert((prefix + tail).last() == tail[tail.len() - 1]);
    }
}

impl AcState {
    /// The first item selected, the input marked as changed, nothing applied.
    pub open spec fn initial() -> Self {
        AcState { select: Some(0), input_changed: true, applied: false }
    }

    /// Moves the selection for the arrow keys pressed this frame.
    pub fn navigate(&mut self, up: bool, down: bool)
        requires
            down ==> old(self).select != Some(usize::MAX),
        ensures
            final(self).select == next_select(old(self).select, old(self).input_changed, up, down),
            final(self).input_changed == old(self).input_changed,
            final(self).applied == old(self).applied,
    {
        if down {
            match self.select {
                None => self.select = Some(0),
                Some(s) => self.select = Some(s + 1),
            }
        }
        match self.select {
            Some(s) => {
                if up {
                    if s > 0 {
                        self.select = Some(s - 1);
                    } else {
                        self.select = None;
                    }
                }
            },
            None => {
                if self.input_changed {
                    self.select = Some(0);
                }
            },
        }
    }

    /// Adjusts the selection to a list of `len` items: onto the exact match when the
    /// input just changed, and back onto the last item when it is past it.
    pub fn fit_to(&mut self, len: usize, exact_match: Option<usize>)
        ensures
            final(self).select == ({
                let s = match exact_match {
                    Some(e) => if old(self).input_changed {
                        Some(e)
                    } else {
                        old(self).select
                    },
                    None => old(self).select,
                };
                match s {
                    Some(v) => if len > 0 && v >= len {
                        Some((len - 1) as usize)
                    } else {
                        Some(v)
                    },
                    None => None,
                }
            }),
            final(self).input_changed == old(self).input_changed,
            final(self).applied == old(self).applied,
    {
        match exact_match {
            Some(e) => {
                if self.input_changed {
                    self.select = Some(e);
                }
            },
            None => {},
        }
        if len > 0 {
            match self.select {
                Some(v) => {
                    if v >= len {
                        self.select = Some(len - 1);
                    }
                },
                None => {},
            }
        }
    }
}

impl Default for AcState {
    fn default() -> (r: Self)
        ensures
            r == AcState::initial(),
    {
        AcState { select: Some(0), input_changed: true, applied: false }
    }
}

/// Whether `c` ends a word for completion: a bracket, `!`, or whitespace.
pub open spec fn is_word_break(c: char) -> bool {
    c == '[' || c == ']' || c == '!' || is_whitespace(c)
}

/// Where the word to complete starts: just after the last word break, or at the start.
pub open spec fn word_start(s: Seq<char>) -> int
    decreases s.len(),
{
    if s.len() == 0 {
        0
    } else if is_word_break(s.last()) {
        s.len() as int
    } else {
        word_start(s.drop_last())
    }
}

/// `word_start` lies within the string, and no word break follows it.
pub proof fn lemma_word_start(s: Seq<char>)
    ensures
        0 <= word_start(s) <= s.len(),
        word_start(s) > 0 ==> is_word_break(s[word_start(s) - 1]),
        forall|i: int| word_start(s) <= i < s.len() ==> !is_word_break(#[trigger] s[i]),
    decreases s.len(),
{
    if s.len() > 0 && !is_word_break(s.last()) {
        lemma_word_start(s.drop_last());
        assert forall|i: int| word_start(s) <= i < s.len() implies !is_word_break(#[trigger] s[i]) by {
            if i < s.len() - 1 {
                assert(s[i] == s.drop_last()[i]);
            }
        }
    }
}

/// Whether the text can be cut where the word to complete starts: the break before it,
/// if any, is a one-byte character.
pub open spec fn word_start_on_boundary(s: Seq<char>) -> bool {
    word_start(s) > 0 ==> (s[word_start(s) - 1] as u32) < 0x80
}

/// The position in `chars` where the word to complete starts.
fn word_start_of(chars: &[char]) -> (r: usize)
    ensures
        r == word_start(chars@),
{
    let mut i: usize = chars.len();
    proof {
        assert(chars@.take(chars@.len() as int) =~= chars@);
    }
    while i > 0
        invariant
            i <= chars@.len(),
            word_start(chars@) == word_start(chars@.take(i as int)),
        decreases i,
    {
        let c = chars[i - 1];
        if c == '[' || c == ']' || c == '!' || char_is_whitespace(c) {
            proof {
                assert(chars@.take(i as int).last() == c);
            }
            return i;
        }
        proof {
            assert(chars@.take(i as int).drop_last() =~= chars@.take(i - 1));
        }
        i = i - 1;
    }
    proof {
        assert(chars@.take(0) =~= Seq::<char>::empty());
    }
    0
}

/// The word being typed at the end of `string`: what follows the last bracket, `!` or
/// whitespace.
pub fn find_word_to_complete(string: &str) -> (r: String)
    requires
        word_start_on_boundary(string@),
    ensures
        r@ == string@.skip(word_start(string@)),
{
    let chars = chars_of(string);
    let start = word_start_of(chars.as_slice());
    proof {
        lemma_word_start(chars@);
    }
    let r = string_from_chars(chars.as_slice(), start, chars.len());
    proof {
        assert(r@ =~= string@.skip(word_start(string@)));
    }
    r
}

/// Replaces the word being typed at the end of `string` with `completion`.
pub fn complete_word(string: &mut String, completion: &str)
    requires
        word_start_on_boundary(old(string)@),
    ensures
        final(string)@ == old(string)@.take(word_start(old(string)@)) + completion@,
{
    let chars = chars_of(string.as_str());
    let start = word_start_of(chars.as_slice());
    proof {
        lemma_word_start(chars@);
    }
    let mut r = string_from_chars(chars.as_slice(), 0, start);
    r.append(completion);
    proof {
        assert(r@ =~= old(string)@.take(word_start(old(string)@)) + completion@);
    }
    *string = r;
}

/// Whether one of the tag's names holds `word`.
pub open spec fn tag_name_contains(tag: Tag, word: Seq<char>) -> bool {
    exists|i: int| 0 <= i < tag.names@.len() && has_substring(#[trigger] tag.names@[i]@, word)
}

/// The tags, in order, that have a name holding `word`.
pub open spec fn candidate_ids(pairs: Seq<(u64, Tag)>, word: Seq<char>) -> Seq<tag::Id>
    decreases pairs.len(),
{
    if pairs.len() == 0 {
        Seq::empty()
    } else {
        let prev = candidate_ids(pairs.drop_last(), word);
        if tag_name_contains(pairs.last().1, word) {
            prev.push(tag::Id(pairs.last().0))
        } else {
            prev
        }
    }
}

/// The position among the candidates of the last tag that has `word` as a name.
pub open spec fn exact_index(pairs: Seq<(u64, Tag)>, word: Seq<char>) -> Option<int>
    decreases pairs.len(),
{
    if pairs.len() == 0 {
        None
    } else if tag_has_name(pairs.last().1, word) {
        Some(candidate_ids(pairs.drop_last(), word).len() as int)
    } else {
        exact_index(pairs.drop_last(), word)
    }
}

/// Whether one of the tag's names holds `word`.
fn names_contain(tag: &Tag, word: &str) -> (r: bool)
    ensures
        r == tag_name_contains(*tag, word@),
{
    let mut i: usize = 0;
    while i < tag.names.len()
        invariant
            i <= tag.names@.len(),
            forall|j: int| 0 <= j < i ==> !has_substring(#[trigger] tag.names@[j]@, word@),
        decreases tag.names@.len() - i,
    {
        if contains_substring(tag.names[i].as_str(), word) {
            return true;
        }
        i = i + 1;
    }
    false
}

/// Whether `word` is one of the tag's names.
fn names_equal(tag: &Tag, word: &str) -> (r: bool)
    ensures
        r == tag_has_name(*tag, word@),
{
    let mut i: usize = 0;
    while i < tag.names.len()
        invariant
            i <= tag.names@.len(),
            forall|j: int| 0 <= j < i ==> (#[trigger] tag.names@[j])@ != word@,
        decreases tag.names@.len() - i,
    {
        if str_eq(tag.names[i].as_str(), word) {
            return true;
        }
        i = i + 1;
    }
    false
}

/// The tags to offer for completing `word`, in order, and the position among them of the
/// last one that has `word` as a name.
pub fn tag_candidates(tags: &Tags, word: &str) -> (r: (Vec<tag::Id>, Option<usize>))
    ensures
        r.0@ == candidate_ids(tags.pairs(), word@),
        r.1 matches Some(e) ==> exact_index(tags.pairs(), word@) == Some(e as int),
        r.1 is None ==> exact_index(tags.pairs(), word@) is None,
{
    let mut ids: Vec<tag::Id> = Vec::new();
    let mut exact: Option<usize> = None;
    let mut i: usize = 0;
    while i < tags.len()
        invariant
            i <= tags.pairs().len(),
            ids@ == candidate_ids(tags.pairs().take(i as int), word@),
            exact matches Some(e) ==> exact_index(tags.pairs().take(i as int), word@) == Some(e as int),
            exact is None ==> exact_index(tags.pairs().take(i as int), word@) is None,
        decreases tags.pairs().len() - i,
    {
        let tag = tags.value_at(i);
        proof {
            assert(tags.pairs().take(i + 1).drop_last() =~= tags.pairs().take(i as int));
            assert(tags.pairs().take(i + 1).last() == tags.pairs()[i as int]);
        }
        if names_equal(tag, word) {
            exact = Some(ids.len());
        }
        if names_contain(tag, word) {
            ids.push(tag::Id(tags.key_at(i)));
        }
        i = i + 1;
    }
    proof {
        assert(tags.pairs().take(tags.pairs().len() as int) =~= tags.pairs());
    }
    (ids, exact)
}


/// The names offered in place of tags for a word that starts with `@`.
pub open spec fn special_names() -> Seq<Seq<char>> {
    seq!["@any"@, "@all"@, "@none"@, "@f"@, "@seq"@, "@untagged"@]
}

/// The text that choosing item `select` of the completion list for `word` puts in place
/// of the word: for a word that starts with `@`, the special name at that position;
/// otherwise the first name of the candidate tag at that position. Nothing when no item
/// is selected, the word is empty, or the position is past the list.
pub open spec fn completion_for(tags: Tags, word: Seq<char>, select: Option<usize>) -> Option<Seq<char>> {
    match select {
        None => None,
        Some(i) => if word.len() == 0 {
            None
        } else if word[0] == '@' {
            if i < special_names().len() {
                Some(special_names()[i as int])
            } else {
                None
            }
        } else {
            let c = candidate_ids(tags.pairs(), word);
            if i < c.len() && tags@.dom().contains(c[i as int].0) {
                Some(first_name_of_names(tags@[c[i as int].0].names@))
            } else {
                None
            }
        },
    }
}

/// The completion that choosing item `select` of the list for `word` applies, if any.
pub fn choose_completion(tags: &Tags, word: &str, select: Option<usize>) -> (r: Option<String>)
    requires
        tags.wf(),
    ensures
        match r {
            Some(s) => completion_for(*tags, word@, select) == Some(s@),
            None => completion_for(*tags, word@, select) is None,
        },
{
    let i = match select {
        None => {
            return None;
        },
        Some(i) => i,
    };
    let chars = chars_of(word);
    if chars.len() == 0 {
        return None;
    }
    if chars[0] == '@' {
        let name = if i == 0 {
            "@any"
        } else if i == 1 {
            "@all"
        } else if i == 2 {
            "@none"
        } else if i == 3 {
            "@f"
        } else if i == 4 {
            "@seq"
        } else if i == 5 {
            "@untagged"
        } else {
            return None;
        };
        return Some(String::from_str(name));
    }
    let (cands, _) = tag_candidates(tags, word);
    if i >= cands.len() {
        return None;
    }
    match tags.get(cands[i].0) {
        Some(tag) => Some(tag.first_name().to_owned()),
        None => None,
    }
}

} // verus!
