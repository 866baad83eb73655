//! Loading a folder as a new collection: the files found, the extensions to ignore, and
//! the files to add.
use vstd::prelude::*;

use crate::collection::folder::{has_entry_matching, lists_path};
use crate::collection::Collection;
use crate::db::UidCounter;
use crate::util::path::{extension_of, path_extension};
use crate::util::string::{char_is_whitespace, chars_of, is_whitespace, string_from_chars};

verus! {

/// The pieces of `s` between the occurrences of `sep` (as `str::split` gives them: one
/// piece more than there are separators).
pub open spec fn split_on(s: Seq<char>, sep: char) -> Seq<Seq<char>>
    decreases s.len(),
{
    if s.len() == 0 {
        seq![Seq::empty()]
    } else {
        let prev = split_on(s.drop_last(), sep);
        if s.last() == sep {
            prev.push(Seq::empty())
        } else {
            prev.update(prev.len() - 1, prev.last().push(s.last()))
        }
    }
}

/// `split_on` always has at least one piece.
proof fn lemma_split_on_nonempty(s: Seq<char>, sep: char)
    ensures
        split_on(s, sep).len() >= 1,
    decreases s.len(),
{
    if s.len() > 0 {
        lemma_split_on_nonempty(s.drop_last(), sep);
    }
}

/// `s` without its leading whitespace.
pub open spec fn trim_start(s: Seq<char>) -> Seq<char>
    decreases s.len(),
{
    if s.len() > 0 && is_whitespace(s[0]) {
        trim_start(s.drop_first())
    } else {
        s
    }
}

/// `s` without its trailing whitespace.
pub open spec fn trim_end(s: Seq<char>) -> Seq<char>
    decreases s.len(),
{
    if s.len() > 0 && is_whitespace(s.last()) {
        trim_end(s.drop_last())
    } else {
        s
    }
}

/// `s` without leading and trailing whitespace (`str::trim`).
pub open spec fn trimmed(s: Seq<char>) -> Seq<char> {
    trim_end(trim_start(s))
}

/// The position of the first non-whitespace character of `s` from `from` on, and the
/// end of what `trim_start` leaves.
proof fn lemma_trim_start_skip(s: Seq<char>, from: int)
    requires
        0 <= from <= s.len(),
        forall|i: int| 0 <= i < from ==> is_whitespace(#[trigger] s[i]),
    ensures
        trim_start(s) == trim_start(s.skip(from)),
    decreases from,
{
    if from > 0 {
        assert(s.drop_first().skip(from - 1) =~= s.skip(from));
        assert forall|i: int| 0 <= i < from - 1 implies is_whitespace(#[trigger] s.drop_first()[i]) by {
            assert(s.drop_first()[i] == s[i + 1]);
        }
        lemma_trim_start_skip(s.drop_first(), from - 1);
    } else {
        assert(s.skip(0) =~= s);
    }
}

proof fn lemma_trim_end_take(s: Seq<char>, to: int)
    requires
        0 <= to <= s.len(),
        forall|i: int| to <= i < s.len() ==> is_whitespace(#[trigger] s[i]),
    ensures
        trim_end(s) == trim_end(s.take(to)),
    decreases s.len() - to,
{
    if to < s.len() {
        assert(s.drop_last().take(to) =~= s.take(to));
        assert forall|i: int| to <= i < s.len() - 1 implies is_whitespace(#[trigger] s.drop_last()[i]) by {
            assert(s.drop_last()[i] == s[i]);
        }
        assert(is_whitespace(s[s.len() - 1]));
        lemma_trim_end_take(s.drop_last(), to);
    } else {
        assert(s.take(to) =~= s);
    }
}

/// `chars[from..to]` without leading and trailing whitespace.
fn trim_range(chars: &[char], from: usize, to: usize) -> (r: String)
    requires
        from <= to <= chars@.len(),
    ensures
        r@ == trimmed(chars@.subrange(from as int, to as int)),
{
    let ghost s = chars@.subrange(from as int, to as int);
    let mut a = from;
    while a < to && char_is_whitespace(chars[a])
        invariant
            from <= a <= to,
            to <= chars@.len(),
            s == chars@.subrange(from as int, to as int),
            forall|i: int| 0 <= i < a - from ==> is_whitespace(#[trigger] s[i]),
        decreases to - a,
    {
        a = a + 1;
    }
    proof {
        lemma_trim_start_skip(s, a - from);
        assert(s.skip(a - from) =~= chars@.subrange(a as int, to as int));
        if a < to {
            assert(!is_whitespace(s[a - from]));
            assert(trim_start(chars@.subrange(a as int, to as int)) == chars@.subrange(a as int, to as int));
        } else {
            assert(chars@.subrange(a as int, to as int) =~= Seq::<char>::empty());
        }
    }
    let mut b = to;
    while b > a && char_is_whitespace(chars[b - 1])
        invariant
            a <= b <= to,
            to <= chars@.len(),
            forall|i: int| b <= i < to ==> is_whitespace(#[trigger] chars@[i]),
        decreases b - a,
    {
        b = b - 1;
    }
    proof {
        let t = chars@.subrange(a as int, to as int);
        assert forall|i: int| b - a <= i < t.len() implies is_whitespace(#[trigger] t[i]) by {
            assert(t[i] == chars@[a + i]);
        }
        lemma_trim_end_take(t, b - a);
        assert(t.take(b - a) =~= chars@.subrange(a as int, b as int));
        if b > a {
            assert(chars@.subrange(a as int, b as int).last() == chars@[b - 1]);
        }
    }
    string_from_chars(chars, a, b)
}

/// The extensions to ignore, from the text typed for them: the comma-separated pieces,
/// each trimmed of whitespace.
pub fn to_ignore_vec(text: &str) -> (r: Vec<String>)
    ensures
        r@.len() == split_on(text@, ',').len(),
        forall|i: int| 0 <= i < r@.len() ==> (#[trigger] r@[i])@ == trimmed(split_on(text@, ',')[i]),
{
    let chars = chars_of(text);
    let mut out: Vec<String> = Vec::new();
    let mut start: usize = 0;
    let mut i: usize = 0;
    proof {
        assert(chars@.take(0) =~= Seq::<char>::empty());
    }
    while i < chars.len()
        invariant
            start <= i <= chars@.len(),
            chars@ == text@,
            ({
                let pieces = split_on(chars@.take(i as int), ',');
                &&& out@.len() + 1 == pieces.len()
                &&& forall|k: int| 0 <= k < out@.len() ==> (#[trigger] out@[k])@ == trimmed(pieces[k])
                &&& pieces.last() == chars@.subrange(start as int, i as int)
            }),
        decreases chars@.len() - i,
    {
        proof {
            assert(chars@.take(i + 1).drop_last() =~= chars@.take(i as int));
            assert(chars@.take(i + 1).last() == chars@[i as int]);
            lemma_split_on_nonempty(chars@.take(i as int), ',');
        }
        if chars[i] == ',' {
            let piece = trim_range(chars.as_slice(), start, i);
            out.push(piece);
            start = i + 1;
            proof {
                assert(chars@.subrange(start as int, i + 1) =~= Seq::<char>::empty());
            }
        } else {
            proof {
                assert(chars@.subrange(start as int, i + 1) =~= chars@.subrange(start as int, i as int).push(
                    chars@[i as int],
                ));
            }
        }
        i = i + 1;
    }
    let last = trim_range(chars.as_slice(), start, chars.len());
    out.push(last);
    proof {
        assert(chars@.take(chars@.len() as int) =~= chars@);
    }
    out
}

/// A file found while loading a folder, and whether it is to be added.
pub struct PathAdd {
    /// Path relative to the folder.
    pub path: String,
    pub add: bool,
}

/// Whether the file's extension is one of `ign_exts`.
pub open spec fn ignored(f: PathAdd, ign_exts: Seq<String>) -> bool {
    match extension_of(f.path@) {
        Some(ext) => lists_path(ign_exts, ext),
        None => false,
    }
}

/// Whether a file is kept: its extension is not one of `ign_exts`.
pub open spec fn not_ignored(ign_exts: Seq<String>) -> spec_fn(PathAdd) -> bool {
    |f: PathAdd| !ignored(f, ign_exts)
}

/// Drops the files whose extension is one of `ign_exts`, keeping the order of the rest.
pub fn drop_ignored(results: Vec<PathAdd>, ign_exts: &[String]) -> (r: Vec<PathAdd>)
    ensures
        r@ == results@.filter(not_ignored(ign_exts@)),
{
    let ghost src = results@;
    let mut kept: Vec<PathAdd> = Vec::new();
    let mut rest = results;
    let ghost mut taken: Seq<PathAdd> = Seq::empty();
    proof {
        reveal(Seq::filter);
        assert(src =~= taken + rest@);
    }
    while rest.len() > 0
        invariant
            src == taken + rest@,
            kept@ == taken.filter(not_ignored(ign_exts@)),
        decreases rest@.len(),
    {
        let ghost before = taken;
        let f = rest.remove(0);
        let is_ignored = match path_extension(f.path.as_str()) {
            Some(ext) => crate::collection::folder::lists(ign_exts, ext.as_str()),
            None => false,
        };
        proof {
            taken = taken.push(f);
            reveal(Seq::filter);
            assert(taken.drop_last() =~= before);
            assert(src =~= taken + rest@);
        }
        if !is_ignored {
            kept.push(f);
        }
    }
    proof {
        assert(taken =~= src);
    }
    kept
}

/// The paths of the files marked to be added, in order.
pub fn paths_to_add(results: &[PathAdd]) -> (r: Vec<String>)
    ensures
        r@ == results@.filter(|f: PathAdd| f.add).map_values(|f: PathAdd| f.path),
{
    broadcast use Seq::lemma_filter_push;

    let ghost pred = |f: PathAdd| f.add;
    let ghost g = |f: PathAdd| f.path;
    let mut out: Vec<String> = Vec::new();
    let mut i: usize = 0;
    while i < results.len()
        invariant
            i <= results@.len(),
            pred == (|f: PathAdd| f.add),
            g == (|f: PathAdd| f.path),
            out@ == results@.take(i as int).filter(pred).map_values(g),
        decreases results@.len() - i,
    {
        proof {
            assert(results@.take(i + 1) =~= results@.take(i as int).push(results@[i as int]));
            results@.take(i as int).lemma_filter_push(results@[i as int], pred);
        }
        if results[i].add {
            out.push(results[i].path.clone());
            proof {
                results@.take(i as int).filter(pred).lemma_push_map_commute(g, results@[i as int]);
            }
        }
        i = i + 1;
    }
    proof {
        assert(results@.take(i as int) =~= results@);
    }
    out
}

/// The new collection for a loaded folder: an entry for each file marked to be added
/// (see `Collection::make_new`), ignoring from then on the extensions typed in
/// `ign_ext_text`.
pub fn new_collection(uid_counter: &mut UidCounter, results: &[PathAdd], ign_ext_text: &str) -> (r: Collection)
    requires
        old(uid_counter).value() + results@.len() <= u64::MAX,
    ensures
        r.wf(),
        r.uids_below(final(uid_counter).value()),
        ({
            let paths = results@.filter(|f: PathAdd| f.add).map_values(|f: PathAdd| f.path);
            &&& forall|k: u64|
                #[trigger] r.entries@.dom().contains(k) <==> old(uid_counter).value() <= k
                    < final(uid_counter).value()
            &&& forall|k: u64| #[trigger] r.entries@.dom().contains(k) ==> lists_path(paths, r.entries@[k].path@)
            &&& forall|t: int| 0 <= t < paths.len() ==> #[trigger] has_entry_matching(r.entries@, paths[t]@)
        }),
        r.ignored_extensions@.len() == split_on(ign_ext_text@, ',').len(),
        forall|i: int|
            0 <= i < r.ignored_extensions@.len() ==> (#[trigger] r.ignored_extensions@[i])@ == trimmed(
                split_on(ign_ext_text@, ',')[i],
            ),
{
    let paths = paths_to_add(results);
    proof {
        results@.lemma_filter_len(|f: PathAdd| f.add);
    }
    let mut coll = Collection::make_new(uid_counter, paths.as_slice());
    coll.ignored_extensions = to_ignore_vec(ign_ext_text);
    coll
}

} // verus!
