//! Opening entries with external applications: which application gets which files, and
//! the arguments it is started with.
use vstd::prelude::*;

use crate::collection::Collection;
use crate::entry::{self, Entry};
use crate::collection::sequences::{sorted_by_path, stable_rearrangement, with_path};
use crate::filter_reqs::{reqs_hold, Requirements};
use crate::gui::view::{sort_ids, SortBy};
use crate::filter_spec::{split_words, words};
use crate::preferences::AppId;
use crate::sequence::Sequence;
use crate::util::path::{extension_of, path_extension};
use crate::util::position::{first_where, lemma_first_where, lemma_first_where_unique};
use crate::util::string::{ascii_lowercase, chars_of, make_ascii_lowercase, str_eq, string_from_chars};

verus! {

/// A file to open, and the application to open it with where one is fixed.
pub struct OpenExternCandidate {
    pub path: String,
    pub open_with: Option<AppId>,
}

/// An application to start, and the files to hand it.
pub struct Task {
    pub app: AppId,
    pub args: Vec<String>,
}

/// The tasks to run, and the files that no application is associated with.
pub struct BuiltTasks {
    pub tasks: Vec<Task>,
    pub remainder: Vec<String>,
}

/// Tasks as (application, files) pairs.
pub open spec fn tasks_view(ts: Seq<Task>) -> Seq<(AppId, Seq<String>)> {
    Seq::new(ts.len(), |k: int| (ts[k].app, ts[k].args@))
}

/// The characters of each string.
pub open spec fn strings_view(ss: Seq<String>) -> Seq<Seq<char>> {
    Seq::new(ss.len(), |k: int| ss[k]@)
}

impl BuiltTasks {
    /// The tasks as (application, files) pairs.
    pub open spec fn task_seq(&self) -> Seq<(AppId, Seq<String>)> {
        tasks_view(self.tasks@)
    }

    /// Whether there are too many files without an association to open them one by one
    /// (five or more).
    pub fn too_many_unassociated(&self) -> (r: bool)
        ensures
            r == (self.remainder@.len() >= 5),
    {
        self.remainder.len() >= 5
    }
}

/// Which application, if any, opens files with a given (lower-case) extension. An
/// extension can be listed without an application, so that the user sees it in the list.
pub struct Associations {
    pairs: Vec<(String, Option<AppId>)>,
}

/// Whether a pair is for the extension `ext`.
pub open spec fn is_for(ext: Seq<char>) -> spec_fn((Seq<char>, Option<AppId>)) -> bool {
    |p: (Seq<char>, Option<AppId>)| p.0 == ext
}

/// The entry for `ext` in `pairs`: the first pair with that extension.
pub open spec fn assoc_lookup(pairs: Seq<(Seq<char>, Option<AppId>)>, ext: Seq<char>) -> Option<Option<AppId>> {
    let f = first_where(pairs, is_for(ext));
    if f >= 0 {
        Some(pairs[f].1)
    } else {
        None
    }
}

/// `pairs` with the entry for `ext` set to `app`: the first pair with that extension
/// changes, or a pair goes at the end.
pub open spec fn assoc_set(pairs: Seq<(Seq<char>, Option<AppId>)>, ext: Seq<char>, app: Option<AppId>) -> Seq<
    (Seq<char>, Option<AppId>),
> {
    let f = first_where(pairs, is_for(ext));
    if f >= 0 {
        pairs.update(f, (pairs[f].0, app))
    } else {
        pairs.push((ext, app))
    }
}

/// After the entry for an extension is set, looking the extension up gives what it was
/// set to, and every other extension gives what it gave before.
pub proof fn law_set_then_lookup(
    pairs: Seq<(Seq<char>, Option<AppId>)>,
    ext: Seq<char>,
    app: Option<AppId>,
    other: Seq<char>,
)
    requires
        other != ext,
    ensures
        assoc_lookup(assoc_set(pairs, ext, app), ext) == Some(app),
        assoc_lookup(assoc_set(pairs, ext, app), other) == assoc_lookup(pairs, other),
{
    let p_ext = is_for(ext);
    let p_other = is_for(other);
    let after = assoc_set(pairs, ext, app);
    lemma_first_where(pairs, p_ext);
    lemma_first_where(pairs, p_other);
    lemma_first_where(after, p_ext);
    lemma_first_where(after, p_other);
    let f = first_where(pairs, p_ext);
    assert forall|j: int| 0 <= j < pairs.len() && j != f implies #[trigger] after[j] == pairs[j] by {}
    if f >= 0 {
        assert(after[f].0 == ext);
        lemma_first_where_unique(after, p_ext, f);
    } else {
        assert(after[pairs.len() as int].0 == ext);
        lemma_first_where_unique(after, p_ext, pairs.len() as int);
    }
    let g = first_where(pairs, p_other);
    if g >= 0 {
        assert(g != f);
        lemma_first_where_unique(after, p_other, g);
    } else {
        let h = first_where(after, p_other);
        if h >= 0 {
            if h < pairs.len() && h != f {
                assert(after[h] == pairs[h]);
            }
        }
    }
}

impl Associations {
    /// The (extension, application) pairs, in order.
    pub closed spec fn pairs(&self) -> Seq<(Seq<char>, Option<AppId>)> {
        self.pairs@.map_values(|p: (String, Option<AppId>)| (p.0@, p.1))
    }

    pub fn new() -> (r: Self)
        ensures
            r.pairs() == Seq::<(Seq<char>, Option<AppId>)>::empty(),
    {
        let r = Associations { pairs: Vec::new() };
        assert(r.pairs() =~= Seq::<(Seq<char>, Option<AppId>)>::empty());
        r
    }

    fn position(&self, ext: &str) -> (r: Option<usize>)
        ensures
            ({
                let f = first_where(self.pairs(), is_for(ext@));
                &&& r matches Some(i) ==> f == i && i < self.pairs().len()
                &&& r is None ==> f < 0
            }),
    {
        let ghost pred = is_for(ext@);
        proof {
            lemma_first_where(self.pairs(), pred);
        }
        let mut i: usize = 0;
        while i < self.pairs.len()
            invariant
                i <= self.pairs@.len(),
                pred == is_for(ext@),
                forall|j: int| 0 <= j < i ==> !pred(#[trigger] self.pairs()[j]),
            decreases self.pairs@.len() - i,
        {
            proof {
                assert(self.pairs()[i as int] == (self.pairs@[i as int].0@, self.pairs@[i as int].1));
            }
            if str_eq(self.pairs[i].0.as_str(), ext) {
                proof {
                    lemma_first_where_unique(self.pairs(), pred, i as int);
                }
                return Some(i);
            }
            i = i + 1;
        }
        proof {
            let f = first_where(self.pairs(), pred);
            if f >= 0 {
                assert(!pred(self.pairs()[f]));
            }
        }
        None
    }

    /// The entry for `ext`, if the extension is listed.
    pub fn get(&self, ext: &str) -> (r: Option<Option<AppId>>)
        ensures
            r == assoc_lookup(self.pairs(), ext@),
    {
        match self.position(ext) {
            Some(i) => {
                proof {
                    assert(self.pairs()[i as int].1 == self.pairs@[i as int].1);
                }
                Some(self.pairs[i].1)
            },
            None => None,
        }
    }

    /// Sets the entry for `ext` to `app`.
    pub fn insert(&mut self, ext: String, app: Option<AppId>)
        ensures
            final(self).pairs() == assoc_set(old(self).pairs(), ext@, app),
    {
        match self.position(ext.as_str()) {
            Some(i) => {
                let k = self.pairs[i].0.clone();
                self.pairs.set(i, (k, app));
                proof {
                    assert(self.pairs() =~= old(self).pairs().update(i as int, (old(self).pairs()[i as int].0, app)));
                }
            },
            None => {
                self.pairs.push((ext, app));
                proof {
                    assert(self.pairs() =~= old(self).pairs().push((ext@, app)));
                }
            },
        }
    }
}

/// The lower-cased extension of `path` (empty where it has none).
pub open spec fn lowered_ext(path: Seq<char>) -> Seq<char> {
    ascii_lowercase(
        match extension_of(path) {
            Some(e) => e,
            None => Seq::empty(),
        },
    )
}

/// The position of the first task for `app`, or -1.
pub open spec fn task_index(tasks: Seq<(AppId, Seq<String>)>, app: AppId) -> int
    decreases tasks.len(),
{
    if tasks.len() == 0 {
        -1
    } else {
        let r = task_index(tasks.drop_last(), app);
        if r >= 0 {
            r
        } else if tasks.last().0 == app {
            tasks.len() - 1
        } else {
            -1
        }
    }
}

/// `task_index` finds the first task for `app`, and finds one whenever there is one.
proof fn lemma_task_index(tasks: Seq<(AppId, Seq<String>)>, app: AppId)
    ensures
        -1 <= task_index(tasks, app) < tasks.len(),
        task_index(tasks, app) >= 0 ==> tasks[task_index(tasks, app)].0 == app,
        forall|k: int| 0 <= k < task_index(tasks, app) ==> (#[trigger] tasks[k]).0 != app,
        task_index(tasks, app) < 0 ==> forall|k: int| 0 <= k < tasks.len() ==> (#[trigger] tasks[k]).0 != app,
    decreases tasks.len(),
{
    if tasks.len() > 0 {
        let d = tasks.drop_last();
        lemma_task_index(d, app);
        assert forall|k: int| 0 <= k < task_index(tasks, app) implies (#[trigger] tasks[k]).0 != app by {
            assert(tasks[k] == d[k]);
        }
        assert forall|k: int| task_index(tasks, app) < 0 && 0 <= k < tasks.len() implies (#[trigger] tasks[k]).0
            != app by {
            if k < d.len() {
                assert(tasks[k] == d[k]);
            }
        }
    }
}

proof fn lemma_tasks_view_push(ts: Seq<Task>, t: Task)
    ensures
        tasks_view(ts.push(t)) == tasks_view(ts).push((t.app, t.args@)),
{
    let a = tasks_view(ts.push(t));
    let b = tasks_view(ts).push((t.app, t.args@));
    assert forall|k: int| 0 <= k < a.len() implies a[k] == b[k] by {
        assert(a[k] == (ts.push(t)[k].app, ts.push(t)[k].args@));
        if k < ts.len() {
            assert(tasks_view(ts)[k] == (ts[k].app, ts[k].args@));
        }
    }
    assert(a =~= b);
}

proof fn lemma_tasks_view_update(ts: Seq<Task>, j: int, t: Task)
    requires
        0 <= j < ts.len(),
    ensures
        tasks_view(ts.update(j, t)) == tasks_view(ts).update(j, (t.app, t.args@)),
{
    let a = tasks_view(ts.update(j, t));
    let b = tasks_view(ts).update(j, (t.app, t.args@));
    assert forall|k: int| 0 <= k < a.len() implies a[k] == b[k] by {
        assert(a[k] == (ts.update(j, t)[k].app, ts.update(j, t)[k].args@));
        if k != j {
            assert(tasks_view(ts)[k] == (ts[k].app, ts[k].args@));
        }
    }
    assert(a =~= b);
}

/// What building the tasks has produced so far: the tasks, the files left over, and the
/// associations.
pub type TaskBuild = (Seq<(AppId, Seq<String>)>, Seq<String>, Seq<(Seq<char>, Option<AppId>)>);

/// One candidate more. A candidate with a fixed application gets a task of its own.
/// Otherwise the association of its lower-cased extension decides: an application joins
/// the file to that application's task (made where there is none yet); no application
/// leaves the file over, and lists the extension so that the user can associate it.
pub open spec fn build_step(st: TaskBuild, c: OpenExternCandidate) -> TaskBuild {
    let (tasks, remainder, assoc) = st;
    match c.open_with {
        Some(app) => (tasks.push((app, seq![c.path])), remainder, assoc),
        None => {
            let ext = lowered_ext(c.path@);
            match assoc_lookup(assoc, ext) {
                Some(Some(app)) => {
                    let j = task_index(tasks, app);
                    if j >= 0 {
                        (tasks.update(j, (app, tasks[j].1.push(c.path))), remainder, assoc)
                    } else {
                        (tasks.push((app, seq![c.path])), remainder, assoc)
                    }
                },
                _ => (tasks, remainder.push(c.path), assoc_set(assoc, ext, None)),
            }
        },
    }
}

/// The tasks built from `cands`, in order, starting from the associations `assoc`.
pub open spec fn built_tasks(cands: Seq<OpenExternCandidate>, assoc: Seq<(Seq<char>, Option<AppId>)>) -> TaskBuild
    decreases cands.len(),
{
    if cands.len() == 0 {
        (Seq::empty(), Seq::empty(), assoc)
    } else {
        build_step(built_tasks(cands.drop_last(), assoc), cands.last())
    }
}

/// The position of the first task for `app`.
fn find_task(tasks: &Vec<Task>, app: AppId) -> (r: Option<usize>)
    ensures
        r matches Some(j) ==> j == task_index(tasks_view(tasks@), app) && j < tasks@.len(),
        r is None ==> task_index(tasks_view(tasks@), app) < 0,
{
    let ghost ts = tasks_view(tasks@);
    proof {
        lemma_task_index(ts, app);
    }
    let mut j: usize = 0;
    while j < tasks.len()
        invariant
            j <= tasks@.len(),
            ts == tasks_view(tasks@),
            forall|k: int| 0 <= k < j ==> (#[trigger] tasks@[k]).app != app,
        decreases tasks@.len() - j,
    {
        proof {
            assert(ts[j as int] == (tasks@[j as int].app, tasks@[j as int].args@));
        }
        if tasks[j].app == app {
            proof {
                lemma_task_index(ts, app);
                let f = task_index(ts, app);
                assert(ts[j as int].0 == app);
                if f >= 0 && f < j {
                    assert(ts[f] == (tasks@[f].app, tasks@[f].args@));
                    assert(tasks@[f].app != app);
                } else if f > j {
                    assert(ts[j as int].0 != app);
                } else if f < 0 {
                    assert(ts[j as int].0 != app);
                }
            }
            return Some(j);
        }
        j = j + 1;
    }
    proof {
        let f = task_index(ts, app);
        if f >= 0 {
            assert(ts[f] == (tasks@[f].app, tasks@[f].args@));
        }
    }
    None
}

/// Sorts the candidates into tasks, one per application, and the files that no
/// application is associated with; extensions met without an association are listed in
/// `associations`.
pub fn build_tasks(candidates: &[OpenExternCandidate], associations: &mut Associations) -> (r: BuiltTasks)
    ensures
        (r.task_seq(), r.remainder@, final(associations).pairs()) == built_tasks(
            candidates@,
            old(associations).pairs(),
        ),
{
    let mut tasks: Vec<Task> = Vec::new();
    let mut remainder: Vec<String> = Vec::new();
    let mut i: usize = 0;
    while i < candidates.len()
        invariant
            i <= candidates@.len(),
            (tasks_view(tasks@), remainder@, associations.pairs())
                == built_tasks(candidates@.take(i as int), old(associations).pairs()),
        decreases candidates@.len() - i,
    {
        let c = &candidates[i];
        let ghost before = (tasks_view(tasks@), remainder@, associations.pairs());
        proof {
            assert(candidates@.take(i + 1).drop_last() =~= candidates@.take(i as int));
            assert(candidates@.take(i + 1).last() == *c);
        }
        match c.open_with {
            Some(app) => {
                let ghost prev = tasks@;
                let t = Task { app, args: vec![c.path.clone()] };
                proof {
                    assert(t.args@ =~= seq![c.path]);
                }
                tasks.push(t);
                proof {
                    lemma_tasks_view_push(prev, t);
                }
            },
            None => {
                let mut ext = match path_extension(c.path.as_str()) {
                    Some(e) => e,
                    None => String::new(),
                };
                make_ascii_lowercase(&mut ext);
                proof {
                    assert(ext@ == lowered_ext(c.path@));
                }
                match associations.get(ext.as_str()) {
                    Some(Some(app)) => {
                        match find_task(&tasks, app) {
                            Some(j) => {
                                let ghost old_tasks = tasks@;
                                proof {
                                    lemma_task_index(before.0, app);
                                    assert(before.0[j as int] == (old_tasks[j as int].app, old_tasks[j as int].args@));
                                }
                                let t = &mut tasks[j];
                                t.args.push(c.path.clone());
                                proof {
                                    assert(tasks@ == old_tasks.update(j as int, tasks@[j as int]));
                                    lemma_tasks_view_update(old_tasks, j as int, tasks@[j as int]);
                                }
                            },
                            None => {
                                let ghost prev = tasks@;
                                let t = Task { app, args: vec![c.path.clone()] };
                                proof {
                                    assert(t.args@ =~= seq![c.path]);
                                }
                                tasks.push(t);
                                proof {
                                    lemma_tasks_view_push(prev, t);
                                }
                            },
                        }
                    },
                    _ => {
                        associations.insert(ext, None);
                        remainder.push(c.path.clone());
                    },
                }
            },
        }
        i = i + 1;
    }
    proof {
        assert(candidates@.take(candidates@.len() as int) =~= candidates@);
    }
    BuiltTasks { tasks, remainder }
}

/// The arguments to start an application with: its argument string split at whitespace,
/// with each `{}` standing for all the files; an empty argument string stands for the
/// files alone.
pub open spec fn app_args(args_string: Seq<char>, paths: Seq<String>) -> Seq<Seq<char>>
    decreases args_string.len(),
{
    if args_string.len() == 0 {
        strings_view(paths)
    } else {
        expand_words(words(args_string), paths)
    }
}

/// The words, with each `{}` replaced by all the files.
pub open spec fn expand_words(ws: Seq<Seq<char>>, paths: Seq<String>) -> Seq<Seq<char>>
    decreases ws.len(),
{
    if ws.len() == 0 {
        Seq::empty()
    } else {
        expand_words(ws.drop_last(), paths) + if ws.last() == seq!['{', '}'] {
            strings_view(paths)
        } else {
            seq![ws.last()]
        }
    }
}

/// Appends the characters of each path to `out`.
fn push_paths(out: &mut Vec<String>, paths: &[String])
    ensures
        strings_view(final(out)@) == strings_view(old(out)@) + strings_view(paths@),
{
    let mut i: usize = 0;
    while i < paths.len()
        invariant
            i <= paths@.len(),
            strings_view(out@) == strings_view(old(out)@) + strings_view(paths@.take(i as int)),
        decreases paths@.len() - i,
    {
        let ghost prev = out@;
        let p = paths[i].clone();
        out.push(p);
        proof {
            let n0 = old(out)@.len();
            let a = strings_view(out@);
            let b = strings_view(old(out)@) + strings_view(paths@.take(i + 1));
            let c = strings_view(old(out)@) + strings_view(paths@.take(i as int));
            assert(strings_view(prev) == c);
            assert(prev.len() == n0 + i) by {
                assert(strings_view(prev).len() == prev.len());
                assert(paths@.take(i as int).len() == i);
            }
            assert(a.len() == b.len()) by {
                assert(paths@.take(i + 1).len() == i + 1);
            }
            assert forall|k: int| 0 <= k < a.len() implies a[k] == b[k] by {
                assert(out@[k] == prev.push(p)[k]);
                if k < prev.len() {
                    assert(strings_view(prev)[k] == prev[k]@);
                    if k < n0 {
                        assert(c[k] == strings_view(old(out)@)[k]);
                        assert(b[k] == strings_view(old(out)@)[k]);
                    } else {
                        assert(c[k] == strings_view(paths@.take(i as int))[k - n0]);
                        assert(b[k] == strings_view(paths@.take(i + 1))[k - n0]);
                        assert(paths@.take(i as int)[k - n0] == paths@.take(i + 1)[k - n0]);
                    }
                } else {
                    assert(b[k] == strings_view(paths@.take(i + 1))[i as int]);
                    assert(paths@.take(i + 1)[i as int] == paths@[i as int]);
                }
            }
            assert(a =~= b);
        }
        i = i + 1;
    }
    proof {
        assert(paths@.take(paths@.len() as int) =~= paths@);
    }
}

/// The arguments to start an application with (see `app_args`).
pub fn feed_args(args_string: &str, paths: &[String]) -> (r: Vec<String>)
    ensures
        strings_view(r@) == app_args(args_string@, paths@),
{
    let mut out: Vec<String> = Vec::new();
    if args_string.is_empty() {
        push_paths(&mut out, paths);
        proof {
            assert(strings_view(out@) =~= strings_view(paths@));
        }
        return out;
    }
    let chars = chars_of(args_string);
    let ws = split_words(&chars);
    let ghost wsv = ws@.map_values(|w: Vec<char>| w@);
    let mut i: usize = 0;
    while i < ws.len()
        invariant
            i <= ws@.len(),
            wsv == ws@.map_values(|w: Vec<char>| w@),
            wsv == words(args_string@),
            strings_view(out@) == expand_words(wsv.take(i as int), paths@),
        decreases ws@.len() - i,
    {
        let w = &ws[i];
        proof {
            assert(wsv.take(i + 1).drop_last() =~= wsv.take(i as int));
            assert(wsv.take(i + 1).last() == w@);
        }
        let ghost before = strings_view(out@);
        if w.len() == 2 && w[0] == '{' && w[1] == '}' {
            push_paths(&mut out, paths);
            proof {
                assert(w@ =~= seq!['{', '}']);
            }
        } else {
            let s = string_from_chars(w.as_slice(), 0, w.len());
            out.push(s);
            proof {
                assert(w@.subrange(0, w@.len() as int) =~= w@);
                assert(strings_view(out@) =~= before + seq![w@]);
                if w@ == seq!['{', '}'] {
                    assert(w@[0] == '{' && w@[1] == '}');
                }
            }
        }
        i = i + 1;
    }
    proof {
        assert(wsv.take(wsv.len() as int) =~= wsv);
        assert(args_string@.len() > 0);
    }
    out
}

/// The application bound to the first of the entry's tags (in the order they were added)
/// that has one.
pub fn find_open_with_for_entry(en: &Entry, coll: &Collection) -> (r: Option<AppId>)
    requires
        coll.wf(),
    ensures
        ({
            let f = first_where(en.tags.seq(), |t: crate::tag::Id| coll.tag_specific_apps@.dom().contains(t.0));
            &&& f < 0 ==> r is None
            &&& f >= 0 ==> r == Some(coll.tag_specific_apps@[en.tags.seq()[f].0])
        }),
{
    let own = en.tags.as_slice();
    let ghost pred = |t: crate::tag::Id| coll.tag_specific_apps@.dom().contains(t.0);
    proof {
        lemma_first_where(en.tags.seq(), pred);
    }
    let mut i: usize = 0;
    while i < own.len()
        invariant
            i <= own@.len(),
            own@ == en.tags.seq(),
            coll.wf(),
            pred == (|t: crate::tag::Id| coll.tag_specific_apps@.dom().contains(t.0)),
            forall|j: int| 0 <= j < i ==> !pred(#[trigger] own@[j]),
        decreases own@.len() - i,
    {
        match coll.tag_specific_apps.get(own[i].0) {
            Some(app) => {
                proof {
                    lemma_first_where_unique(en.tags.seq(), pred, i as int);
                }
                return Some(*app);
            },
            None => {},
        }
        i = i + 1;
    }
    proof {
        let f = first_where(en.tags.seq(), pred);
        if f >= 0 {
            assert(!pred(own@[f]));
        }
    }
    None
}

/// Whether the candidates are the files of the entries `ids`, in order, with no fixed
/// application.
pub open spec fn candidates_of_ids(cands: Seq<OpenExternCandidate>, ids: Seq<entry::Id>, coll: Collection) -> bool {
    &&& cands.len() == ids.len()
    &&& forall|k: int|
        0 <= k < ids.len() ==> (#[trigger] cands[k]).path == coll.entries@[ids[k].0].path
            && cands[k].open_with is None
}

/// The files of the entries `ids`, in order, with no fixed application.
fn candidates_of(coll: &Collection, ids: &[entry::Id]) -> (r: Vec<OpenExternCandidate>)
    requires
        coll.wf(),
        forall|t: int| 0 <= t < ids@.len() ==> coll.entries@.dom().contains(#[trigger] ids@[t].0),
    ensures
        candidates_of_ids(r@, ids@, *coll),
{
    let mut r: Vec<OpenExternCandidate> = Vec::new();
    let mut i: usize = 0;
    while i < ids.len()
        invariant
            i <= ids@.len(),
            coll.wf(),
            forall|t: int| 0 <= t < ids@.len() ==> coll.entries@.dom().contains(#[trigger] ids@[t].0),
            candidates_of_ids(r@, ids@.take(i as int), *coll),
        decreases ids@.len() - i,
    {
        let path = match coll.entries.get(ids[i].0) {
            Some(en) => en.path.clone(),
            None => String::new(),
        };
        proof {
            assert(coll.entries@.dom().contains(ids@[i as int].0));
        }
        r.push(OpenExternCandidate { path, open_with: None });
        i = i + 1;
        proof {
            assert forall|k: int| 0 <= k < i implies (#[trigger] r@[k]).path == coll.entries@[ids@.take(i as int)[k].0].path
                && r@[k].open_with is None by {
                if k < i - 1 {
                    assert(ids@.take(i as int)[k] == ids@.take(i - 1)[k]);
                }
            }
        }
    }
    proof {
        assert(ids@.take(ids@.len() as int) =~= ids@);
    }
    r
}

/// The entries that enter opens, before they are put in path order: the selected ones,
/// or where none are selected and the filter is not empty, those that pass the filter.
pub open spec fn enter_source(coll: Collection, selected: Seq<entry::Id>, filter: Requirements) -> Seq<entry::Id> {
    if selected.len() > 0 {
        selected
    } else if filter.seq().len() > 0 {
        coll.entries.pairs().filter(
            |p: (u64, Entry)| reqs_hold(filter, entry::Id(p.0), p.1, coll.tags@, coll.sequences@),
        ).map_values(|p: (u64, Entry)| entry::Id(p.0))
    } else {
        Seq::<entry::Id>::empty()
    }
}

/// What enter opens: the selected entries, or where none are selected and the filter
/// is not empty, the entries that pass the filter; in the order of their paths.
pub fn enter_candidates(coll: &Collection, selected: &[entry::Id], filter: &Requirements) -> (r: (
    Vec<entry::Id>,
    Vec<OpenExternCandidate>,
))
    requires
        coll.wf(),
        forall|t: int| 0 <= t < selected@.len() ==> coll.entries@.dom().contains(#[trigger] selected@[t].0),
    ensures
        r.0@.to_multiset() == enter_source(*coll, selected@, *filter).to_multiset(),
        forall|p: Seq<char>|
            #[trigger] with_path(coll.entries@, r.0@, p) == with_path(coll.entries@, enter_source(*coll, selected@, *filter), p),
        exists|perm: Seq<int>| stable_rearrangement(coll.entries@, enter_source(*coll, selected@, *filter), r.0@, perm),
        sorted_by_path(coll.entries@, r.0@),
        candidates_of_ids(r.1@, r.0@, *coll),
{
    let mut ids: Vec<entry::Id> = Vec::new();
    if selected.len() > 0 {
        let mut i: usize = 0;
        while i < selected.len()
            invariant
                i <= selected@.len(),
                ids@ == selected@.take(i as int),
            decreases selected@.len() - i,
        {
            ids.push(selected[i]);
            i = i + 1;
            proof {
                assert(ids@ =~= selected@.take(i as int));
            }
        }
        proof {
            assert(selected@.take(selected@.len() as int) =~= selected@);
        }
    } else if !filter.is_empty() {
        ids = coll.filter(filter);
    }
    let ghost pre = ids@;
    sort_ids(&mut ids, SortBy::Path, coll);
    proof {
        let perm = choose|perm: Seq<int>| stable_rearrangement(coll.entries@, pre, ids@, perm);
        assert(stable_rearrangement(coll.entries@, pre, ids@, perm));
        if selected@.len() == 0 && filter.seq().len() == 0 {
            assert(pre =~= Seq::<entry::Id>::empty());
        }
        assert(pre == enter_source(*coll, selected@, *filter));
        broadcast use vstd::seq_lib::to_multiset_contains;
        assert forall|t: int| 0 <= t < ids@.len() implies coll.entries@.dom().contains(#[trigger] ids@[t].0) by {
            assert(ids@.to_multiset().count(ids@[t]) > 0);
        }
    }
    let cands = candidates_of(coll, ids.as_slice());
    (ids, cands)
}

/// The position of the last sequence that holds `id`, or -1.
pub open spec fn last_related(pairs: Seq<(u64, Sequence)>, id: entry::Id) -> int
    decreases pairs.len(),
{
    if pairs.len() == 0 {
        -1
    } else if pairs.last().1.entries@.contains(id) {
        pairs.len() - 1
    } else {
        last_related(pairs.drop_last(), id)
    }
}

/// What opening the single entry `uid` opens: where a sequence holds it, the last such
/// sequence, from the entry on and wrapping around, with no fixed application; otherwise
/// the entry alone, with the application bound to its tags, if any.
pub fn single_candidates(coll: &Collection, uid: entry::Id) -> (r: Vec<OpenExternCandidate>)
    requires
        coll.wf(),
        coll.entries@.dom().contains(uid.0),
        last_related(coll.sequences.pairs(), uid) >= 0 ==> forall|t: int|
            0 <= t < coll.sequences.pairs()[last_related(coll.sequences.pairs(), uid)].1.entries@.len()
                ==> coll.entries@.dom().contains(
                #[trigger] coll.sequences.pairs()[last_related(coll.sequences.pairs(), uid)].1.entries@[t].0,
            ),
    ensures
        ({
            let f = last_related(coll.sequences.pairs(), uid);
            let s = coll.sequences.pairs()[f].1;
            &&& f >= 0 ==> candidates_of_ids(
                r@,
                s.entries@.subrange(s.pos_of(uid), s.entries@.len() as int) + s.entries@.subrange(
                    0,
                    s.pos_of(uid),
                ),
                *coll,
            )
            &&& f < 0 ==> r@.len() == 1 && r@[0].path == coll.entries@[uid.0].path && ({
                let g = first_where(
                    coll.entries@[uid.0].tags.seq(),
                    |t: crate::tag::Id| coll.tag_specific_apps@.dom().contains(t.0),
                );
                &&& g < 0 ==> r@[0].open_with is None
                &&& g >= 0 ==> r@[0].open_with == Some(
                    coll.tag_specific_apps@[coll.entries@[uid.0].tags.seq()[g].0],
                )
            })
        }),
{
    let mut last: Option<usize> = None;
    let mut i: usize = 0;
    while i < coll.sequences.len()
        invariant
            i <= coll.sequences.pairs().len(),
            last matches Some(j) ==> last_related(coll.sequences.pairs().take(i as int), uid) == j && j < i,
            last is None ==> last_related(coll.sequences.pairs().take(i as int), uid) < 0,
        decreases coll.sequences.pairs().len() - i,
    {
        proof {
            assert(coll.sequences.pairs().take(i + 1).drop_last() =~= coll.sequences.pairs().take(i as int));
        }
        if coll.sequences.value_at(i).contains_entry(uid) {
            last = Some(i);
        }
        i = i + 1;
    }
    proof {
        assert(coll.sequences.pairs().take(i as int) =~= coll.sequences.pairs());
    }
    match last {
        Some(j) => {
            let s = coll.sequences.value_at(j);
            proof {
                lemma_last_related(coll.sequences.pairs(), uid);
            }
            let ids = s.entry_uids_wrapped_from(uid);
            proof {
                assert forall|t: int| 0 <= t < ids@.len() implies coll.entries@.dom().contains(#[trigger] ids@[t].0) by {
                    let n = s.entries@.len() as int;
                    let p = s.pos_of(uid);
                    crate::util::position::lemma_first_pos(s.entries@, uid);
                    if t < n - p {
                        assert(ids@[t] == s.entries@[p + t]);
                    } else {
                        assert(ids@[t] == s.entries@[t - (n - p)]);
                    }
                }
            }
            candidates_of(coll, ids.as_slice())
        },
        None => {
            let path = match coll.entries.get(uid.0) {
                Some(en) => en.path.clone(),
                None => String::new(),
            };
            let open_with = match coll.entries.get(uid.0) {
                Some(en) => find_open_with_for_entry(en, coll),
                None => None,
            };
            let mut r: Vec<OpenExternCandidate> = Vec::new();
            r.push(OpenExternCandidate { path, open_with });
            r
        },
    }
}

/// `last_related` finds a sequence that holds the entry.
proof fn lemma_last_related(pairs: Seq<(u64, Sequence)>, id: entry::Id)
    ensures
        -1 <= last_related(pairs, id) < pairs.len(),
        last_related(pairs, id) >= 0 ==> pairs[last_related(pairs, id)].1.entries@.contains(id),
    decreases pairs.len(),
{
    if pairs.len() > 0 && !pairs.last().1.entries@.contains(id) {
        lemma_last_related(pairs.drop_last(), id);
        if last_related(pairs, id) >= 0 {
            assert(pairs[last_related(pairs, id)] == pairs.drop_last()[last_related(pairs, id)]);
        }
    }
}

} // verus!
