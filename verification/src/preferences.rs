//! Preferences: external applications and the settings that name their ranges.
use vstd::prelude::*;

use crate::db::Uid;
use crate::id_map::IdMap;
use crate::util::position::{first_where, lemma_first_where, lemma_first_where_unique};
use crate::util::string::str_eq;

verus! {

/// An external application that entries can be opened with.
#[derive(Debug)]
pub struct App {
    pub name: String,
    pub path: String,
    /// A custom-parsed arguments string with `{}` placeholding for the entry list
    pub args_string: String,
}

impl Default for App {
    fn default() -> (r: Self)
        ensures
            r.name@.len() == 0,
            r.path@.len() == 0,
            r.args_string@.len() == 0,
    {
        App { name: String::new(), path: String::new(), args_string: String::new() }
    }
}

/// Uid of an application.
#[derive(Clone, Copy, PartialEq, Eq, Structural, Hash, Debug)]
pub struct AppId(pub Uid);

/// The mouse wheel scrolling multiplier setting.
pub enum ScrollWheelMultiplier {
    /// The setting itself; the type only serves to name it.
    Setting,
}

/// The up/down arrow key scroll speed setting.
pub enum UpDownArrowScrollSpeed {
    /// The setting itself; the type only serves to name it.
    Setting,
}

/// The thumbnails-per-row setting.
pub enum ThumbnailsPerRow {
    /// The setting itself; the type only serves to name it.
    Setting,
}

/// Position of the first application named `name`, or -1.
pub open spec fn app_index(apps: Seq<(u64, App)>, name: Seq<char>) -> int {
    first_where(apps, |p: (u64, App)| p.1.name@ == name)
}

/// The first application (in order) whose name is `name`.
pub fn resolve_app(applications: &IdMap<App>, name: &str) -> (r: Option<AppId>)
    requires
        applications.wf(),
    ensures
        app_index(applications.pairs(), name@) < 0 ==> r is None,
        app_index(applications.pairs(), name@) >= 0 ==> r == Some(
            AppId(applications.key_seq()[app_index(applications.pairs(), name@)]),
        ),
{
    let ghost pred = |p: (u64, App)| p.1.name@ == name@;
    proof {
        lemma_first_where(applications.pairs(), pred);
    }
    let mut i: usize = 0;
    while i < applications.len()
        invariant
            i <= applications.pairs().len(),
            pred == (|p: (u64, App)| p.1.name@ == name@),
            forall|j: int| 0 <= j < i ==> !pred(#[trigger] applications.pairs()[j]),
        decreases applications.pairs().len() - i,
    {
        if str_eq(applications.value_at(i).name.as_str(), name) {
            proof {
                lemma_first_where_unique(applications.pairs(), pred, i as int);
            }
            return Some(AppId(applications.key_at(i)));
        }
        i = i + 1;
    }
    proof {
        if first_where(applications.pairs(), pred) >= 0 {
            let f = first_where(applications.pairs(), pred);
            assert(!pred(applications.pairs()[f]));
        }
    }
    None
}

} // verus!
