//! Tags: named qualities by which entries can be marked and found.
use vstd::prelude::*;

use crate::db::{TagSet, Uid};

verus! {

/// Uid of a tag.
#[derive(Clone, Copy, PartialEq, Eq, Structural, Hash, Debug)]
pub struct Id(pub Uid);

/// An identifiable quality that entries can be tagged by.
pub struct Tag {
    /// Names that map to this tag.
    ///
    /// For example, a tag that stands for `happy` could be mapped to by
    /// `happy`, `merry`, or `cheerful`.
    pub names: Vec<String>,
    /// Tags that this tag implies.
    ///
    /// For example, `elephant` might imply `pachyderm` and `animal`.
    pub implies: TagSet,
}

/// The name shown for a tag: its first name, or `<unnamed>` when it has none.
pub open spec fn first_name_of_names(names: Seq<String>) -> Seq<char> {
    if names.len() > 0 {
        names[0]@
    } else {
        "<unnamed>"@
    }
}

impl Tag {
    /// A tag with one name that implies nothing.
    pub fn with_name(name: String) -> (r: Tag)
        ensures
            r.names@ == seq![name],
            r.implies@ == Set::<Id>::empty(),
    {
        let mut names: Vec<String> = Vec::new();
        names.push(name);
        Tag { names, implies: TagSet::new() }
    }

    pub fn first_name(&self) -> (r: &str)
        ensures
            r@ == first_name_of_names(self.names@),
    {
        if self.names.len() > 0 {
            self.names[0].as_str()
        } else {
            "<unnamed>"
        }
    }

    /// If `replace` is an imply, replace it with `with`.
    pub fn replace_imply(&mut self, replace: Id, with: Id)
        ensures
            final(self).names == old(self).names,
            old(self).implies@.contains(replace) ==> final(self).implies@ == old(self).implies@.remove(replace).insert(with),
            !old(self).implies@.contains(replace) ==> final(self).implies@ == old(self).implies@,
    {
        if self.implies.remove(replace) {
            self.implies.insert(with);
        }
    }
}

} // verus!
