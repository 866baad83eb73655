//! The parse tree of a filter string: tags, exact tags, function calls and negations.
use vstd::prelude::*;

verus! {

/// One requirement of a filter string, as written.
#[derive(Debug, PartialEq)]
pub enum Requirement {
    /// A tag name, like `cat`.
    Tag(String),
    /// A tag name that must match exactly, like `$cat`.
    TagExact(String),
    /// A function call, like `@any[cat dog]`.
    FnCall(FnCall),
    /// A negated requirement, like `!cat`.
    Not(Box<Requirement>),
}

/// A function call of a filter string: its name and its parameters.
#[derive(Debug, PartialEq)]
pub struct FnCall {
    pub name: String,
    pub params: Vec<Requirement>,
}

} // verus!
