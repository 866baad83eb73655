//! Ordering of paths.
use vstd::prelude::*;

verus! {

/// Whether the path `a` comes before the path `b` in the ordering of `std::path::Path`,
/// which compares paths component by component.
pub uninterp spec fn path_lt(a: Seq<char>, b: Seq<char>) -> bool;

/// Whether the path `a` sorts before the path `b` (`<` on `Path`). The result is named by
/// `path_lt`; of the order itself only its asymmetry is stated, which `PartialOrd`
/// documents for every implementation.
#[verifier::external_body]
pub(crate) fn path_precedes(a: &str, b: &str) -> (r: bool)
    ensures
        r == path_lt(a@, b@),
        r ==> !path_lt(b@, a@),
{
    std::path::Path::new(a) < std::path::Path::new(b)
}

/// The extension of the path `p` as `std::path::Path::extension` finds it: what follows
/// the last `.` of the file name, for a file name that has a `.` after its first character.
pub uninterp spec fn extension_of(p: Seq<char>) -> Option<Seq<char>>;

/// The extension of the path `p` (`Path::extension`), named by `extension_of`.
#[verifier::external_body]
pub(crate) fn path_extension(p: &str) -> (r: Option<String>)
    ensures
        r is None <==> extension_of(p@) is None,
        r matches Some(e) ==> extension_of(p@) == Some(e@),
{
    std::path::Path::new(p).extension().map(|e| e.to_string_lossy().into_owned())
}


/// The path `p` with its last component taken off, as `PathBuf::pop` leaves it (`p`
/// itself where it has no parent).
pub uninterp spec fn popped_path(p: Seq<char>) -> Seq<char>;

/// `PathBuf::pop` on the path `p`; the result is named by `popped_path`.
#[verifier::external_body]
pub(crate) fn path_pop(p: &str) -> (r: String)
    ensures
        r@ == popped_path(p@),
{
    let mut buf = std::path::PathBuf::from(p);
    buf.pop();
    buf.to_string_lossy().into_owned()
}

/// The path `p` with `name` joined on, as `PathBuf::push` makes it: the platform's
/// separator goes between them where `p` is not empty and does not end in one, and an
/// absolute `name` replaces `p`.
pub uninterp spec fn pushed_path(p: Seq<char>, name: Seq<char>) -> Seq<char>;

/// `PathBuf::push` of `name` onto the path `p`; the result is named by `pushed_path`.
#[verifier::external_body]
pub(crate) fn path_push(p: &str, name: &str) -> (r: String)
    ensures
        r@ == pushed_path(p@, name@),
{
    let mut buf = std::path::PathBuf::from(p);
    buf.push(name);
    buf.to_string_lossy().into_owned()
}


/// Whether the paths `a` and `b` are equal as `std::path::Path` values, which compare
/// component by component (so `a/b` and `a//b` are equal).
pub uninterp spec fn same_path(a: Seq<char>, b: Seq<char>) -> bool;

/// `==` on `Path`, named by `same_path`. Equal text gives equal paths, and the comparison
/// is symmetric, as `Eq` promises.
#[verifier::external_body]
pub(crate) fn paths_equal(a: &str, b: &str) -> (r: bool)
    ensures
        r == same_path(a@, b@),
        r == same_path(b@, a@),
        a@ == b@ ==> r,
{
    std::path::Path::new(a) == std::path::Path::new(b)
}

} // verus!
