//! What the index needs of file paths, as `std::path` reads them.
use vstd::prelude::*;

verus! {

/// The final component of `path`, as `std::path::Path::file_name` finds it
/// under the path syntax of the platform the library is built for; `None`
/// where the path has no final component (it is empty, a root, or ends in `..`).
pub uninterp spec fn path_file_name(path: Seq<char>) -> Option<Seq<char>>;

/// Whether two paths are equal as `std::path::Path` compares them: component
/// by component, under the path syntax of the platform the library is built for.
pub uninterp spec fn paths_equal(a: Seq<char>, b: Seq<char>) -> bool;

/// Calls `std::path::Path::file_name` on `path`. Claims that the result is
/// `path_file_name` of the path: the final component when there is one.
/// The component of a path given as text is itself text, so the conversion
/// back to a `String` loses nothing.
#[verifier::external_body]
pub(crate) fn file_name(path: &str) -> (r: Option<String>)
    ensures
        r is Some <==> path_file_name(path@) is Some,
        r matches Some(name) ==> path_file_name(path@) == Some(name@),
{
    std::path::Path::new(path).file_name().and_then(|n| n.to_str()).map(|n| n.to_string())
}

/// Calls `<std::path::Path as PartialEq>::eq` on the two paths. Claims that the
/// result is `paths_equal` of them.
#[verifier::external_body]
pub(crate) fn same_path(a: &str, b: &str) -> (r: bool)
    ensures
        r == paths_equal(a@, b@),
{
    std::path::Path::new(a) == std::path::Path::new(b)
}

} // verus!
