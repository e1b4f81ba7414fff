//! File-system paths, built by the standard library and carried through
//! unopened.

use std::path::PathBuf;
use vstd::prelude::*;

verus! {

/// A path of the standard library.
#[verifier::external_type_specification]
#[verifier::external_body]
pub struct ExPathBuf(std::path::PathBuf);

/// The path that `std::path::Path::new(base).join(name)` builds. The
/// standard library computes it from the two strings alone (with the path
/// separator of the target the crate is built for); what it holds is not
/// stated here.
pub uninterp spec fn path_join(base: Seq<char>, name: Seq<char>) -> PathBuf;

/// The path that `path.with_extension(extension)` of `std::path::Path`
/// builds, a function of the path and the extension alone; what it holds is
/// not stated here.
pub uninterp spec fn path_with_extension(path: PathBuf, extension: Seq<char>) -> PathBuf;

/// `text` holds no path separator of any target: neither `/` nor `\`.
pub open spec fn no_separator(text: Seq<char>) -> bool {
    forall|i: int| 0 <= i < text.len() ==> text[i] != '/' && text[i] != '\\'
}

/// `std::path::Path::new(base).join(name)`: the result is the path named
/// `path_join` of the two strings.
#[verifier::external_body]
pub(crate) fn join_path(base: &str, name: &str) -> (r: PathBuf)
    ensures
        r == path_join(base@, name@),
{
    std::path::Path::new(base).join(name)
}

/// `path.with_extension(extension)` of `std::path::Path`: the result is the
/// path named `path_with_extension` of the path and the extension. The
/// standard library panics on an extension that holds a path separator, so
/// the extension may hold neither `/` nor `\`.
#[verifier::external_body]
pub(crate) fn with_extension(path: PathBuf, extension: &str) -> (r: PathBuf)
    requires
        no_separator(extension@),
    ensures
        r == path_with_extension(path, extension@),
{
    path.with_extension(extension)
}

} // verus!
