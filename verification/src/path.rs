//! Filesystem paths as text.

use std::path::PathBuf;
use vstd::prelude::*;

verus! {

/// `std::path::PathBuf`, declared so that a path can stand in fields and in
/// signatures. Nothing is known of what a path holds but through
/// [`path_text`].
#[verifier::external_type_specification]
#[verifier::external_body]
pub struct ExPathBuf(PathBuf);

/// What a path holds, read as text: its characters where the path is valid
/// Unicode, `None` where it is not. The wrappers below say how the functions
/// of `std` relate to it; nothing else is claimed of it.
pub uninterp spec fn path_text(path: PathBuf) -> Option<Seq<char>>;

/// `Path::to_str`, reached through `PathBuf`: trusted to yield the text of the
/// path exactly when the path is valid Unicode, and `None` otherwise.
#[verifier::external_body]
pub(crate) fn path_to_str(path: &PathBuf) -> (r: Option<&str>)
    ensures
        r matches Some(s) ==> path_text(*path) == Some(s@),
        r is None ==> path_text(*path) is None,
{
    path.to_str()
}

/// `PathBuf::from` on a `String`: trusted to give a path that holds exactly
/// the text of the string.
#[verifier::external_body]
pub(crate) fn path_from_string(text: String) -> (r: PathBuf)
    ensures
        path_text(r) == Some(text@),
{
    PathBuf::from(text)
}

} // verus!
