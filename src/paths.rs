//! The key under which the index stores a path: its canonical form, with
//! `.` and `..` resolved and symbolic links followed, so that one file
//! reached by two routes is one entry.

use vstd::prelude::*;

verus! {

/// `std::io::Error`, carried through as the error of a failed resolution.
#[verifier::external_type_specification]
#[verifier::external_body]
pub struct ExIoError(std::io::Error);

/// Relies on `std::path::Path::canonicalize`: the canonical absolute form of
/// the path, or the error met while resolving it. Whether it succeeds, and
/// what it resolves to, depend on the file system at the time of the call;
/// an absolute path on this (Unix) target starts at the root, `/`.
#[verifier::external_body]
fn canonical_form(path: &str) -> (r: Result<String, std::io::Error>)
    ensures
        r is Ok ==> r->Ok_0@.len() > 0 && r->Ok_0@[0] == '/',
{
    std::path::Path::new(path).canonicalize().map(|p| p.display().to_string())
}

/// The canonical form of `relative_path`, as text; an error when the path
/// does not exist or cannot be resolved. A result is an absolute path.
pub fn get_full_path(relative_path: &str) -> (r: Result<String, std::io::Error>)
    ensures
        r is Ok ==> r->Ok_0@.len() > 0 && r->Ok_0@[0] == '/',
{
    canonical_form(relative_path)
}

} // verus!
