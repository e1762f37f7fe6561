//! Content types of files, by their extension.
use vstd::prelude::*;

verus! {

/// The content type that the extension of a path stands for.
pub uninterp spec fn mime_of(path: Seq<char>) -> Option<Seq<char>>;

/// The content type that the extension of a path stands for, by `mime_guess::from_path` and
/// `MimeGuess::first_raw`.
///
/// Trusted: the answer is a function of the path; no file is read. The extension is taken behind
/// the separators of the system that the library is built for: only of a path with a backslash
/// can the answer differ between two of them.
#[verifier::external_body]
pub(crate) fn guess(path: &str) -> (r: Option<&'static str>)
    ensures
        match r {
            Some(m) => mime_of(path@) == Some(m@),
            None => mime_of(path@) is None,
        },
{
    mime_guess::from_path(path).first_raw()
}

} // verus!
