//! Paths of the file system, as text, taken apart and put together by
//! `std::path`.
//!
//! Nothing in this module is proved: each function hands on what one method
//! of `std::path::Path` returns, under a name. The methods work on the text
//! alone and never look at the disk; how they part a path into components
//! follows the system that the program is built for.

use vstd::prelude::*;

verus! {

/// What `Path::file_name` returns for `path`: its final component, if it has one.
pub uninterp spec fn fs_file_name(path: Seq<char>) -> Option<Seq<char>>;

/// What `Path::join` returns: `name` below `base`.
pub uninterp spec fn fs_join(base: Seq<char>, name: Seq<char>) -> Seq<char>;

/// What `Path::with_extension` returns: `path` with the extension of its
/// final component set to `extension`.
pub uninterp spec fn fs_with_extension(path: Seq<char>, extension: Seq<char>) -> Seq<char>;

/// Whether `text` holds a character that parts the components of a path.
pub open spec fn has_separator(text: Seq<char>) -> bool {
    text.contains('/') || text.contains('\\')
}

/// `Path::file_name` of `path`, as text.
#[verifier::external_body]
pub(crate) fn file_name(path: &str) -> (r: Option<String>)
    ensures
        r is Some ==> fs_file_name(path@) == Some(r->0@),
        r is None ==> fs_file_name(path@) is None,
{
    match std::path::Path::new(path).file_name() {
        Some(name) => Some(name.to_string_lossy().into_owned()),
        None => None,
    }
}

/// `Path::join` of `base` and `name`, as text.
#[verifier::external_body]
pub(crate) fn join(base: &str, name: &str) -> (r: String)
    ensures
        r@ == fs_join(base@, name@),
{
    std::path::Path::new(base).join(name).to_string_lossy().into_owned()
}

/// `Path::with_extension` of `path` and `extension`, as text. The method
/// panics on an extension that holds a separator, so none may be passed.
#[verifier::external_body]
pub(crate) fn with_extension(path: &str, extension: &str) -> (r: String)
    requires
        !has_separator(extension@),
    ensures
        r@ == fs_with_extension(path@, extension@),
{
    std::path::Path::new(path).with_extension(extension).to_string_lossy().into_owned()
}

} // verus!
