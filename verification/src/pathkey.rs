//! Paths as text. The index keys every root and file by the text of its
//! absolute path; the rules of the platform's path syntax are those of
//! `std::path`, reached through the functions below.

use vstd::prelude::*;

verus! {

/// Whether the path `p` is absolute, in the path syntax of the platform.
pub uninterp spec fn is_absolute_path(p: Seq<char>) -> bool;

/// The path `base` extended by `rel`, in the path syntax of the platform.
pub uninterp spec fn joined_path(base: Seq<char>, rel: Seq<char>) -> Seq<char>;

/// The extension of the last component of `p`, if it has one.
pub uninterp spec fn extension_of(p: Seq<char>) -> Option<Seq<char>>;

/// The last component of `p`, if it names one.
pub uninterp spec fn file_name_of(p: Seq<char>) -> Option<Seq<char>>;

/// The path `p` without its last component, if it has a parent.
pub uninterp spec fn parent_of(p: Seq<char>) -> Option<Seq<char>>;

/// Whether the components of `base` are a prefix of the components of `p`.
pub uninterp spec fn path_under(p: Seq<char>, base: Seq<char>) -> bool;

/// Whether `c` is a separator of path components on the platform.
pub uninterp spec fn is_path_separator(c: char) -> bool;

/// Whether `s` holds a separator of path components.
pub open spec fn holds_separator(s: Seq<char>) -> bool {
    exists|i: int| 0 <= i < s.len() && is_path_separator(#[trigger] s[i])
}

/// The path `p` with the extension of its last component set to `ext`.
pub uninterp spec fn with_extension(p: Seq<char>, ext: Seq<char>) -> Seq<char>;

/// The view of an optional string.
pub open spec fn opt_view(s: Option<String>) -> Option<Seq<char>> {
    match s {
        Some(t) => Some(t@),
        None => None,
    }
}

/// `Path::is_absolute` depends only on the path's text.
#[verifier::external_body]
pub(crate) fn path_is_absolute(p: &str) -> (r: bool)
    ensures
        r == is_absolute_path(p@),
{
    std::path::Path::new(p).is_absolute()
}

/// `Path::join` depends only on the two paths' text.
#[verifier::external_body]
pub(crate) fn path_join(base: &str, rel: &str) -> (r: String)
    ensures
        r@ == joined_path(base@, rel@),
{
    std::path::Path::new(base).join(rel).to_string_lossy().to_string()
}

/// `Path::extension` depends only on the path's text.
#[verifier::external_body]
pub(crate) fn path_extension(p: &str) -> (r: Option<String>)
    ensures
        opt_view(r) == extension_of(p@),
{
    std::path::Path::new(p).extension().map(|e| e.to_string_lossy().to_string())
}

/// `Path::file_name` depends only on the path's text.
#[verifier::external_body]
pub(crate) fn path_file_name(p: &str) -> (r: Option<String>)
    ensures
        opt_view(r) == file_name_of(p@),
{
    std::path::Path::new(p).file_name().map(|e| e.to_string_lossy().to_string())
}

/// `Path::parent` depends only on the path's text.
#[verifier::external_body]
pub(crate) fn path_parent(p: &str) -> (r: Option<String>)
    ensures
        opt_view(r) == parent_of(p@),
{
    std::path::Path::new(p).parent().map(|e| e.to_string_lossy().to_string())
}

/// `Path::starts_with` compares whole components and depends only on the two
/// paths' text.
#[verifier::external_body]
pub(crate) fn path_starts_with(p: &str, base: &str) -> (r: bool)
    ensures
        r == path_under(p@, base@),
{
    std::path::Path::new(p).starts_with(base)
}

/// `std::path::is_separator` tells whether a character is one of the
/// separators of path components that the platform permits.
pub assume_specification[ std::path::is_separator ](c: char) -> (r: bool)
    ensures
        r == is_path_separator(c),
;

/// `Path::with_extension` depends only on the text of the path and of the
/// extension. It is not to be called with an extension that holds a
/// separator of path components.
#[verifier::external_body]
pub(crate) fn path_with_extension(p: &str, ext: &str) -> (r: String)
    requires
        !holds_separator(ext@),
    ensures
        r@ == with_extension(p@, ext@),
{
    std::path::Path::new(p).with_extension(ext).to_string_lossy().to_string()
}

} // verus!
