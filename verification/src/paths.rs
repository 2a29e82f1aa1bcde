//! File-system paths as strings, with the standard library's path operations
//! behind named results.
use vstd::prelude::*;

verus! {

/// A name for `Path::extension` of a path string.
pub uninterp spec fn std_path_extension(path: Seq<char>) -> Option<Seq<char>>;

/// A name for `Path::file_stem` of a path string.
pub uninterp spec fn std_path_file_stem(path: Seq<char>) -> Option<Seq<char>>;

/// A name for `Path::parent` of a path string.
pub uninterp spec fn std_path_parent(path: Seq<char>) -> Option<Seq<char>>;

/// A name for `Path::join` of two path strings.
pub uninterp spec fn std_path_join(base: Seq<char>, name: Seq<char>) -> Seq<char>;

/// `Path::new(path).extension()` as a string. The contract names the outcome;
/// what the extension of a path is, the standard library decides.
#[verifier::external_body]
pub(crate) fn path_extension(path: &str) -> (r: Option<String>)
    ensures
        match r {
            Some(e) => std_path_extension(path@) == Some(e@),
            None => std_path_extension(path@) is None,
        },
{
    std::path::Path::new(path).extension().map(|e| e.to_string_lossy().into_owned())
}

/// `Path::new(path).file_stem()` as a string.
#[verifier::external_body]
pub(crate) fn path_file_stem(path: &str) -> (r: Option<String>)
    ensures
        match r {
            Some(e) => std_path_file_stem(path@) == Some(e@),
            None => std_path_file_stem(path@) is None,
        },
{
    std::path::Path::new(path).file_stem().map(|e| e.to_string_lossy().into_owned())
}

/// `Path::new(path).parent()` as a string.
#[verifier::external_body]
pub(crate) fn path_parent(path: &str) -> (r: Option<String>)
    ensures
        match r {
            Some(e) => std_path_parent(path@) == Some(e@),
            None => std_path_parent(path@) is None,
        },
{
    std::path::Path::new(path).parent().map(|e| e.to_string_lossy().into_owned())
}

/// `Path::new(base).join(name)` as a string.
#[verifier::external_body]
pub(crate) fn path_join(base: &str, name: &str) -> (r: String)
    ensures
        r@ == std_path_join(base@, name@),
{
    std::path::Path::new(base).join(name).to_string_lossy().into_owned()
}

} // verus!
