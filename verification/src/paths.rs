//! Relative paths, through `std::path`.
use vstd::prelude::*;
use vstd::string::*;
use std::path::Path;

verus! {

/// What `Path::strip_prefix(path, base)` gives, written back as a string
/// (`None` where it returns `Err`).
pub uninterp spec fn std_strip_prefix(path: Seq<char>, base: Seq<char>) -> Option<Seq<char>>;

/// Whether `Path::new(a) == Path::new(b)` (paths compare by components).
pub uninterp spec fn std_path_eq(a: Seq<char>, b: Seq<char>) -> bool;

/// What `Path::extension` gives for a path, as a string.
pub uninterp spec fn std_path_extension(path: Seq<char>) -> Option<Seq<char>>;

/// What `Path::components` gives for a path, each component as a string.
pub uninterp spec fn std_path_components(path: Seq<char>) -> Seq<Seq<char>>;

/// What `Path::parent` gives for a path, as a string.
pub uninterp spec fn std_path_parent(path: Seq<char>) -> Option<Seq<char>>;

/// `Path::strip_prefix`: the rest of `path` after the components of `base`,
/// or `None` when `base` is not a prefix of `path` component by component.
/// Nothing is claimed of the rest beyond its name.
#[verifier::external_body]
fn strip_prefix(path: &str, base: &str) -> (r: Option<String>)
    ensures
        match r {
            Some(s) => std_strip_prefix(path@, base@) == Some(s@),
            None => std_strip_prefix(path@, base@) is None,
        },
{
    Path::new(path).strip_prefix(Path::new(base)).ok().map(|p| p.to_string_lossy().into_owned())
}

/// `PartialEq` of `Path`: components compared one by one.  As an `Eq`
/// impl it is reflexive, so equal strings give equal paths.
#[verifier::external_body]
fn paths_equal(a: &str, b: &str) -> (r: bool)
    ensures
        r == std_path_eq(a@, b@),
        a@ == b@ ==> r,
{
    Path::new(a) == Path::new(b)
}

/// `Path::extension`: the part of the file name after its last `.`; there
/// is none when the path holds no `.` at all.
#[verifier::external_body]
pub(crate) fn path_extension(path: &str) -> (r: Option<String>)
    ensures
        match r {
            Some(s) => std_path_extension(path@) == Some(s@),
            None => std_path_extension(path@) is None,
        },
        !path@.contains('.') ==> r is None,
{
    Path::new(path).extension().and_then(|s| s.to_str()).map(|s| s.to_string())
}

/// `Path::components`, each component written back as a string.
#[verifier::external_body]
pub(crate) fn path_components(path: &str) -> (r: Vec<String>)
    ensures
        r@.map_values(|s: String| s@) == std_path_components(path@),
{
    Path::new(path).components().map(|c| c.as_os_str().to_string_lossy().to_string()).collect()
}

/// `Path::parent`, as a string (`None` where the path has no parent or the
/// parent is not valid UTF-8).
#[verifier::external_body]
fn path_parent(path: &str) -> (r: Option<String>)
    ensures
        match r {
            Some(s) => std_path_parent(path@) == Some(s@),
            None => std_path_parent(path@) is None,
        },
{
    Path::new(path).parent().and_then(|p| p.to_str()).map(|s| s.to_string())
}

/// `path` relative to `reference`: what is left after stripping it, or
/// `path` itself when `reference` is not a prefix of it.
pub open spec fn pathdiff_spec(path: Seq<char>, reference: Seq<char>) -> Seq<char> {
    match std_strip_prefix(path, reference) {
        Some(rest) => rest,
        None => path,
    }
}

/// Whether `path` lies strictly below `ancestor`.
pub open spec fn is_descendant_spec(path: Seq<char>, ancestor: Seq<char>) -> bool {
    &&& !std_path_eq(path, ancestor)
    &&& match std_strip_prefix(path, ancestor) {
        Some(rest) => rest.len() > 0,
        None => false,
    }
}

/// The path of `path` relative to `reference`, or `path` unchanged when
/// `reference` is not one of its ancestors.
pub fn pathdiff(path: &str, reference: &str) -> (r: String)
    ensures
        r@ == pathdiff_spec(path@, reference@),
{
    match strip_prefix(path, reference) {
        Some(rest) => rest,
        None => String::from_str(path),
    }
}

/// Whether `path` lies strictly below `ancestor`.
pub fn is_descendant_path(path: &str, ancestor: &str) -> (r: bool)
    ensures
        r == is_descendant_spec(path@, ancestor@),
        // a path never lies below itself
        path@ == ancestor@ ==> !r,
{
    if paths_equal(path, ancestor) {
        return false;
    }
    match strip_prefix(path, ancestor) {
        Some(rest) => rest.unicode_len() > 0,
        None => false,
    }
}

/// The folder one level up from `path`, or the empty path when there is none.
pub open spec fn parent_dir_spec(path: Seq<char>) -> Seq<char> {
    match std_path_parent(path) {
        Some(p) => p,
        None => Seq::<char>::empty(),
    }
}

/// The folder one level up from `path` (the empty path at the top).
pub fn parent_dir(path: &str) -> (r: String)
    ensures
        r@ == parent_dir_spec(path@),
{
    match path_parent(path) {
        Some(p) => p,
        None => String::new(),
    }
}

} // verus!
