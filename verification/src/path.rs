//! What the library needs of `std::path` on paths given as `str`. These
//! functions of `std` have no specification in vstd: each wrapper names what
//! the call returns, a function of its arguments alone. The extension of a
//! file name is short enough to state and compute here.

use vstd::prelude::*;

use crate::text::{char_vec, push_char};

verus! {

/// The components of a path, as `Path::components` yields them, each
/// rendered as text (for a path given as `str` the rendering is lossless).
pub uninterp spec fn path_components(path: Seq<char>) -> Seq<Seq<char>>;

/// The final component of a path, as `Path::file_name` returns it.
pub uninterp spec fn path_file_name(path: Seq<char>) -> Option<Seq<char>>;

/// The position of the last `.` in `s`, or -1 where there is none.
pub open spec fn last_dot(s: Seq<char>) -> int
    decreases s.len(),
{
    if s.len() == 0 {
        -1
    } else if s.last() == '.' {
        s.len() - 1
    } else {
        last_dot(s.drop_last())
    }
}

/// The extension of a file name, as `Path::extension` documents it: the
/// part after the last `.`; none where the name has no `.`, or where its
/// only `.` begins it.
pub open spec fn name_extension(name: Seq<char>) -> Option<Seq<char>> {
    if last_dot(name) <= 0 {
        None
    } else {
        Some(name.skip(last_dot(name) + 1))
    }
}

/// The extension of the final component, as `Path::extension` returns it.
pub open spec fn path_extension(path: Seq<char>) -> Option<Seq<char>> {
    match path_file_name(path) {
        Some(name) => name_extension(name),
        None => None,
    }
}

/// The path without its final component, as `Path::parent` returns it.
pub uninterp spec fn path_parent(path: Seq<char>) -> Option<Seq<char>>;

/// `path` relative to `base`, as `Path::strip_prefix` returns it
/// (`None` where it returns an error).
pub uninterp spec fn path_strip_prefix(path: Seq<char>, base: Seq<char>) -> Option<Seq<char>>;

/// The views of a sequence of strings.
pub open spec fn strings_view(v: Seq<String>) -> Seq<Seq<char>> {
    v.map_values(|s: String| s@)
}

/// The view of an optional string.
pub open spec fn opt_string_view(o: Option<String>) -> Option<Seq<char>> {
    match o {
        Some(s) => Some(s@),
        None => None,
    }
}

/// Calls `Path::components` on `path`; claims the texts of the components
/// are `path_components(path@)`, in order.
#[verifier::external_body]
pub(crate) fn components_of(path: &str) -> (r: Vec<String>)
    ensures
        strings_view(r@) == path_components(path@),
{
    std::path::Path::new(path).components().map(|c| c.as_os_str().to_string_lossy().into_owned()).collect()
}

/// The view of an optional string slice.
pub open spec fn opt_str_view(o: Option<&str>) -> Option<Seq<char>> {
    match o {
        Some(s) => Some(s@),
        None => None,
    }
}

/// Calls `Path::file_name` on `path` and `OsStr::to_str` on the name;
/// claims the result is `path_file_name(path@)` (a name taken from a `str`
/// is always valid UTF-8).
#[verifier::external_body]
pub(crate) fn file_name_of<'a>(path: &'a str) -> (r: Option<&'a str>)
    ensures
        opt_str_view(r) == path_file_name(path@),
{
    std::path::Path::new(path).file_name().and_then(|n| n.to_str())
}

/// The extension of `path`'s file name.
pub(crate) fn extension_of(path: &str) -> (r: Option<String>)
    ensures
        opt_string_view(r) == path_extension(path@),
{
    let name = match file_name_of(path) {
        Some(name) => name,
        None => return None,
    };
    let chars = char_vec(name);
    let mut end: usize = chars.len();
    assert(chars@.take(end as int) =~= chars@);
    while end > 0 && chars[end - 1] != '.'
        invariant
            end <= chars.len(),
            last_dot(chars@) == last_dot(chars@.take(end as int)),
        decreases end,
    {
        assert(chars@.take(end as int).drop_last() =~= chars@.take(end - 1));
        end = end - 1;
    }
    if end <= 1 {
        return None;
    }
    let mut extension = String::new();
    let mut k: usize = end;
    while k < chars.len()
        invariant
            end <= k <= chars.len(),
            extension@ == chars@.subrange(end as int, k as int),
        decreases chars.len() - k,
    {
        push_char(&mut extension, chars[k]);
        assert(chars@.subrange(end as int, k + 1) =~= chars@.subrange(end as int, k as int).push(chars@[k as int]));
        k = k + 1;
    }
    assert(chars@.skip(end as int) =~= chars@.subrange(end as int, chars@.len() as int));
    Some(extension)
}

/// Calls `Path::parent` on `path`; claims the result is `path_parent(path@)`.
#[verifier::external_body]
pub(crate) fn parent_of(path: &str) -> (r: Option<String>)
    ensures
        opt_string_view(r) == path_parent(path@),
{
    std::path::Path::new(path).parent().map(|p| p.to_string_lossy().into_owned())
}

/// Calls `Path::strip_prefix` on `path` and `base`; claims the result is
/// `path_strip_prefix(path@, base@)`, `None` standing for the error.
#[verifier::external_body]
pub(crate) fn strip_prefix_of(path: &str, base: &str) -> (r: Option<String>)
    ensures
        opt_string_view(r) == path_strip_prefix(path@, base@),
{
    std::path::Path::new(path).strip_prefix(base).ok().map(|p| p.to_string_lossy().into_owned())
}

} // verus!
