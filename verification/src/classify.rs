//! Telling bucket directories and resource files from everything else, and
//! reading the qualifier off a bucket directory's name.

use vstd::prelude::*;
use crate::path::{extension, file_name, path_extension, path_file_name};
use crate::text::{after_last, starts_with, str_eq, tail_after};

verus! {

/// The extension of bitmap resources.
pub open spec fn png() -> Seq<char> {
    seq!['p', 'n', 'g']
}

/// The extension of descriptor resources.
pub open spec fn xml() -> Seq<char> {
    seq!['x', 'm', 'l']
}

/// A directory name belongs to a resource type when it begins with the type:
/// `drawable` owns `drawable` and `drawable-mdpi`, and any other name that
/// starts so.
pub open spec fn is_bucket_name(res_type: Seq<char>, name: Seq<char>) -> bool {
    res_type.is_prefix_of(name)
}

/// A path is a bucket directory of a resource type when its final component
/// is a name of that type.
pub open spec fn is_bucket_dir(res_type: Seq<char>, path: Seq<char>) -> bool {
    match path_file_name(path) {
        Some(name) => is_bucket_name(res_type, name),
        None => false,
    }
}

/// The extensions of resource files: `png` and `xml`, in lower case.
pub open spec fn is_resource_extension(ext: Seq<char>) -> bool {
    ext == png() || ext == xml()
}

/// A path is a resource file when it has one of the two extensions.
pub open spec fn is_resource_file(path: Seq<char>) -> bool {
    match path_extension(path) {
        Some(ext) => is_resource_extension(ext),
        None => false,
    }
}

/// The qualifier that a bucket directory's name carries: the text after its
/// last `-`. None where that text is empty or is the resource type itself,
/// as for the unqualified directory `drawable`.
pub open spec fn qualifier_of(res_type: Seq<char>, dir_name: Seq<char>) -> Option<Seq<char>> {
    let tail = after_last(dir_name, '-');
    if tail.len() == 0 || tail == res_type {
        None
    } else {
        Some(tail)
    }
}

/// Whether the directory name `name` belongs to the resource type.
pub fn has_type_prefix(res_type: &str, name: &str) -> (r: bool)
    ensures
        r == is_bucket_name(res_type@, name@),
{
    starts_with(name, res_type)
}

/// Whether `path` names a bucket directory of the resource type.
pub fn valid_res_path(res_type: &str, path: &str) -> (r: bool)
    ensures
        r == is_bucket_dir(res_type@, path@),
{
    match file_name(path) {
        Some(name) => has_type_prefix(res_type, name.as_str()),
        None => false,
    }
}

/// Whether `ext` is one of the two extensions of resource files.
pub fn valid_extension(ext: &str) -> (r: bool)
    ensures
        r == is_resource_extension(ext@),
{
    proof {
        reveal_strlit("png");
        reveal_strlit("xml");
        assert("png"@ =~= png());
        assert("xml"@ =~= xml());
    }
    str_eq(ext, "png") || str_eq(ext, "xml")
}

/// Whether `path` names a resource file.
pub fn valid_res(path: &str) -> (r: bool)
    ensures
        r == is_resource_file(path@),
{
    match extension(path) {
        Some(ext) => valid_extension(ext.as_str()),
        None => false,
    }
}

/// The qualifier in the name of a bucket directory of the resource type.
pub fn qualifier(res_type: &str, dir_name: &str) -> (r: Option<String>)
    ensures
        match r {
            Some(q) => qualifier_of(res_type@, dir_name@) == Some(q@),
            None => qualifier_of(res_type@, dir_name@) is None,
        },
{
    let tail: String = tail_after(dir_name, '-');
    if tail.as_str().unicode_len() == 0 || str_eq(tail.as_str(), res_type) {
        None
    } else {
        Some(tail)
    }
}

} // verus!
