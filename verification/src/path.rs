//! What the library takes from `std::path`: the final component of a path, its
//! parent, its extension, and the joining of a path and a name.
//!
//! Paths are held as strings. How a path string falls into components is the
//! business of `std::path` alone, under the path syntax of the platform the
//! crate is built for; the functions below call it and are believed, not
//! proved.

use std::path::Path;
use vstd::prelude::*;
use crate::text::after_last;

verus! {

/// What `Path::file_name` returns for the path `path`: its final component,
/// if that is an ordinary name.
pub uninterp spec fn path_file_name(path: Seq<char>) -> Option<Seq<char>>;

/// What `Path::parent` returns for the path `path`: the path without its
/// final component, if there is one.
pub uninterp spec fn path_parent(path: Seq<char>) -> Option<Seq<char>>;

/// What `Path::join` returns for the path `base` and `part`: `base` with
/// `part` adjoined.
pub uninterp spec fn path_join(base: Seq<char>, part: Seq<char>) -> Seq<char>;

/// The extension of a file name: the text after its last `.`, unless the name
/// holds no `.` or its only `.` leads it.
pub open spec fn extension_of(name: Seq<char>) -> Option<Seq<char>> {
    let ext = after_last(name, '.');
    if ext.len() == name.len() || ext.len() + 1 == name.len() {
        None
    } else {
        Some(ext)
    }
}

/// The extension of the path `path`: that of its file name, where it has one.
pub open spec fn path_extension(path: Seq<char>) -> Option<Seq<char>> {
    match path_file_name(path) {
        Some(name) => extension_of(name),
        None => None,
    }
}

/// The name of the directory that holds the file `path`: the final component
/// of its parent.
pub open spec fn path_dir_name(path: Seq<char>) -> Option<Seq<char>> {
    match path_parent(path) {
        Some(dir) => path_file_name(dir),
        None => None,
    }
}

/// Calls `Path::file_name`. Believed: the result is the one that
/// `path_file_name` names. The path is a string, so its components are valid
/// UTF-8 and the conversion back to a string changes nothing.
#[verifier::external_body]
pub(crate) fn file_name(path: &str) -> (r: Option<String>)
    ensures
        match r {
            Some(name) => path_file_name(path@) == Some(name@),
            None => path_file_name(path@) is None,
        },
{
    match Path::new(path).file_name() {
        Some(name) => Some(name.to_string_lossy().into_owned()),
        None => None,
    }
}

/// Calls `Path::parent`. Believed: the result is the one that `path_parent`
/// names.
#[verifier::external_body]
pub(crate) fn parent(path: &str) -> (r: Option<String>)
    ensures
        match r {
            Some(dir) => path_parent(path@) == Some(dir@),
            None => path_parent(path@) is None,
        },
{
    match Path::new(path).parent() {
        Some(dir) => Some(dir.to_string_lossy().into_owned()),
        None => None,
    }
}

/// Calls `Path::extension`. Believed, as documented there: a path without a
/// file name has no extension; otherwise the extension is that of the file
/// name, which is the text after its last `.`, and there is none where the
/// name holds no `.` or only a leading one.
#[verifier::external_body]
pub(crate) fn extension(path: &str) -> (r: Option<String>)
    ensures
        match r {
            Some(ext) => path_extension(path@) == Some(ext@),
            None => path_extension(path@) is None,
        },
{
    match Path::new(path).extension() {
        Some(ext) => Some(ext.to_string_lossy().into_owned()),
        None => None,
    }
}

/// Calls `Path::join`. Believed: the result is the one that `path_join`
/// names.
#[verifier::external_body]
pub(crate) fn join(base: &str, part: &str) -> (r: String)
    ensures
        r@ == path_join(base@, part@),
{
    Path::new(base).join(part).to_string_lossy().into_owned()
}

/// The name of the directory that holds the file `path`.
pub fn dir_name(path: &str) -> (r: Option<String>)
    ensures
        match r {
            Some(name) => path_dir_name(path@) == Some(name@),
            None => path_dir_name(path@) is None,
        },
{
    match parent(path) {
        Some(dir) => file_name(dir.as_str()),
        None => None,
    }
}

/// The text of an optional string.
pub open spec fn opt_text(s: Option<String>) -> Option<Seq<char>> {
    match s {
        Some(s) => Some(s@),
        None => None,
    }
}

/// What a source or a destination points to: a directory, and a file name
/// where the argument named a file in it.
#[derive(Debug)]
pub struct Located {
    pub dir: String,
    pub file: Option<String>,
}

/// A `Located` as a value.
pub ghost struct LocatedView {
    pub dir: Seq<char>,
    pub file: Option<Seq<char>>,
}

impl View for Located {
    type V = LocatedView;

    open spec fn view(&self) -> LocatedView {
        LocatedView { dir: self.dir@, file: opt_text(self.file) }
    }
}

/// Where `path` points. A directory points to itself and names no file.
/// Anything else points to its parent and names its own final component;
/// without a parent it points nowhere.
pub open spec fn located(path: Seq<char>, is_dir: bool) -> Option<LocatedView> {
    if is_dir {
        Some(LocatedView { dir: path, file: None })
    } else {
        match path_parent(path) {
            Some(dir) => Some(LocatedView { dir: dir, file: path_file_name(path) }),
            None => None,
        }
    }
}

/// Where `path` points, given whether it is an existing directory.
pub fn locate(path: &str, is_dir: bool) -> (r: Option<Located>)
    ensures
        match r {
            Some(l) => located(path@, is_dir) == Some(l@),
            None => located(path@, is_dir) is None,
        },
{
    if is_dir {
        Some(Located { dir: path.to_owned(), file: None })
    } else {
        match parent(path) {
            Some(dir) => Some(Located { dir: dir, file: file_name(path) }),
            None => None,
        }
    }
}

} // verus!
