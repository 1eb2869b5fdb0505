//! From the argument of an `Include` directive to the pattern that is looked
//! up in the file system: `~/` stands for the home directory, and a relative
//! path is taken from the directory of the file that holds the directive.

use crate::text::{chars_of, string_from};
use std::path::Path;
use vstd::prelude::*;

verus! {

/// The path that `Path::join` of std makes of `base` and `rest`, as text,
/// on the platform that the library is built for.
pub uninterp spec fn joined_path(base: Seq<char>, rest: Seq<char>) -> Seq<char>;

/// Whether `Path::is_relative` of std holds of the path written `path`, on
/// the platform that the library is built for.
pub uninterp spec fn is_relative_path(path: Seq<char>) -> bool;

/// What `Path::parent` of std gives for the path written `path`, as text,
/// on the platform that the library is built for.
pub uninterp spec fn parent_path(path: Seq<char>) -> Option<Seq<char>>;

/// `Path::join` of std, on paths given and returned as text: the result is
/// `joined_path` of the two arguments. Nothing more is claimed of it.
#[verifier::external_body]
fn path_join(base: &str, rest: &str) -> (joined: String)
    ensures
        joined@ == joined_path(base@, rest@),
{
    Path::new(base).join(rest).to_string_lossy().into_owned()
}

/// `Path::is_relative` of std, on a path given as text: the result is
/// `is_relative_path` of the argument. Nothing more is claimed of it.
#[verifier::external_body]
fn path_is_relative(path: &str) -> (relative: bool)
    ensures
        relative == is_relative_path(path@),
{
    Path::new(path).is_relative()
}

/// `Path::parent` of std, on a path given and returned as text: the result
/// is `parent_path` of the argument. Nothing more is claimed of it.
#[verifier::external_body]
fn path_parent(path: &str) -> (parent: Option<String>)
    ensures
        parent.deep_view() == parent_path(path@),
{
    match Path::new(path).parent() {
        Some(dir) => Some(dir.to_string_lossy().into_owned()),
        None => None,
    }
}

/// `dirs::home_dir`: the home directory of the user who runs the program, as
/// text, or `None` where the platform names none. The result hangs on the
/// environment of the process, so nothing is claimed of it.
#[verifier::external_body]
pub(crate) fn home_directory() -> (home: Option<String>) {
    match dirs::home_dir() {
        Some(dir) => Some(dir.to_string_lossy().into_owned()),
        None => None,
    }
}

/// What follows `~/` in `raw`, where `raw` begins so.
pub open spec fn home_tail(raw: Seq<char>) -> Option<Seq<char>> {
    if raw.len() >= 2 && raw[0] == '~' && raw[1] == '/' {
        Some(raw.skip(2))
    } else {
        None
    }
}

/// `raw` with the home directory in place of a leading `~`. Without a home
/// directory, or without `~/` in front, `raw` stays as it is.
pub open spec fn expand_home(raw: Seq<char>, home: Option<Seq<char>>) -> Seq<char> {
    match (home_tail(raw), home) {
        (Some(tail), Some(dir)) => joined_path(dir, tail),
        _ => raw,
    }
}

/// `path` itself where it is absolute or `file` has no parent directory;
/// else `path` joined onto the directory of `file`.
pub open spec fn anchor(path: Seq<char>, file: Seq<char>) -> Seq<char> {
    if is_relative_path(path) {
        match parent_path(file) {
            Some(dir) => joined_path(dir, path),
            None => path,
        }
    } else {
        path
    }
}

/// The pattern to look up for the argument `raw` of an `Include` directive
/// that stands in `file`.
pub open spec fn search_pattern(
    raw: Seq<char>,
    file: Seq<char>,
    home: Option<Seq<char>>,
) -> Seq<char> {
    anchor(expand_home(raw, home), file)
}

/// Splits `~/` off the front of `raw`.
pub fn split_home(raw: &str) -> (tail: Option<String>)
    ensures
        tail.deep_view() == home_tail(raw@),
{
    let chars = chars_of(raw);
    if chars.len() >= 2 && chars[0] == '~' && chars[1] == '/' {
        let tail = string_from(&chars, 2, chars.len());
        assert(tail@ =~= raw@.skip(2));
        Some(tail)
    } else {
        None
    }
}

/// Puts the home directory in place of a leading `~`.
pub fn expand(raw: &str, home: &Option<String>) -> (path: String)
    ensures
        path@ == expand_home(raw@, home.deep_view()),
{
    match (split_home(raw), home) {
        (Some(tail), Some(dir)) => path_join(dir.as_str(), tail.as_str()),
        _ => raw.to_owned(),
    }
}

/// The pattern to look up for the argument `raw` of an `Include` directive
/// that stands in `file`.
pub fn resolve(raw: &str, file: &str, home: &Option<String>) -> (pattern: String)
    ensures
        pattern@ == search_pattern(raw@, file@, home.deep_view()),
{
    let path = expand(raw, home);
    if path_is_relative(path.as_str()) {
        match path_parent(file) {
            Some(dir) => path_join(dir.as_str(), path.as_str()),
            None => path,
        }
    } else {
        path
    }
}

} // verus!
