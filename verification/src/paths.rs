//! File paths, through `std::path`.
//!
//! How a path splits into components differs from one platform to another
//! (separators, drive prefixes), so the contracts here state only what holds
//! on every platform.
use vstd::prelude::*;
use std::path::Path;

verus! {

/// A plain file name: not empty, not `.` or `..`, and holding no `/`, `\\`
/// or `:`, so that on every platform it is one normal component, with no
/// root and no drive prefix.
pub open spec fn plain_name(p: Seq<char>) -> bool {
    &&& p.len() > 0
    &&& p != "."@
    &&& p != ".."@
    &&& forall|i: int| 0 <= i < p.len() ==> #[trigger] p[i] != '/' && p[i] != '\\' && p[i] != ':'
}

/// A directory written the same way on every platform: no `\\`, no `:`
/// (so no drive prefix), and not starting with `//` (so no network share),
/// its components separated by `/`.
pub open spec fn portable_dir(d: Seq<char>) -> bool {
    &&& forall|i: int| 0 <= i < d.len() ==> #[trigger] d[i] != '\\' && d[i] != ':'
    &&& !(d.len() >= 2 && d[0] == '/' && d[1] == '/')
}

/// A path that is relative on every platform: it holds no `:` (so no drive
/// prefix) and starts with neither `/` nor `\\` (so no root, and no
/// verbatim or network prefix).  A `\\` further on is a separator on one
/// platform and part of a name on another; either way the path stays
/// relative.
pub open spec fn portable_relative(p: Seq<char>) -> bool {
    &&& forall|i: int| 0 <= i < p.len() ==> #[trigger] p[i] != ':'
    &&& !(p.len() > 0 && (p[0] == '/' || p[0] == '\\'))
}

/// `p` is a portable directory, `/` at index `k`, and a plain file name.
/// With no `\\`, `:` or leading `//` before the name there is no prefix
/// under which `/` would stop being a separator.
pub open spec fn name_at(p: Seq<char>, k: int) -> bool {
    &&& 0 <= k < p.len()
    &&& p[k] == '/'
    &&& plain_name(p.skip(k + 1))
    &&& portable_dir(p.take(k))
}

/// `p` is a portable directory, `/` at index `k`, and a plain file name; the
/// directory does not end in `/` or in a `.` component, which `Path` would
/// drop from the parent.
pub open spec fn dir_then_name(p: Seq<char>, k: int) -> bool {
    &&& 0 < k
    &&& name_at(p, k)
    &&& p[k - 1] != '/'
    &&& !(k >= 2 && p[k - 1] == '.' && p[k - 2] == '/')
}

/// `r` is `p` joined onto `dir` as `PathBuf::push` joins a relative path
/// without a prefix: `p` itself onto an empty directory, `dir` and `p` run
/// together after a trailing `/`, and otherwise with the platform's
/// separator, `/` or `\\`, between them.
pub open spec fn joined(dir: Seq<char>, p: Seq<char>, r: Seq<char>) -> bool {
    if dir.len() == 0 {
        r == p
    } else if dir.last() == '/' {
        r == dir + p
    } else {
        r == dir + seq!['/'] + p || r == dir + seq!['\\'] + p
    }
}

/// Calls `Path::parent` and gives the parent as a string.  The parent is cut
/// from the front of the path at a separator, so it is a prefix of `p`; an
/// empty path has none, a plain name has the empty path as its parent, and
/// `dir/name` of a portable directory and a plain name has `dir`.  How other
/// paths split depends on the platform and is not stated.
#[verifier::external_body]
pub fn path_parent(p: &str) -> (r: Option<String>)
    ensures
        r matches Some(q) ==> q@.len() <= p@.len() && q@ == p@.take(q@.len() as int),
        p@.len() == 0 ==> r is None,
        plain_name(p@) ==> (r is Some && r->0@.len() == 0),
        forall|k: int| #[trigger] dir_then_name(p@, k) ==> (r is Some && r->0@ == p@.take(k)),
{
    match Path::new(p).parent() {
        Some(q) => Some(q.to_string_lossy().to_string()),
        None => None,
    }
}

/// Calls `Path::has_root`.  A path that starts with `/` has a root on every
/// platform, and a portable relative path has none; which other paths have
/// one depends on the platform and is not stated.
#[verifier::external_body]
pub fn path_has_root(p: &str) -> (r: bool)
    ensures
        p@.len() > 0 && p@[0] == '/' ==> r,
        portable_relative(p@) ==> !r,
{
    Path::new(p).has_root()
}

/// Calls `Path::is_relative`.  A portable relative path is relative on every
/// platform; which other paths are depends on the platform and is not
/// stated.
#[verifier::external_body]
pub fn path_is_relative(p: &str) -> (r: bool)
    ensures
        portable_relative(p@) ==> r,
{
    Path::new(p).is_relative()
}

/// Calls `Path::join` and gives the joined path as a string.  Joining a
/// portable relative path onto a portable directory appends it as
/// `PathBuf::push` documents: onto an empty directory it is the path
/// itself, after a trailing separator it follows directly, and otherwise
/// the platform's separator comes between.  Other joins depend on the
/// platform and are not stated.
#[verifier::external_body]
pub fn path_join(dir: &str, p: &str) -> (r: String)
    ensures
        portable_relative(p@) && portable_dir(dir@) ==> joined(dir@, p@, r@),
{
    Path::new(dir).join(p).to_string_lossy().to_string()
}

/// `r` is `p` resolved against `dir`: a path starting with `/` is kept,
/// and a portable relative path is joined onto a portable directory.
pub open spec fn resolved_against(dir: Seq<char>, p: Seq<char>, r: Seq<char>) -> bool {
    &&& (p.len() > 0 && p[0] == '/' ==> r == p)
    &&& (portable_relative(p) && portable_dir(dir) ==> joined(dir, p, r))
}

/// A path of the configuration resolved against the directory that holds
/// the configuration file: a relative path without a root is joined onto
/// `dir`, any other path is kept as it is.
pub fn resolve_path(dir: &str, p: &str) -> (r: String)
    ensures
        resolved_against(dir@, p@, r@),
{
    if path_is_relative(p) && !path_has_root(p) {
        path_join(dir, p)
    } else {
        p.to_string()
    }
}

/// `d` is the directory of the file at `path`: a prefix of it or `.`; `.`
/// for the empty path, the empty path for a plain file name, and `dir` for
/// `dir/name`.
pub open spec fn dir_of_config(path: Seq<char>, d: Seq<char>) -> bool {
    &&& (d.len() <= path.len() && d == path.take(d.len() as int) || d == "."@)
    &&& (path.len() == 0 ==> d == "."@)
    &&& (plain_name(path) ==> d.len() == 0)
    &&& forall|k: int| #[trigger] dir_then_name(path, k) ==> d == path.take(k)
}

/// The directory that holds the file at `config_path`: its parent, or `.`
/// where it has none.  The parent of a plain file name is the empty path,
/// and that of `dir/name` is `dir`.
pub fn config_dir(config_path: &str) -> (r: String)
    ensures
        dir_of_config(config_path@, r@),
{
    match path_parent(config_path) {
        Some(d) => d,
        None => ".".to_string(),
    }
}

/// Calls `Path::file_name` and gives the last component as a string.  The
/// component is cut from the path, so it occurs in `p`; a plain name is its
/// own file name, and a portable directory, `/` and a plain name has that
/// name (without a verbatim prefix, `/` separates components on every
/// platform).  How other paths split into components depends on the
/// platform and is not stated.
#[verifier::external_body]
pub fn path_file_name(p: &str) -> (r: Option<String>)
    ensures
        r matches Some(n) ==> crate::text::contains_seq(p@, n@),
        plain_name(p@) ==> (r is Some && r->0@ == p@),
        forall|k: int| #[trigger] name_at(p@, k) ==> (r is Some && r->0@ == p@.skip(k + 1)),
{
    match Path::new(p).file_name() {
        Some(n) => Some(n.to_string_lossy().to_string()),
        None => None,
    }
}

} // verus!
