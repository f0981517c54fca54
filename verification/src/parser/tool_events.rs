use vstd::prelude::*;

use crate::text::copy_str;

verus! {

/// The file stem of a path (the final component without its extension), under the
/// path rules of the platform the library is built for.
pub uninterp spec fn path_file_stem(path: Seq<char>) -> Option<Seq<char>>;

/// The parent of a path, under the path rules of the platform the library is built for.
pub uninterp spec fn path_parent(path: Seq<char>) -> Option<Seq<char>>;

/// `base` joined with `name`, under the path rules of the platform the library is
/// built for.
pub uninterp spec fn path_join(base: Seq<char>, name: Seq<char>) -> Seq<char>;

/// `std::path::Path::file_stem`, read as text. The contract only names the result: the
/// stem is a function of the path; which part of the path it is is left to std.
#[verifier::external_body]
fn file_stem_of(path: &str) -> (r: Option<String>)
    ensures
        match r {
            Some(s) => path_file_stem(path@) == Some(s@),
            None => path_file_stem(path@) is None,
        },
{
    match std::path::Path::new(path).file_stem() {
        Some(s) => Some(s.to_string_lossy().into_owned()),
        None => None,
    }
}

/// `std::path::Path::parent`, read as text. The contract only names the result.
#[verifier::external_body]
fn parent_of_path(path: &str) -> (r: Option<String>)
    ensures
        match r {
            Some(s) => path_parent(path@) == Some(s@),
            None => path_parent(path@) is None,
        },
{
    match std::path::Path::new(path).parent() {
        Some(p) => Some(p.to_string_lossy().into_owned()),
        None => None,
    }
}

/// `std::path::Path::join`, read as text. The contract only names the result.
#[verifier::external_body]
fn join_path(base: &str, name: &str) -> (r: String)
    ensures
        r@ == path_join(base@, name@),
{
    std::path::Path::new(base).join(name).to_string_lossy().into_owned()
}

/// The suffix that turns a session file's stem into its sidecar's file name.
pub open spec fn sidecar_suffix() -> Seq<char> {
    ".tool-events.jsonl"@
}

/// The sidecar's file name: the session file's stem (empty when it has none) followed by
/// `.tool-events.jsonl`.
pub open spec fn sidecar_name(stem: Option<Seq<char>>) -> Seq<char> {
    match stem {
        Some(s) => s + sidecar_suffix(),
        None => sidecar_suffix(),
    }
}

/// The directory of the sidecar: the session file's parent, or `.` when it has none.
pub open spec fn sidecar_dir(parent: Option<Seq<char>>) -> Seq<char> {
    match parent {
        Some(p) => p,
        None => "."@,
    }
}

/// The sidecar's file name for a session file with the given stem.
pub fn sidecar_file_name(stem: Option<&str>) -> (r: String)
    ensures
        r@ == sidecar_name(match stem {
            Some(s) => Some(s@),
            None => None,
        }),
{
    let mut r = match stem {
        Some(s) => copy_str(s),
        None => String::new(),
    };
    r.append(".tool-events.jsonl");
    r
}

/// The directory of the sidecar for a session file with the given parent.
pub fn sidecar_dir_of(parent: Option<&str>) -> (r: String)
    ensures
        r@ == sidecar_dir(match parent {
            Some(p) => Some(p@),
            None => None,
        }),
{
    match parent {
        Some(p) => copy_str(p),
        None => ".".to_string(),
    }
}

/// The path of the tool-events sidecar of a session file: `foo.jsonl` becomes
/// `foo.tool-events.jsonl`, in the same directory.
pub fn sidecar_path(session_path: &str) -> (r: String)
    ensures
        r@ == path_join(
            sidecar_dir(path_parent(session_path@)),
            sidecar_name(path_file_stem(session_path@)),
        ),
{
    let stem = file_stem_of(session_path);
    let name = match &stem {
        Some(s) => sidecar_file_name(Some(s.as_str())),
        None => sidecar_file_name(None),
    };
    let parent = parent_of_path(session_path);
    let dir = match &parent {
        Some(p) => sidecar_dir_of(Some(p.as_str())),
        None => sidecar_dir_of(None),
    };
    join_path(dir.as_str(), name.as_str())
}

} // verus!
