use vstd::prelude::*;
use vstd::string::StringExecFns;

verus! {

/// The last component of a path, as `Path::file_name` gives it, if there is one.
pub uninterp spec fn file_name_of(path: Seq<char>) -> Option<Seq<char>>;

/// Relies on `Path::file_name` and `OsStr::to_string_lossy`: the path's last
/// component, where it has one.
#[verifier::external_body]
fn path_file_name(path: &str) -> (r: Option<String>)
    ensures
        match r {
            None => file_name_of(path@) is None,
            Some(n) => file_name_of(path@) == Some(n@),
        },
{
    match std::path::Path::new(path).file_name() {
        Some(n) => Some(n.to_string_lossy().into_owned()),
        None => None,
    }
}

/// The display name of a local file: its path's last component.
pub fn file_name_from_path(path: &str) -> (r: Result<String, String>)
    ensures
        match file_name_of(path@) {
            None => r is Err && r->Err_0@ == "Failed to get file name"@,
            Some(n) => r is Ok && r->Ok_0@ == n,
        },
{
    match path_file_name(path) {
        None => Err(String::from_str("Failed to get file name")),
        Some(n) => Ok(n),
    }
}

} // verus!
