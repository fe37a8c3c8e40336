//! What a file server decides of a request: the file it names below the
//! served directory, and the status that the outcome of reading it gets.
use vstd::prelude::*;
use crate::text::{chars_of, run_end, scan, string_of, CharClass};

verus! {

/// The file that a request path names, as a path below the served directory:
/// the path without its leading slash and without the query that a `?` starts.
/// A path that does not begin with a slash names none.
pub open spec fn local_path(request_path: Seq<char>) -> Option<Seq<char>> {
    if request_path.len() > 0 && request_path[0] == '/' {
        Some(request_path.subrange(1, run_end(request_path, 1, CharClass::Except('?'))))
    } else {
        None
    }
}

/// The file that a request path names, as a path below the served directory.
pub fn local_path_for_request(request_path: &str) -> (path: Option<String>)
    ensures
        match path {
            Some(path) => local_path(request_path@) == Some(path@),
            None => local_path(request_path@) is None,
        },
{
    let chars = chars_of(request_path);
    if chars.len() == 0 || chars[0] != '/' {
        return None;
    }
    let end = scan(chars.as_slice(), 1, CharClass::Except('?'));
    Some(string_of(chars.as_slice(), 1, end))
}

/// How reading the requested file ended.
#[derive(Debug, Clone, Copy, PartialEq, Eq, Structural)]
pub enum FileOutcome {
    /// The file was read.
    Read,
    /// There is no such file.
    NotFound,
    /// The file could not be opened, or not be read.
    Failed,
}

/// The status of the response: 200 with the file, 404 where there is none,
/// 500 for every other failure.
pub open spec fn status_of(outcome: FileOutcome) -> u16 {
    match outcome {
        FileOutcome::Read => 200,
        FileOutcome::NotFound => 404,
        FileOutcome::Failed => 500,
    }
}

/// The status of the response to a request whose file was read with the given outcome.
pub fn status_for(outcome: FileOutcome) -> (status: u16)
    ensures
        status == status_of(outcome),
{
    match outcome {
        FileOutcome::Read => 200,
        FileOutcome::NotFound => 404,
        FileOutcome::Failed => 500,
    }
}

} // verus!
