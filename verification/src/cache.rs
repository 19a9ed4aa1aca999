//! File-status kinds for the hot request path. The TTL cache that holds
//! them is an outside concern; the library fixes what a stat outcome
//! means.

use vstd::prelude::*;

verus! {

/// What a stat found at a path.
#[derive(Debug, Clone, Copy, PartialEq, Eq, Structural)]
pub enum FileSystemStatus {
    NotExists,
    File,
    Directory,
}

/// The status a stat outcome collapses to: a directory or a file by
/// kind, and every failure — not found, permission denied, I/O error
/// alike — as absent.
pub fn status_from_stat(found: bool, is_dir: bool) -> (r: FileSystemStatus)
    ensures
        r == (if !found {
            FileSystemStatus::NotExists
        } else if is_dir {
            FileSystemStatus::Directory
        } else {
            FileSystemStatus::File
        }),
{
    if !found {
        FileSystemStatus::NotExists
    } else if is_dir {
        FileSystemStatus::Directory
    } else {
        FileSystemStatus::File
    }
}

} // verus!
