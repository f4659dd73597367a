//! The library's error taxonomy.

use vstd::prelude::*;

verus! {

/// Everything that can go wrong around the archive.
///
/// Only `RemoteUnavailable` is fatal to an update run; the per-id failures
/// (`EntryFetchFailed`, `AssetFetchFailed`) are recorded and skipped, parse
/// and directory failures degrade to absence at load time, and `NotFound`
/// signals a navigation request for an id with no entry.
#[derive(Clone, Copy, Debug, PartialEq, Eq, Structural)]
pub enum Error {
    RemoteUnavailable,
    EntryFetchFailed,
    AssetFetchFailed,
    EntryParseFailed,
    DirectoryUnreadable,
    NotFound,
}

} // verus!
