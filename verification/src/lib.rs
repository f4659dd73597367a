//! An offline mirror of a sequentially numbered comic archive.
//!
//! The library holds the archive's data model and the logic around it:
//! deriving sanitized asset filenames, navigating a sparse archive,
//! planning the striped incremental update, and the tiered, deduplicating
//! text search. I/O (disk, network, HTTP routing) lives outside, in the
//! surrounding application, which hands plain values in and out.

pub mod archive;
pub mod entry;
pub mod errors;
pub mod search;
pub mod sync;
pub mod text;
pub mod updater;
pub mod webfile;
