//! The synchronization wrapper: one exclusive-access guard shared by all
//! read operations on the archive.
//!
//! The request layer goes through this handle instead of touching the
//! archive directly; every operation holds the guard for its full
//! duration, so no caller ever observes a partially read archive. Read
//! concurrency is deliberately forgone for simplicity. The guarded
//! archive never changes within one process lifetime — the updater writes
//! to disk only, and a fresh load is needed to observe its work — so the
//! guard pins the snapshot every operation sees.

use vstd::prelude::*;
use vstd::rwlock::{RwLock, RwLockPredicate};
use crate::archive::{Navigation, Xkcd, spec_get, spec_next_present, spec_previous_present};
use crate::entry::asset_file_name;
use crate::errors::Error;
use crate::search::{ComicSearchResult, MAX_MATCHES, result_ids, search, spec_search_ids};

verus! {

/// The guard's invariant: the guarded value is exactly the snapshot the
/// wrapper was built with.
pub struct ArchivePred {
    pub archive: Xkcd,
}

impl RwLockPredicate<Xkcd> for ArchivePred {
    open spec fn inv(self, v: Xkcd) -> bool {
        v == self.archive
    }
}

/// An archive behind its exclusive guard.
pub struct SharedArchive {
    lock: RwLock<Xkcd, ArchivePred>,
}

impl SharedArchive {
    /// The archive snapshot every operation on this handle works on.
    pub closed spec fn archive(self) -> Xkcd {
        self.lock.pred().archive
    }

    /// Puts a loaded archive behind the guard.
    pub fn new(archive: Xkcd) -> (s: SharedArchive)
        ensures
            s.archive() == archive,
    {
        let ghost pred = ArchivePred { archive: archive };
        SharedArchive { lock: RwLock::new(archive, Ghost(pred)) }
    }

    /// How many slots the guarded archive has, read under the guard.
    pub fn length(&self) -> (n: usize)
        ensures
            n == self.archive().comics@.len(),
    {
        let (x, handle) = self.lock.acquire_write();
        let n = x.length();
        handle.release_write(x);
        n
    }

    /// The guarded archive's highest id, read under the guard.
    pub fn latest_id(&self) -> (r: usize)
        requires
            self.archive().comics@.len() > 0,
        ensures
            r == self.archive().comics@.len() - 1,
    {
        let (x, handle) = self.lock.acquire_write();
        let r = x.latest_id();
        handle.release_write(x);
        r
    }

    /// Resolves one id for browsing under the guard; same outcome as
    /// `Xkcd::navigate` on the guarded snapshot.
    pub fn navigate(&self, id: usize) -> (r: Result<Navigation, Error>)
        ensures
            match r {
                Ok(nav) => {
                    &&& spec_get(self.archive().comics@, id as int) == Some(nav.comic)
                    &&& nav.id == id
                    &&& nav.img_path@ == asset_file_name(nav.comic.img@)
                    &&& nav.max_id == self.archive().comics@.len() - 1
                    &&& nav.next as int == (if id + 1 < self.archive().comics@.len() {
                        spec_next_present(self.archive().comics@, id + 1 as int)
                    } else {
                        id as int
                    })
                    &&& nav.prev as int == (if id >= 1 {
                        spec_previous_present(self.archive().comics@, id - 1 as int)
                    } else {
                        0
                    })
                },
                Err(e) => e == Error::NotFound && spec_get(self.archive().comics@, id as int)
                    is None,
            },
    {
        let (x, handle) = self.lock.acquire_write();
        let r = x.navigate(id);
        handle.release_write(x);
        r
    }

    /// Runs the tiered search under the guard; same results as `search`
    /// on the guarded snapshot.
    pub fn search(&self, q: &str) -> (results: Vec<ComicSearchResult>)
        ensures
            result_ids(results@) == spec_search_ids(self.archive().comics@, q@),
            results@.len() <= MAX_MATCHES,
            forall|j: int|
                0 <= j < results@.len() ==> {
                    let r = #[trigger] results@[j];
                    &&& (r.id as int) < self.archive().comics@.len()
                    &&& self.archive().comics@[r.id as int] == Some(r.comic)
                    &&& r.img_path@ == asset_file_name(r.comic.img@)
                },
    {
        let (x, handle) = self.lock.acquire_write();
        let results = search(&x, q);
        handle.release_write(x);
        results
    }
}

} // verus!
