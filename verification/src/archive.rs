//! The ordered, possibly-sparse collection of entries, indexed by id.

use vstd::prelude::*;
use crate::entry::{Comic, asset_file_name};
use crate::errors::Error;

verus! {

/// The in-memory archive: slot `id` holds the entry with that id, or
/// `None` where the local file is missing or unparsable. Trailing `None`
/// slots are trimmed at construction; internal gaps are permitted.
#[derive(Debug)]
pub struct Xkcd {
    pub comics: Vec<Option<Comic>>,
}

/// `s` with its trailing `None` slots removed.
pub open spec fn trim_trailing(s: Seq<Option<Comic>>) -> Seq<Option<Comic>>
    decreases s.len(),
{
    if s.len() > 0 && s.last() is None {
        trim_trailing(s.drop_last())
    } else {
        s
    }
}

/// Bounds-checked lookup: out-of-range ids and `None` slots collapse to
/// the same absence.
pub open spec fn spec_get(s: Seq<Option<Comic>>, id: int) -> Option<Comic> {
    if 0 <= id < s.len() {
        s[id]
    } else {
        None
    }
}

/// Some slot in `[lo, hi)` holds an entry.
pub open spec fn some_in_range(s: Seq<Option<Comic>>, lo: int, hi: int) -> bool {
    exists|k: int| lo <= k < hi && s[k] is Some
}

/// The nearest index at or after `k` holding an entry; the last index of
/// `s` if there is none (saturating at the upper bound).
pub open spec fn spec_next_present(s: Seq<Option<Comic>>, k: int) -> int
    decreases s.len() - k,
{
    if k >= s.len() - 1 {
        s.len() - 1
    } else if s[k] is Some {
        k
    } else {
        spec_next_present(s, k + 1)
    }
}

/// The nearest index at or before `k` holding an entry; `0` if there is
/// none (saturating at the lower bound).
pub open spec fn spec_previous_present(s: Seq<Option<Comic>>, k: int) -> int
    decreases k,
{
    if k <= 0 {
        0
    } else if s[k] is Some {
        k
    } else {
        spec_previous_present(s, k - 1)
    }
}

/// Forward navigation stays inside `[k, len - 1]` and lands on an entry
/// whenever the scanned direction holds one.
pub proof fn lemma_next_present_in_bounds(s: Seq<Option<Comic>>, k: int)
    requires
        0 <= k < s.len(),
    ensures
        k <= spec_next_present(s, k) < s.len(),
        some_in_range(s, k, s.len() as int) ==> s[spec_next_present(s, k)] is Some,
    decreases s.len() - k,
{
    if k >= s.len() - 1 {
        assert(some_in_range(s, k, s.len() as int) ==> s[k] is Some);
    } else if s[k] is Some {
    } else {
        lemma_next_present_in_bounds(s, k + 1);
        if some_in_range(s, k, s.len() as int) {
            let w = choose|w: int| k <= w < s.len() && s[w] is Some;
            assert(k + 1 <= w < s.len() && s[w] is Some);
            assert(some_in_range(s, k + 1, s.len() as int));
        }
    }
}

/// Backward navigation stays inside `[0, k]` and lands on an entry
/// whenever the scanned direction holds one.
pub proof fn lemma_previous_present_in_bounds(s: Seq<Option<Comic>>, k: int)
    requires
        0 <= k < s.len(),
    ensures
        0 <= spec_previous_present(s, k) <= k,
        some_in_range(s, 0, k + 1) ==> s[spec_previous_present(s, k)] is Some,
    decreases k,
{
    if k <= 0 {
        assert(some_in_range(s, 0, 1) ==> s[0] is Some);
    } else if s[k] is Some {
    } else {
        lemma_previous_present_in_bounds(s, k - 1);
        if some_in_range(s, 0, k + 1) {
            let w = choose|w: int| 0 <= w < k + 1 && s[w] is Some;
            assert(0 <= w < k && s[w] is Some);
            assert(some_in_range(s, 0, k));
        }
    }
}

/// Everything `navigate` hands back for one entry: the entry itself, its
/// sanitized image filename, the nearest present neighbours and the
/// archive's highest id.
#[derive(Debug)]
pub struct Navigation {
    pub id: usize,
    pub comic: Comic,
    pub img_path: String,
    pub prev: usize,
    pub next: usize,
    pub max_id: usize,
}

impl Xkcd {
    /// Builds the archive from the per-id load results, trimming trailing
    /// absent slots; internal gaps stay.
    pub fn new(comics: Vec<Option<Comic>>) -> (x: Xkcd)
        ensures
            x.comics@ == trim_trailing(comics@),
    {
        let mut comics = comics;
        let ghost orig = comics@;
        loop
            invariant
                trim_trailing(orig) == trim_trailing(comics@),
            ensures
                comics@ == trim_trailing(orig),
            decreases comics@.len(),
        {
            let n = comics.len();
            if n == 0 {
                assert(trim_trailing(comics@) == comics@);
                break;
            }
            if comics[n - 1].is_some() {
                assert(trim_trailing(comics@) == comics@);
                break;
            }
            comics.pop();
        }
        Xkcd { comics }
    }

    /// How many slots the archive has (present or not).
    pub fn length(&self) -> (n: usize)
        ensures
            n == self.comics@.len(),
    {
        self.comics.len()
    }

    /// The entry with this id; absence for an out-of-range id and for an
    /// absent slot alike.
    pub fn get(&self, id: usize) -> (r: Option<&Comic>)
        ensures
            match r {
                Some(c) => spec_get(self.comics@, id as int) == Some(*c),
                None => spec_get(self.comics@, id as int) is None,
            },
    {
        if id < self.comics.len() {
            match &self.comics[id] {
                Some(c) => Some(c),
                None => None,
            }
        } else {
            None
        }
    }

    /// The highest id any slot was observed for. The archive must not be
    /// empty: a freshly bootstrapped archive has no latest id.
    pub fn latest_id(&self) -> (r: usize)
        requires
            self.comics@.len() > 0,
        ensures
            r == self.comics@.len() - 1,
    {
        self.comics.len() - 1
    }

    /// Scans forward from `id` (inclusive) to the nearest present entry,
    /// clamping at the archive's last index if none follows.
    pub fn next_present(&self, id: usize) -> (r: usize)
        requires
            id < self.comics@.len(),
        ensures
            r as int == spec_next_present(self.comics@, id as int),
            id <= r < self.comics@.len(),
            some_in_range(self.comics@, id as int, self.comics@.len() as int)
                ==> self.comics@[r as int] is Some,
    {
        proof {
            lemma_next_present_in_bounds(self.comics@, id as int);
        }
        let n = self.comics.len();
        let mut k: usize = id;
        while k < n
            invariant
                id <= k <= n,
                n == self.comics@.len(),
                0 < n,
                id < n,
                k < n ==> spec_next_present(self.comics@, id as int) == spec_next_present(
                    self.comics@,
                    k as int,
                ),
                k == n ==> spec_next_present(self.comics@, id as int) == n - 1,
            decreases n - k,
        {
            if self.comics[k].is_some() {
                return k;
            }
            k = k + 1;
        }
        n - 1
    }

    /// Scans backward from `id` (inclusive) to the nearest present entry,
    /// clamping at index `0` if none precedes.
    pub fn previous_present(&self, id: usize) -> (r: usize)
        requires
            id < self.comics@.len(),
        ensures
            r as int == spec_previous_present(self.comics@, id as int),
            r <= id,
            some_in_range(self.comics@, 0, id + 1) ==> self.comics@[r as int] is Some,
    {
        proof {
            lemma_previous_present_in_bounds(self.comics@, id as int);
        }
        let mut k: usize = id;
        loop
            invariant
                k <= id < self.comics@.len(),
                spec_previous_present(self.comics@, id as int) == spec_previous_present(
                    self.comics@,
                    k as int,
                ),
            decreases k,
        {
            if self.comics[k].is_some() {
                return k;
            }
            if k == 0 {
                proof {
                    lemma_previous_present_in_bounds(self.comics@, id as int);
                    assert(spec_previous_present(self.comics@, 0) == 0);
                }
                return 0;
            }
            k = k - 1;
        }
    }

    /// Resolves one id for browsing: the entry, its image filename, the
    /// nearest present neighbours on both sides and the highest id. An id
    /// with no entry yields `NotFound`, signalling the caller to redirect
    /// to a valid boundary.
    pub fn navigate(&self, id: usize) -> (r: Result<Navigation, Error>)
        ensures
            match r {
                Ok(nav) => {
                    &&& spec_get(self.comics@, id as int) == Some(nav.comic)
                    &&& nav.id == id
                    &&& nav.img_path@ == asset_file_name(nav.comic.img@)
                    &&& nav.max_id == self.comics@.len() - 1
                    &&& nav.next as int == (if id + 1 < self.comics@.len() {
                        spec_next_present(self.comics@, id + 1 as int)
                    } else {
                        id as int
                    })
                    &&& nav.prev as int == (if id >= 1 {
                        spec_previous_present(self.comics@, id - 1 as int)
                    } else {
                        0
                    })
                },
                Err(e) => e == Error::NotFound && spec_get(self.comics@, id as int) is None,
            },
    {
        let comic = match self.get(id) {
            Some(c) => c.clone(),
            None => {
                return Err(Error::NotFound);
            },
        };
        let n = self.comics.len();
        let next = if id + 1 < n {
            self.next_present(id + 1)
        } else {
            id
        };
        let prev = if id >= 1 {
            self.previous_present(id - 1)
        } else {
            0
        };
        let img_path = comic.get_img_path();
        Ok(Navigation { id, comic, img_path, prev, next, max_id: n - 1 })
    }
}

} // verus!
