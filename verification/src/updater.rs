//! Planning for the concurrent incremental update.
//!
//! The updater partitions the id space across a fixed worker pool with
//! striped assignment and decides, per id, whether anything must be
//! fetched. The surrounding application performs the network and disk
//! work; everything it decides with is planned here.

use vstd::prelude::*;
use vstd::arithmetic::div_mod::{
    lemma_fundamental_div_mod,
    lemma_fundamental_div_mod_converse,
    lemma_mod_add_multiples_vanish,
    lemma_mod_bound,
};
use vstd::string::StringExecFns;
use crate::entry::Comic;
use crate::errors::Error;

verus! {

/// `s` starts with the five characters of the plain `http:` scheme.
pub open spec fn insecure_scheme(s: Seq<char>) -> bool {
    s.len() >= 5 && s[0] == 'h' && s[1] == 't' && s[2] == 't' && s[3] == 'p' && s[4] == ':'
}

/// An `http:` scheme rewritten to `https:`; every other URL unchanged.
pub open spec fn normalize_url_spec(s: Seq<char>) -> Seq<char> {
    if insecure_scheme(s) {
        seq!['h', 't', 't', 'p', 's'] + s.subrange(4, s.len() as int)
    } else {
        s
    }
}

/// Rewrites a plain `http:` URL to `https:` before an asset fetch: the
/// remote source is assumed to offer TLS even where metadata advertises
/// plain HTTP. Any other URL passes through unchanged.
pub fn normalize_url(url: &str) -> (r: String)
    ensures
        r@ == normalize_url_spec(url@),
{
    let n = url.unicode_len();
    if n >= 5 && url.get_char(0) == 'h' && url.get_char(1) == 't' && url.get_char(2) == 't'
        && url.get_char(3) == 'p' && url.get_char(4) == ':' {
        let rest = url.substring_char(4, n);
        let mut r = "https".to_owned();
        r.append(rest);
        proof {
            reveal_strlit("https");
            assert(r@ =~= normalize_url_spec(url@));
        }
        r
    } else {
        url.to_owned()
    }
}

/// What one id needs from the remote source.
#[derive(Debug, PartialEq, Eq)]
pub enum FetchPlan {
    /// Entry and asset are both already local: nothing to fetch.
    Skip,
    /// The entry is local but its asset is not: re-fetch the asset only,
    /// from its normalized URL.
    FetchAsset { url: String },
    /// The entry is not local: fetch its metadata at the remote's own
    /// one-based number, then its asset.
    FetchAll { remote_number: usize },
}

/// The per-id update decision: exactly which plan `plan_fetch` may hand
/// out for a given local state.
pub open spec fn plan_ok(p: FetchPlan, id: int, entry: Option<Comic>, asset_present: bool) -> bool {
    match p {
        FetchPlan::Skip => entry is Some && asset_present,
        FetchPlan::FetchAsset { url } => entry is Some && !asset_present && url@
            == normalize_url_spec(entry->0.img@),
        FetchPlan::FetchAll { remote_number } => entry is None && remote_number == id + 1,
    }
}

/// Decides what to fetch for one id: nothing when the entry and its asset
/// are already local, the asset alone when only the entry is, and entry
/// plus asset otherwise. Local ids are zero-based, the remote numbering is
/// one-based.
pub fn plan_fetch(id: usize, entry: Option<&Comic>, asset_present: bool) -> (p: FetchPlan)
    requires
        id < usize::MAX,
    ensures
        plan_ok(
            p,
            id as int,
            match entry {
                Some(c) => Some(*c),
                None => None,
            },
            asset_present,
        ),
{
    match entry {
        Some(c) => {
            if asset_present {
                FetchPlan::Skip
            } else {
                FetchPlan::FetchAsset { url: normalize_url(c.img.as_str()) }
            }
        },
        None => FetchPlan::FetchAll { remote_number: id + 1 },
    }
}

/// Re-running the updater with no remote changes performs zero fetches:
/// over an id whose entry and asset are already present, every plan the
/// contract of `plan_fetch` admits is `Skip`.
pub proof fn lemma_update_idempotent(p: FetchPlan, id: int, c: Comic)
    requires
        plan_ok(p, id, Some(c), true),
    ensures
        p is Skip,
{
}

/// The ids worker `w` of a pool with stride `k` owns below the exclusive
/// bound `n`: `w`, `w + k`, `w + 2k`, ..., in increasing order.
pub open spec fn stripe_seq(w: int, k: int, n: int) -> Seq<int>
    decreases n - w,
{
    if k <= 0 || w >= n || w < 0 {
        Seq::empty()
    } else if w + k >= n {
        seq![w]
    } else {
        seq![w] + stripe_seq(w + k, k, n)
    }
}

/// One step of a stripe: the worker's lowest remaining id, then the rest.
proof fn lemma_stripe_seq_unfold(w: int, k: int, n: int)
    requires
        0 < k,
        0 <= w < n,
    ensures
        stripe_seq(w, k, n) == seq![w] + stripe_seq(w + k, k, n),
{
    if w + k >= n {
        assert(stripe_seq(w + k, k, n) =~= Seq::<int>::empty());
        assert(stripe_seq(w, k, n) =~= seq![w] + Seq::<int>::empty());
    }
}

/// A stripe holds exactly the ids below the bound that are congruent to
/// the worker's index modulo the stride.
pub proof fn lemma_stripe_seq_contains(w: int, k: int, n: int, id: int)
    requires
        0 < k,
        0 <= w,
    ensures
        stripe_seq(w, k, n).contains(id) <==> (w <= id < n && (id - w) % k == 0),
    decreases n - w,
{
    if w >= n {
        assert(!stripe_seq(w, k, n).contains(id));
    } else {
        if w + k < n {
            lemma_stripe_seq_contains(w + k, k, n, id);
        } else {
            assert(stripe_seq(w + k, k, n) =~= Seq::<int>::empty());
            assert(!stripe_seq(w + k, k, n).contains(id));
        }
        let s = stripe_seq(w, k, n);
        let rest = stripe_seq(w + k, k, n);
        lemma_stripe_seq_unfold(w, k, n);
        assert(s == seq![w] + rest);
        if s.contains(id) {
            let i = choose|i: int| 0 <= i < s.len() && s[i] == id;
            if i == 0 {
                assert(id == w);
                assert((id - w) % k == 0) by {
                    lemma_fundamental_div_mod_converse(0int, k, 0, 0);
                }
            } else {
                assert(rest[i - 1] == id);
                assert(rest.contains(id));
                assert((id - w - k) % k == 0);
                assert((id - w) % k == (k + (id - w - k)) % k);
                lemma_mod_add_multiples_vanish(id - w - k, k);
            }
        }
        if w <= id < n && (id - w) % k == 0 {
            if id == w {
                assert(s[0] == id);
                assert(s.contains(id));
            } else {
                let d = id - w;
                lemma_fundamental_div_mod(d, k);
                let q = d / k;
                assert(d == k * q);
                assert(d > 0);
                assert(q >= 1) by (nonlinear_arith)
                    requires
                        d == k * q,
                        d > 0,
                        k > 0,
                {
                }
                assert(d >= k) by (nonlinear_arith)
                    requires
                        d == k * q,
                        q >= 1,
                        k > 0,
                {
                }
                assert((id - w - k) % k == 0) by {
                    lemma_mod_add_multiples_vanish(id - w - k, k);
                }
                assert(rest.contains(id));
                let j = choose|j: int| 0 <= j < rest.len() && rest[j] == id;
                assert(s[j + 1] == id);
                assert(s.contains(id));
            }
        }
    }
}

/// Striped partition coverage: every id below the bound lies in the
/// stripe of worker `id % k`, and in no other worker's stripe. Together
/// the stripes of workers `0 .. k` cover `[0, n)` exactly, with no
/// overlap and no omission.
pub proof fn lemma_stripes_partition(k: int, n: int, id: int)
    requires
        0 < k,
        0 <= id < n,
    ensures
        stripe_seq(id % k, k, n).contains(id),
        forall|w: int|
            0 <= w < k && #[trigger] stripe_seq(w, k, n).contains(id) ==> w == id % k,
{
    lemma_mod_bound(id, k);
    lemma_fundamental_div_mod(id, k);
    let r = id % k;
    let q = id / k;
    assert(id == k * q + r);
    assert(id - r == q * k + 0) by (nonlinear_arith)
        requires
            id == k * q + r,
    {
    }
    lemma_fundamental_div_mod_converse(id - r, k, q, 0);
    assert((id - r) % k == 0);
    lemma_stripe_seq_contains(r, k, n, id);
    assert forall|w: int| 0 <= w < k && #[trigger] stripe_seq(w, k, n).contains(id) implies w == id
        % k by {
        lemma_stripe_seq_contains(w, k, n, id);
        assert((id - w) % k == 0);
        lemma_fundamental_div_mod(id - w, k);
        let q = (id - w) / k;
        assert(id == q * k + w) by (nonlinear_arith)
            requires
                id - w == k * q,
        {
        }
        lemma_fundamental_div_mod_converse(id, k, q, w);
    }
}

/// Lists the ids worker `worker` owns below the exclusive bound `latest`:
/// the worker's stripe, in the order the worker processes it.
pub fn stripe_ids(worker: usize, worker_count: usize, latest: usize) -> (ids: Vec<usize>)
    requires
        worker_count > 0,
    ensures
        ids@.map_values(|v: usize| v as int) == stripe_seq(
            worker as int,
            worker_count as int,
            latest as int,
        ),
{
    let ghost k = worker_count as int;
    let ghost n = latest as int;
    let mut ids: Vec<usize> = Vec::new();
    let mut id: usize = worker;
    if id >= latest {
        assert(ids@.map_values(|v: usize| v as int) =~= Seq::<int>::empty());
        assert(stripe_seq(worker as int, k, n) =~= Seq::<int>::empty());
        return ids;
    }
    proof {
        assert(ids@.map_values(|v: usize| v as int) + stripe_seq(worker as int, k, n)
            =~= stripe_seq(worker as int, k, n));
    }
    loop
        invariant_except_break
            stripe_seq(worker as int, k, n) == ids@.map_values(|v: usize| v as int) + stripe_seq(
                id as int,
                k,
                n,
            ),
        invariant
            worker_count == k,
            latest == n,
            k > 0,
            id < latest,
        ensures
            ids@.map_values(|v: usize| v as int) == stripe_seq(worker as int, k, n),
        decreases n - id,
    {
        let ghost pre = ids@.map_values(|v: usize| v as int);
        ids.push(id);
        proof {
            assert(ids@.map_values(|v: usize| v as int) =~= pre.push(id as int));
            lemma_stripe_seq_unfold(id as int, k, n);
            assert(pre + stripe_seq(id as int, k, n) =~= pre.push(id as int) + stripe_seq(
                id as int + k,
                k,
                n,
            ));
        }
        if worker_count < latest - id {
            id = id + worker_count;
        } else {
            proof {
                assert(stripe_seq(id as int + k, k, n) =~= Seq::<int>::empty());
                assert(pre.push(id as int) + Seq::<int>::empty() =~= pre.push(id as int));
            }
            break;
        }
    }
    ids
}

/// What one update run reports back: how many ids its workers processed
/// and which ids failed, with the cause. Per-id failures are recorded
/// here, never propagated: a transient failure on one id must not block
/// progress on the rest of the archive.
#[derive(Debug)]
pub struct UpdateReport {
    pub processed: usize,
    pub failures: Vec<(usize, Error)>,
}

impl UpdateReport {
    /// An empty report: nothing processed, nothing failed.
    pub fn new() -> (r: UpdateReport)
        ensures
            r.processed == 0,
            r.failures@ == Seq::<(usize, Error)>::empty(),
    {
        UpdateReport { processed: 0, failures: Vec::new() }
    }

    /// Counts one id as processed without a failure.
    pub fn record_success(&mut self)
        requires
            old(self).processed < usize::MAX,
        ensures
            final(self).processed == old(self).processed + 1,
            final(self).failures == old(self).failures,
    {
        self.processed = self.processed + 1;
    }

    /// Counts one id as processed and records why it failed.
    pub fn record_failure(&mut self, id: usize, cause: Error)
        requires
            old(self).processed < usize::MAX,
        ensures
            final(self).processed == old(self).processed + 1,
            final(self).failures@ == old(self).failures@.push((id, cause)),
    {
        self.processed = self.processed + 1;
        self.failures.push((id, cause));
    }

    /// Folds another worker's report into this one: the processed counts
    /// add up and the failures follow in order.
    pub fn merge(&mut self, other: &UpdateReport)
        requires
            old(self).processed + other.processed <= usize::MAX,
        ensures
            final(self).processed == old(self).processed + other.processed,
            final(self).failures@ == old(self).failures@ + other.failures@,
    {
        self.processed = self.processed + other.processed;
        let mut i: usize = 0;
        while i < other.failures.len()
            invariant
                i <= other.failures@.len(),
                self.failures@ == old(self).failures@ + other.failures@.subrange(0, i as int),
                self.processed == old(self).processed + other.processed,
            decreases other.failures@.len() - i,
        {
            self.failures.push(other.failures[i]);
            proof {
                assert(old(self).failures@ + other.failures@.subrange(0, i as int + 1)
                    =~= (old(self).failures@ + other.failures@.subrange(0, i as int)).push(
                    other.failures@[i as int],
                ));
            }
            i = i + 1;
        }
        proof {
            assert(other.failures@.subrange(0, other.failures@.len() as int) =~= other.failures@);
        }
    }
}

} // verus!
