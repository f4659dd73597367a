//! The tiered, deduplicating in-memory text search over the archive.
//!
//! Four match tiers run strictly in order — whole word in the title,
//! whole word in the body, substring in the title, substring in the body —
//! each scanning the archive ascending by id, skipping entries already
//! placed, and stopping the instant the result cap is reached.

use vstd::prelude::*;
use crate::archive::Xkcd;
use crate::entry::{Comic, asset_file_name};
use crate::text::{is_substring, word_match, contains_substring, word_boundary_match};

verus! {

/// The maximum number of matches one search request may return.
pub const MAX_MATCHES: usize = 150;

/// The bit-per-id set of entries already placed in the results.
#[verifier::external_type_specification]
#[verifier::external_body]
#[verifier::reject_recursive_types(B)]
pub struct ExBitVec<B>(bit_vec::BitVec<B>);

/// What a `bit_vec::BitVec` holds: one bit per index, in order.
pub uninterp spec fn bits_of(b: bit_vec::BitVec) -> Seq<bool>;

/// Relies on `bit_vec::BitVec::from_elem`: a bit vector of `len` copies
/// of `bit`.
#[verifier::external_body]
fn bits_new(len: usize, bit: bool) -> (b: bit_vec::BitVec)
    ensures
        bits_of(b) == Seq::new(len as nat, |i: int| bit),
{
    bit_vec::BitVec::from_elem(len, bit)
}

/// Relies on `bit_vec::BitVec::get`: the bit at `i`, `None` only out of
/// range.
#[verifier::external_body]
fn bits_get(b: &bit_vec::BitVec, i: usize) -> (r: bool)
    requires
        i < bits_of(*b).len(),
    ensures
        r == bits_of(*b)[i as int],
{
    b.get(i).unwrap_or(false)
}

/// Relies on `bit_vec::BitVec::set`: replaces the bit at `i` and nothing
/// else (it panics out of range, which the precondition rules out).
#[verifier::external_body]
fn bits_set(b: &mut bit_vec::BitVec, i: usize, bit: bool)
    requires
        i < bits_of(*old(b)).len(),
    ensures
        bits_of(*final(b)) == bits_of(*old(b)).update(i as int, bit),
{
    b.set(i, bit)
}

/// One ranked pass of the search: which field is scanned and whether the
/// query must match as a whole word or merely as a substring.
#[derive(Clone, Copy, Debug, PartialEq, Eq, Structural)]
pub enum MatchTier {
    WordTitle,
    WordBody,
    SubstringTitle,
    SubstringBody,
}

/// Whether one entry matches the query under one tier's criterion.
pub open spec fn tier_matches(tier: MatchTier, q: Seq<char>, c: Comic) -> bool {
    match tier {
        MatchTier::WordTitle => word_match(q, c.title@),
        MatchTier::WordBody => word_match(q, c.alt@) || word_match(q, c.transcript@),
        MatchTier::SubstringTitle => is_substring(q, c.title@),
        MatchTier::SubstringBody => is_substring(q, c.alt@) || is_substring(q, c.transcript@),
    }
}

/// Runs `tier_matches` for one entry.
pub fn tier_match(tier: MatchTier, q: &str, c: &Comic) -> (r: bool)
    ensures
        r == tier_matches(tier, q@, *c),
{
    match tier {
        MatchTier::WordTitle => word_boundary_match(q, c.title.as_str()),
        MatchTier::WordBody => word_boundary_match(q, c.alt.as_str()) || word_boundary_match(
            q,
            c.transcript.as_str(),
        ),
        MatchTier::SubstringTitle => contains_substring(c.title.as_str(), q),
        MatchTier::SubstringBody => contains_substring(c.alt.as_str(), q) || contains_substring(
            c.transcript.as_str(),
            q,
        ),
    }
}

/// The ids one tier appends to the accumulated results, scanning the
/// archive from slot `i` upward: present entries matching the tier that
/// are not yet accumulated, in ascending id order, stopping the instant
/// the cap is reached.
pub open spec fn tier_step(
    s: Seq<Option<Comic>>,
    q: Seq<char>,
    tier: MatchTier,
    i: int,
    acc: Seq<int>,
) -> Seq<int>
    decreases s.len() - i,
{
    if i < 0 || i >= s.len() || acc.len() >= MAX_MATCHES {
        acc
    } else {
        let acc2 = if s[i] is Some && !acc.contains(i) && tier_matches(tier, q, s[i]->0) {
            acc.push(i)
        } else {
            acc
        };
        tier_step(s, q, tier, i + 1, acc2)
    }
}

/// The ids a whole search yields: the four tiers folded in their fixed
/// order over an initially empty accumulator.
pub open spec fn spec_search_ids(s: Seq<Option<Comic>>, q: Seq<char>) -> Seq<int> {
    let t1 = tier_step(s, q, MatchTier::WordTitle, 0, Seq::empty());
    let t2 = tier_step(s, q, MatchTier::WordBody, 0, t1);
    let t3 = tier_step(s, q, MatchTier::SubstringTitle, 0, t2);
    tier_step(s, q, MatchTier::SubstringBody, 0, t3)
}

/// One search hit: the entry, its id and its sanitized image filename.
#[derive(Debug)]
pub struct ComicSearchResult {
    pub id: usize,
    pub comic: Comic,
    pub img_path: String,
}

/// The ids of a result sequence, in order.
pub open spec fn result_ids(rs: Seq<ComicSearchResult>) -> Seq<int> {
    rs.map_values(|r: ComicSearchResult| r.id as int)
}

/// Transient per-request search state: the results so far and the
/// bit-per-id record of entries already placed, which keeps one entry
/// from appearing in more than one tier.
pub struct SearchState {
    pub results: Vec<ComicSearchResult>,
    pub stored_comics: bit_vec::BitVec,
}

impl SearchState {
    /// The accumulated ids, in result order.
    pub open spec fn ids(self) -> Seq<int> {
        result_ids(self.results@)
    }

    /// The accumulator is consistent with archive slots `s`: every result
    /// is a present entry with its derived image filename, the cap is
    /// respected, and a bit is set exactly for the accumulated ids.
    pub open spec fn wf(self, s: Seq<Option<Comic>>) -> bool {
        &&& bits_of(self.stored_comics).len() == s.len()
        &&& self.results@.len() <= MAX_MATCHES
        &&& forall|j: int|
            0 <= j < self.results@.len() ==> {
                let r = #[trigger] self.results@[j];
                &&& (r.id as int) < s.len()
                &&& s[r.id as int] == Some(r.comic)
                &&& r.img_path@ == asset_file_name(r.comic.img@)
            }
        &&& forall|m: int|
            0 <= m < s.len() ==> (#[trigger] bits_of(self.stored_comics)[m] <==> self.ids().contains(
                m,
            ))
    }

    /// A fresh accumulator for one search over `xkcd`.
    pub fn new(xkcd: &Xkcd) -> (st: SearchState)
        ensures
            st.wf(xkcd.comics@),
            st.ids() == Seq::<int>::empty(),
    {
        let st = SearchState {
            results: Vec::new(),
            stored_comics: bits_new(xkcd.comics.len(), false),
        };
        proof {
            assert(st.ids() =~= Seq::<int>::empty());
        }
        st
    }

    /// Runs one tier over the whole archive: appends every present,
    /// not-yet-placed entry matching the tier, ascending by id, and stops
    /// the instant the cap is reached.
    pub fn filter_comics(&mut self, xkcd: &Xkcd, q: &str, tier: MatchTier)
        requires
            old(self).wf(xkcd.comics@),
        ensures
            final(self).wf(xkcd.comics@),
            final(self).ids() == tier_step(xkcd.comics@, q@, tier, 0, old(self).ids()),
    {
        let ghost s = xkcd.comics@;
        let ghost init = self.ids();
        let n = xkcd.comics.len();
        let mut i: usize = 0;
        loop
            invariant
                self.wf(s),
                s == xkcd.comics@,
                n == s.len(),
                i <= n,
                tier_step(s, q@, tier, 0, init) == tier_step(s, q@, tier, i as int, self.ids()),
            ensures
                self.wf(s),
                s == xkcd.comics@,
                tier_step(s, q@, tier, 0, init) == self.ids(),
            decreases n - i,
        {
            if i >= n {
                assert(tier_step(s, q@, tier, i as int, self.ids()) == self.ids());
                break;
            }
            if self.results.len() >= MAX_MATCHES {
                assert(tier_step(s, q@, tier, i as int, self.ids()) == self.ids());
                break;
            }
            let ghost pre = self.ids();
            match &xkcd.comics[i] {
                Some(c) => {
                    let seen = bits_get(&self.stored_comics, i);
                    assert(seen <==> pre.contains(i as int));
                    if !seen && tier_match(tier, q, c) {
                        let ghost pre_bits = bits_of(self.stored_comics);
                        let res = ComicSearchResult {
                            id: i,
                            comic: c.clone(),
                            img_path: c.get_img_path(),
                        };
                        self.results.push(res);
                        bits_set(&mut self.stored_comics, i, true);
                        proof {
                            assert(self.ids() =~= pre.push(i as int));
                            lemma_contains_after_push(pre, i as int);
                            assert forall|m: int| 0 <= m < s.len() implies (#[trigger] bits_of(
                                self.stored_comics,
                            )[m] <==> self.ids().contains(m)) by {
                                if m == i as int {
                                    assert(bits_of(self.stored_comics)[m]);
                                    assert(self.ids().contains(m));
                                } else {
                                    assert(bits_of(self.stored_comics)[m] == pre_bits[m]);
                                    assert(pre_bits[m] <==> pre.contains(m));
                                }
                            }
                        }
                    }
                },
                None => {
                },
            }
            proof {
                let acc2 = if s[i as int] is Some && !pre.contains(i as int) && tier_matches(
                    tier,
                    q@,
                    s[i as int]->0,
                ) {
                    pre.push(i as int)
                } else {
                    pre
                };
                assert(self.ids() == acc2);
                assert(tier_step(s, q@, tier, i as int, pre) == tier_step(
                    s,
                    q@,
                    tier,
                    i + 1 as int,
                    acc2,
                ));
            }
            i = i + 1;
        }
    }
}

/// Pushing an id onto a sequence makes exactly that id newly contained.
proof fn lemma_contains_after_push(acc: Seq<int>, v: int)
    ensures
        forall|m: int| #[trigger] acc.push(v).contains(m) <==> (acc.contains(m) || m == v),
{
    assert forall|m: int| #[trigger] acc.push(v).contains(m) implies (acc.contains(m) || m == v) by {
        let idx = choose|idx: int| 0 <= idx < acc.push(v).len() && acc.push(v)[idx] == m;
        if idx < acc.len() {
            assert(acc[idx] == m);
        }
    }
    assert forall|m: int| (acc.contains(m) || m == v) implies #[trigger] acc.push(v).contains(
        m,
    ) by {
        if m == v {
            assert(acc.push(v)[acc.len() as int] == m);
        } else {
            let idx = choose|idx: int| 0 <= idx < acc.len() && acc[idx] == m;
            assert(acc.push(v)[idx] == m);
        }
    }
}

/// Runs the full tiered search over the archive: whole-word title hits
/// first, then whole-word body hits, then title substrings, then body
/// substrings, each tier ascending by id, every entry at most once, at
/// most `MAX_MATCHES` results in all.
pub fn search(xkcd: &Xkcd, q: &str) -> (results: Vec<ComicSearchResult>)
    ensures
        result_ids(results@) == spec_search_ids(xkcd.comics@, q@),
        results@.len() <= MAX_MATCHES,
        forall|j: int|
            0 <= j < results@.len() ==> {
                let r = #[trigger] results@[j];
                &&& (r.id as int) < xkcd.comics@.len()
                &&& xkcd.comics@[r.id as int] == Some(r.comic)
                &&& r.img_path@ == asset_file_name(r.comic.img@)
            },
{
    let mut st = SearchState::new(xkcd);
    st.filter_comics(xkcd, q, MatchTier::WordTitle);
    st.filter_comics(xkcd, q, MatchTier::WordBody);
    st.filter_comics(xkcd, q, MatchTier::SubstringTitle);
    st.filter_comics(xkcd, q, MatchTier::SubstringBody);
    st.results
}

/// Search determinism: identical archive and identical query always
/// yield identical ordered results — the result ids are a function of
/// the archive's slots and the query alone.
pub proof fn lemma_search_deterministic(
    s: Seq<Option<Comic>>,
    q: Seq<char>,
    r1: Seq<int>,
    r2: Seq<int>,
)
    requires
        r1 == spec_search_ids(s, q),
        r2 == spec_search_ids(s, q),
    ensures
        r1 == r2,
{
}

/// One tier only appends: the accumulated results are kept, in order and
/// at their positions, and everything appended is a present entry at or
/// after the scan start that matches the tier and was not accumulated
/// before, with the appended ids strictly ascending.
pub proof fn lemma_tier_step_appends(
    s: Seq<Option<Comic>>,
    q: Seq<char>,
    tier: MatchTier,
    i: int,
    acc: Seq<int>,
)
    ensures
        ({
            let out = tier_step(s, q, tier, i, acc);
            &&& out.len() >= acc.len()
            &&& forall|m: int| 0 <= m < acc.len() ==> out[m] == acc[m]
            &&& forall|m: int|
                acc.len() <= m < out.len() ==> {
                    &&& i <= #[trigger] out[m] < s.len()
                    &&& s[out[m]] is Some
                    &&& tier_matches(tier, q, s[out[m]]->0)
                    &&& !acc.contains(out[m])
                }
            &&& forall|m1: int, m2: int|
                acc.len() <= m1 < m2 < out.len() ==> #[trigger] out[m1] < #[trigger] out[m2]
        }),
    decreases s.len() - i,
{
    if i < 0 || i >= s.len() || acc.len() >= MAX_MATCHES {
    } else if s[i] is Some && !acc.contains(i) && tier_matches(tier, q, s[i]->0) {
        let acc2 = acc.push(i);
        lemma_tier_step_appends(s, q, tier, i + 1, acc2);
        lemma_contains_after_push(acc, i);
        let out = tier_step(s, q, tier, i, acc);
        assert(out == tier_step(s, q, tier, i + 1, acc2));
        assert(out[acc.len() as int] == i);
        assert forall|m: int| acc.len() <= m < out.len() implies {
            &&& i <= #[trigger] out[m] < s.len()
            &&& s[out[m]] is Some
            &&& tier_matches(tier, q, s[out[m]]->0)
            &&& !acc.contains(out[m])
        } by {
            if m == acc.len() as int {
                assert(out[m] == i);
            } else {
                assert(acc2.len() <= m < out.len());
                assert(!acc2.contains(out[m]));
            }
        }
    } else {
        lemma_tier_step_appends(s, q, tier, i + 1, acc);
    }
}

/// One tier never grows the results past the cap.
pub proof fn lemma_tier_step_cap(
    s: Seq<Option<Comic>>,
    q: Seq<char>,
    tier: MatchTier,
    i: int,
    acc: Seq<int>,
)
    requires
        acc.len() <= MAX_MATCHES,
    ensures
        tier_step(s, q, tier, i, acc).len() <= MAX_MATCHES,
    decreases s.len() - i,
{
    if i < 0 || i >= s.len() || acc.len() >= MAX_MATCHES {
    } else if s[i] is Some && !acc.contains(i) && tier_matches(tier, q, s[i]->0) {
        lemma_tier_step_cap(s, q, tier, i + 1, acc.push(i));
    } else {
        lemma_tier_step_cap(s, q, tier, i + 1, acc);
    }
}

/// Cap enforcement: whatever the archive and the query, a search yields
/// at most `MAX_MATCHES` results.
pub proof fn lemma_search_capped(s: Seq<Option<Comic>>, q: Seq<char>)
    ensures
        spec_search_ids(s, q).len() <= MAX_MATCHES,
{
    let t0 = Seq::<int>::empty();
    let t1 = tier_step(s, q, MatchTier::WordTitle, 0, t0);
    let t2 = tier_step(s, q, MatchTier::WordBody, 0, t1);
    let t3 = tier_step(s, q, MatchTier::SubstringTitle, 0, t2);
    lemma_tier_step_cap(s, q, MatchTier::WordTitle, 0, t0);
    lemma_tier_step_cap(s, q, MatchTier::WordBody, 0, t1);
    lemma_tier_step_cap(s, q, MatchTier::SubstringTitle, 0, t2);
    lemma_tier_step_cap(s, q, MatchTier::SubstringBody, 0, t3);
}

/// As long as the cap was not reached, one tier misses nothing: every
/// present entry at or after the scan start that matches the tier ends up
/// accumulated.
pub proof fn lemma_tier_step_complete(
    s: Seq<Option<Comic>>,
    q: Seq<char>,
    tier: MatchTier,
    i: int,
    acc: Seq<int>,
    id: int,
)
    requires
        tier_step(s, q, tier, i, acc).len() < MAX_MATCHES,
        0 <= i <= id < s.len(),
        s[id] is Some,
        tier_matches(tier, q, s[id]->0),
    ensures
        tier_step(s, q, tier, i, acc).contains(id),
    decreases s.len() - i,
{
    let out = tier_step(s, q, tier, i, acc);
    lemma_tier_step_appends(s, q, tier, i, acc);
    assert(acc.len() < MAX_MATCHES);
    assert(0 <= i < s.len());
    let acc2 = if s[i] is Some && !acc.contains(i) && tier_matches(tier, q, s[i]->0) {
        acc.push(i)
    } else {
        acc
    };
    assert(out == tier_step(s, q, tier, i + 1, acc2));
    if id == i {
        if acc.contains(i) {
            let p = choose|p: int| 0 <= p < acc.len() && acc[p] == i;
            assert(acc2[p] == i);
        } else {
            assert(acc2[acc.len() as int] == i);
        }
        assert(acc2.contains(id));
        lemma_tier_step_appends(s, q, tier, i + 1, acc2);
        let p = choose|p: int| 0 <= p < acc2.len() && acc2[p] == id;
        assert(out[p] == id);
        assert(out.contains(id));
    } else {
        lemma_tier_step_complete(s, q, tier, i + 1, acc2, id);
    }
}

/// Tier ordering: a result whose title holds the query as a whole word
/// comes strictly before any result that matches the query in no field as
/// a whole word (one buried as a mere substring, say).
pub proof fn lemma_tier_ordering(s: Seq<Option<Comic>>, q: Seq<char>, ma: int, mb: int)
    requires
        0 <= ma < spec_search_ids(s, q).len(),
        0 <= mb < spec_search_ids(s, q).len(),
        tier_matches(MatchTier::WordTitle, q, s[spec_search_ids(s, q)[ma]]->0),
        !tier_matches(MatchTier::WordTitle, q, s[spec_search_ids(s, q)[mb]]->0),
        !tier_matches(MatchTier::WordBody, q, s[spec_search_ids(s, q)[mb]]->0),
    ensures
        ma < mb,
{
    let out = spec_search_ids(s, q);
    let t0 = Seq::<int>::empty();
    let t1 = tier_step(s, q, MatchTier::WordTitle, 0, t0);
    let t2 = tier_step(s, q, MatchTier::WordBody, 0, t1);
    let t3 = tier_step(s, q, MatchTier::SubstringTitle, 0, t2);
    lemma_tier_step_appends(s, q, MatchTier::WordTitle, 0, t0);
    lemma_tier_step_appends(s, q, MatchTier::WordBody, 0, t1);
    lemma_tier_step_appends(s, q, MatchTier::SubstringTitle, 0, t2);
    lemma_tier_step_appends(s, q, MatchTier::SubstringBody, 0, t3);
    lemma_tier_step_cap(s, q, MatchTier::WordTitle, 0, t0);
    lemma_tier_step_cap(s, q, MatchTier::WordBody, 0, t1);
    lemma_tier_step_cap(s, q, MatchTier::SubstringTitle, 0, t2);
    lemma_tier_step_cap(s, q, MatchTier::SubstringBody, 0, t3);
    let a = out[ma];
    let b = out[mb];

    // The entry at `mb` matches no whole-word tier, so the first two tiers
    // never placed it: its position lies at or past the end of tier two.
    assert(mb >= t2.len()) by {
        if mb < t1.len() {
            assert(t1[mb] == b);
            assert(tier_matches(MatchTier::WordTitle, q, s[b]->0));
        } else if mb < t2.len() {
            assert(t2[mb] == b);
            assert(tier_matches(MatchTier::WordBody, q, s[b]->0));
        }
    }

    // Every position is below the cap, so tier one ended short of it and
    // missed no whole-word title hit: the entry at `ma` is in tier one.
    assert(t1.len() <= t2.len() <= mb < MAX_MATCHES);
    assert(0 <= a < s.len() && s[a] is Some) by {
        if ma < t1.len() {
            assert(out[ma] == t1[ma]);
        } else if ma < t2.len() {
            assert(out[ma] == t2[ma]);
        } else if ma < t3.len() {
            assert(out[ma] == t3[ma]);
        }
    }
    lemma_tier_step_complete(s, q, MatchTier::WordTitle, 0, t0, a);
    let pa = choose|p: int| 0 <= p < t1.len() && t1[p] == a;
    assert(out[pa] == a);

    // Ids are distinct in a search result, so `ma` is that tier-one
    // position, strictly below where `mb` can lie.
    lemma_search_distinct(s, q);
    assert(ma == pa);
}

/// No id occurs twice in `ids`.
pub open spec fn distinct_ids(ids: Seq<int>) -> bool {
    forall|a: int, b: int| 0 <= a < b < ids.len() ==> ids[a] != ids[b]
}

/// One tier keeps the accumulated ids distinct: it only appends ids that
/// are not yet there.
pub proof fn lemma_tier_step_distinct(
    s: Seq<Option<Comic>>,
    q: Seq<char>,
    tier: MatchTier,
    i: int,
    acc: Seq<int>,
)
    requires
        distinct_ids(acc),
    ensures
        distinct_ids(tier_step(s, q, tier, i, acc)),
    decreases s.len() - i,
{
    if i < 0 || i >= s.len() || acc.len() >= MAX_MATCHES {
    } else {
        if s[i] is Some && !acc.contains(i) && tier_matches(tier, q, s[i]->0) {
            let acc2 = acc.push(i);
            assert forall|a: int, b: int| 0 <= a < b < acc2.len() implies acc2[a] != acc2[b] by {
                if b == acc.len() as int {
                    if acc2[a] == i {
                        assert(acc[a] == i);
                        assert(acc.contains(i));
                    }
                }
            }
            lemma_tier_step_distinct(s, q, tier, i + 1, acc2);
        } else {
            lemma_tier_step_distinct(s, q, tier, i + 1, acc);
        }
    }
}

/// Dedup across tiers: an entry appears at most once in a search result,
/// whatever combination of tiers it matches.
pub proof fn lemma_search_distinct(s: Seq<Option<Comic>>, q: Seq<char>)
    ensures
        distinct_ids(spec_search_ids(s, q)),
{
    let t0 = Seq::<int>::empty();
    let t1 = tier_step(s, q, MatchTier::WordTitle, 0, t0);
    let t2 = tier_step(s, q, MatchTier::WordBody, 0, t1);
    let t3 = tier_step(s, q, MatchTier::SubstringTitle, 0, t2);
    lemma_tier_step_distinct(s, q, MatchTier::WordTitle, 0, t0);
    lemma_tier_step_distinct(s, q, MatchTier::WordBody, 0, t1);
    lemma_tier_step_distinct(s, q, MatchTier::SubstringTitle, 0, t2);
    lemma_tier_step_distinct(s, q, MatchTier::SubstringBody, 0, t3);
}

} // verus!
