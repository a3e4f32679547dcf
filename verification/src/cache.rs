//! The query cache: ranked results kept for their raw queries.
//!
//! A result is reused until its expiration, [`CACHE_TTL`] nanoseconds after
//! it was cached. Nothing evicts a stale result; the next result cached for
//! the same query takes its place.

use crate::ranking::Hit;
use vstd::prelude::*;

verus! {

/// How long a cached result is reused: sixty seconds, in nanoseconds.
pub const CACHE_TTL: u128 = 60_000_000_000;

/// A ranked result kept for its query.
#[derive(Debug)]
struct CachedResult {
    query: String,
    hits: Vec<Hit>,
    cached_at: u128,
}

/// A cache of ranked results, keyed by the raw query.
#[derive(Debug)]
pub struct QueryCache {
    entries: Vec<CachedResult>,
}

/// Whether a result cached at `cached_at` is still to be reused at `now`:
/// its expiration, `CACHE_TTL` after it was cached, lies in the future.
pub open spec fn is_live(cached_at: u128, now: u128) -> bool {
    now < cached_at + CACHE_TTL
}

/// The position of the first cached result for `query` at or after `from`.
spec fn first_cached(entries: Seq<CachedResult>, query: Seq<char>, from: nat) -> Option<int>
    decreases entries.len() - from,
{
    if from >= entries.len() {
        None
    } else if entries[from as int].query@ == query {
        Some(from as int)
    } else {
        first_cached(entries, query, from + 1)
    }
}

/// Where the queries of a cache stay as they are, so does the position of
/// each query in it.
proof fn lemma_positions_kept(
    before: Seq<CachedResult>,
    after: Seq<CachedResult>,
    query: Seq<char>,
    from: nat,
)
    requires
        after.len() == before.len(),
        forall|i: int| 0 <= i < before.len() ==> (#[trigger] after[i]).query@ == before[i].query@,
    ensures
        first_cached(after, query, from) == first_cached(before, query, from),
    decreases before.len() - from,
{
    if from < before.len() && before[from as int].query@ != query {
        lemma_positions_kept(before, after, query, from + 1);
    }
}

/// A result added at the end of a cache is found for its own query where the
/// cache had none for it, and changes the position of no other query.
proof fn lemma_positions_appended(
    before: Seq<CachedResult>,
    after: Seq<CachedResult>,
    query: Seq<char>,
    from: nat,
)
    requires
        from <= before.len(),
        after.len() == before.len() + 1,
        forall|i: int| 0 <= i < before.len() ==> (#[trigger] after[i]) == before[i],
    ensures
        first_cached(before, query, from) is Some ==> first_cached(after, query, from)
            == first_cached(before, query, from),
        first_cached(before, query, from) is None && after[before.len() as int].query@ == query
            ==> first_cached(after, query, from) == Some(before.len() as int),
        first_cached(before, query, from) is None && after[before.len() as int].query@ != query
            ==> first_cached(after, query, from) is None,
    decreases before.len() - from,
{
    if from < before.len() {
        assert(after[from as int] == before[from as int]);
        if before[from as int].query@ != query {
            lemma_positions_appended(before, after, query, from + 1);
        }
    } else {
        assert(first_cached(after, query, from + 1) is None);
    }
}

/// The position that `first_cached` gives holds the query, and no position
/// before it does.
proof fn lemma_first_cached(entries: Seq<CachedResult>, query: Seq<char>, from: nat)
    requires
        from <= entries.len(),
    ensures
        match first_cached(entries, query, from) {
            Some(at) => from <= at < entries.len() && entries[at].query@ == query,
            None => forall|i: int|
                from <= i < entries.len() ==> (#[trigger] entries[i]).query@ != query,
        },
    decreases entries.len() - from,
{
    if from < entries.len() && entries[from as int].query@ != query {
        lemma_first_cached(entries, query, from + 1);
    }
}

/// Finds the cached result for `query`.
fn find_cached(entries: &Vec<CachedResult>, query: &String) -> (r: Option<usize>)
    ensures
        match r {
            Some(at) => first_cached(entries@, query@, 0) == Some(at as int) && at < entries.len()
                && entries[at as int].query@ == query@,
            None => first_cached(entries@, query@, 0) is None,
        },
{
    let mut i: usize = 0;
    while i < entries.len()
        invariant
            i <= entries.len(),
            first_cached(entries@, query@, 0) == first_cached(entries@, query@, i as nat),
        decreases entries.len() - i,
    {
        if entries[i].query == *query {
            return Some(i);
        }
        i = i + 1;
    }
    None
}

/// Decides whether a result cached at `cached_at` is still to be reused at
/// `now`.
pub fn live(cached_at: u128, now: u128) -> (r: bool)
    ensures
        r == is_live(cached_at, now),
{
    now < cached_at || now - cached_at < CACHE_TTL
}

/// Copies a list of hits.
pub fn copy_hits(hits: &Vec<Hit>) -> (copy: Vec<Hit>)
    ensures
        copy@ == hits@,
{
    let mut copy: Vec<Hit> = Vec::new();
    let mut i: usize = 0;
    while i < hits.len()
        invariant
            i <= hits.len(),
            copy@ == hits@.take(i as int),
        decreases hits.len() - i,
    {
        copy.push(hits[i]);
        proof {
            assert(hits@.take(i + 1) == hits@.take(i as int).push(hits@[i as int]));
        }
        i = i + 1;
    }
    proof {
        assert(hits@.take(hits@.len() as int) == hits@);
    }
    copy
}

impl QueryCache {
    /// The result cached for `query`, with the time at which it was cached.
    pub closed spec fn cached(&self, query: Seq<char>) -> Option<(Seq<Hit>, u128)> {
        match first_cached(self.entries@, query, 0) {
            Some(at) => Some((self.entries@[at].hits@, self.entries@[at].cached_at)),
            None => None,
        }
    }

    /// Whether a result is cached for `query` that is still to be reused at
    /// `now`.
    pub open spec fn holds_live(&self, query: Seq<char>, now: u128) -> bool {
        self.cached(query) matches Some(kept) && is_live(kept.1, now)
    }

    /// The invariant of the cache: it holds one result for a query at most.
    #[verifier::type_invariant]
    spec fn one_result_each(&self) -> bool {
        forall|i: int, j: int|
            0 <= i < j < self.entries@.len() ==> (#[trigger] self.entries@[i]).query@ != (
            #[trigger] self.entries@[j]).query@
    }

    /// Creates an empty cache.
    pub fn new() -> (cache: QueryCache)
        ensures
            forall|query: Seq<char>| cache.cached(query) is None,
    {
        QueryCache { entries: Vec::new() }
    }

    /// Returns the result cached for `query` where it is live at `now`.
    pub fn get(&self, query: &str, now: u128) -> (r: Option<Vec<Hit>>)
        ensures
            match r {
                Some(hits) => self.holds_live(query@, now) && hits@ == self.cached(
                    query@,
                )->Some_0.0,
                None => !self.holds_live(query@, now),
            },
    {
        let key = String::from_str(query);
        match find_cached(&self.entries, &key) {
            Some(at) => {
                if live(self.entries[at].cached_at, now) {
                    Some(copy_hits(&self.entries[at].hits))
                } else {
                    None
                }
            },
            None => None,
        }
    }

    /// Caches `hits` for `query` as of `now`, in place of what was cached for
    /// that query. What is cached for other queries stays.
    pub fn put(&mut self, query: &str, hits: Vec<Hit>, now: u128)
        ensures
            final(self).cached(query@) == Some((hits@, now)),
            forall|other: Seq<char>|
                other != query@ ==> final(self).cached(other) == old(self).cached(other),
    {
        proof {
            use_type_invariant(&*self);
        }
        let key = String::from_str(query);
        let ghost before = self.entries@;
        proof {
            lemma_first_cached(before, query@, 0);
        }
        let mut entries: Vec<CachedResult> = Vec::new();
        std::mem::swap(&mut entries, &mut self.entries);
        match find_cached(&entries, &key) {
            Some(at) => {
                entries[at].hits = hits;
                entries[at].cached_at = now;
                self.entries = entries;
                proof {
                    assert forall|other: Seq<char>|
                        first_cached(self.entries@, other, 0) == first_cached(
                            before,
                            other,
                            0,
                        ) by {
                        lemma_positions_kept(before, self.entries@, other, 0);
                    }
                    assert forall|other: Seq<char>| other != query@ implies self.cached(other)
                        == old(self).cached(other) by {
                        lemma_first_cached(before, other, 0);
                    }
                }
            },
            None => {
                entries.push(CachedResult { query: key, hits, cached_at: now });
                self.entries = entries;
                proof {
                    assert forall|other: Seq<char>| other != query@ implies self.cached(other)
                        == old(self).cached(other) by {
                        lemma_positions_appended(before, self.entries@, other, 0);
                        lemma_first_cached(before, other, 0);
                    }
                    lemma_positions_appended(before, self.entries@, query@, 0);
                    assert forall|i: int, j: int| 0 <= i < j < self.entries@.len() implies (
                    #[trigger] self.entries@[i]).query@ != (#[trigger] self.entries@[j]).query@ by {
                        assert(self.entries@[i] == before[i]);
                        if j < before.len() {
                            assert(self.entries@[j] == before[j]);
                        }
                    }
                }
            },
        }
    }
}

} // verus!
