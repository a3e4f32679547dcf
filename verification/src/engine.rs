//! The search engine: a document collection, its index and a cache of
//! ranked results.
//!
//! Documents get their identifiers when they are added: 1, 2, 3 and so on, in
//! the order of insertion. The index is rebuilt as a whole from the documents
//! held at that moment; documents added later are not searched until the
//! next rebuild. A ranked result is cached under the raw query and reused
//! until it expires, whatever happens to the index meanwhile.

use crate::cache::{copy_hits, is_live, QueryCache, CACHE_TTL};
use crate::clock::nanoseconds_since;
use crate::document::{flatten, fragments, Value};
use crate::frequency::{occurrences, TermFrequency, TermTable};
use crate::ranking::{is_ranked, lemma_ranking_of_no_terms, rank, ranking, ranks_first, Hit};
use crate::scoring::{idf, index_of, tf_idf, term_weight, weigh, IndexModel};
use crate::tokenizer::{normalized_tokens, terms, texts};
use crate::weight::WEIGHT_LIMIT;
use vstd::prelude::*;

verus! {

/// Why the engine refused a call.
#[derive(Debug, Clone, Copy, PartialEq, Eq, Structural)]
pub enum SearchError {
    /// A document has no identifier, or one that is no unsigned integer.
    MalformedDocument,
    /// The index has not been built.
    IndexNotBuilt,
}

impl SearchError {
    /// Returns the message of the error.
    pub fn message(&self) -> (text: String)
        ensures
            text@ == match *self {
                SearchError::MalformedDocument => "document has no unsigned integer id"@,
                SearchError::IndexNotBuilt => "index has not been built"@,
            },
    {
        match self {
            SearchError::MalformedDocument => String::from_str(
                "document has no unsigned integer id",
            ),
            SearchError::IndexNotBuilt => String::from_str("index has not been built"),
        }
    }
}

/// The normalized tokens of the first `upto` fragments, in order.
pub open spec fn terms_of_fragments(fragments: Seq<Seq<char>>, upto: nat) -> Seq<Seq<char>>
    decreases upto,
{
    if upto == 0 || upto > fragments.len() {
        Seq::empty()
    } else {
        terms_of_fragments(fragments, (upto - 1) as nat) + terms(fragments[upto - 1])
    }
}

/// The normalized tokens of a document: those of its fragments, one fragment
/// after the other.
pub open spec fn document_terms(document: Value) -> Seq<Seq<char>> {
    terms_of_fragments(fragments(document), fragments(document).len())
}

/// The index of a document collection: the normalized tokens of each
/// document.
pub open spec fn index_of_documents(documents: Seq<Value>) -> IndexModel {
    Seq::new(documents.len(), |d: int| document_terms(documents[d]))
}

/// What one search does to the engine. Without an index it fails and
/// changes nothing. With a live cached result for the raw query it returns
/// that result and changes nothing. Otherwise it ranks the indexed documents
/// for the normalized tokens of the query, returns the ranking and caches it
/// for the query as of `now`, in place of any stale result; what is cached
/// for other queries stays. The ranking lists exactly the documents of
/// positive relevance, by descending score and, among equal scores, by
/// ascending identifier. The documents and the index stay in every case.
pub open spec fn searched(
    before: Database,
    after: Database,
    query: Seq<char>,
    now: u128,
    result: Result<Vec<Hit>, SearchError>,
) -> bool {
    &&& after.documents() == before.documents()
    &&& after.index() == before.index()
    &&& match before.index() {
        None => {
            &&& result == Err::<Vec<Hit>, SearchError>(SearchError::IndexNotBuilt)
            &&& forall|other: Seq<char>| after.cached(other) == before.cached(other)
        },
        Some(index) => {
            &&& result matches Ok(hits)
            &&& if before.holds_live(query, now) {
                &&& hits@ == before.cached(query)->Some_0.0
                &&& forall|other: Seq<char>| after.cached(other) == before.cached(other)
            } else {
                &&& hits@ == ranking(index, terms(query))
                &&& ranks_first(hits@, index, terms(query), index.len())
                &&& after.cached(query) == Some((hits@, now))
                &&& forall|other: Seq<char>|
                    other != query ==> after.cached(other) == before.cached(other)
            }
        },
    }
}

/// A search leaves its result in the cache: after a successful search at
/// `now`, the hits it returned are cached for the query and live at `now`.
pub proof fn lemma_search_caches_its_result(
    before: Database,
    after: Database,
    query: Seq<char>,
    now: u128,
    result: Result<Vec<Hit>, SearchError>,
)
    requires
        searched(before, after, query, now, result),
        result is Ok,
    ensures
        after.holds_live(query, now),
        after.cached(query)->Some_0.0 == result->Ok_0@,
{
}

/// A search repeated within the time to live is answered from the cache: if
/// a search at `earlier` had to rank, a search for the same query at `later`,
/// less than `CACHE_TTL` after it, returns the same hits and changes nothing.
pub proof fn lemma_search_within_ttl_repeats(
    first: Database,
    second: Database,
    third: Database,
    query: Seq<char>,
    earlier: u128,
    later: u128,
    ranked: Result<Vec<Hit>, SearchError>,
    repeated: Result<Vec<Hit>, SearchError>,
)
    requires
        searched(first, second, query, earlier, ranked),
        searched(second, third, query, later, repeated),
        ranked is Ok,
        !first.holds_live(query, earlier),
        later < earlier + CACHE_TTL,
    ensures
        repeated is Ok,
        repeated->Ok_0@ == ranked->Ok_0@,
        third.documents() == second.documents(),
        third.index() == second.index(),
        forall|other: Seq<char>| third.cached(other) == second.cached(other),
{
}

/// A search after the time to live ranks anew: if a search at `earlier` had
/// to rank, a search for the same query at `later`, `CACHE_TTL` or more after
/// it, returns the ranking over the index as it is then and caches it as of
/// `later`.
pub proof fn lemma_search_after_ttl_recomputes(
    first: Database,
    second: Database,
    third: Database,
    query: Seq<char>,
    earlier: u128,
    later: u128,
    ranked: Result<Vec<Hit>, SearchError>,
    again: Result<Vec<Hit>, SearchError>,
)
    requires
        searched(first, second, query, earlier, ranked),
        searched(second, third, query, later, again),
        ranked is Ok,
        !first.holds_live(query, earlier),
        later >= earlier + CACHE_TTL,
    ensures
        again is Ok,
        second.index() matches Some(index) && again->Ok_0@ == ranking(index, terms(query)),
        third.cached(query) == Some((again->Ok_0@, later)),
{
}

/// Searching for the same query at the same time in the same state gives the
/// same hits: the result of a search is a function of the engine, the query
/// and the time.
pub proof fn lemma_search_is_deterministic(
    before: Database,
    one: Database,
    other: Database,
    query: Seq<char>,
    now: u128,
    first: Result<Vec<Hit>, SearchError>,
    second: Result<Vec<Hit>, SearchError>,
)
    requires
        searched(before, one, query, now, first),
        searched(before, other, query, now, second),
    ensures
        first is Ok <==> second is Ok,
        first is Ok ==> first->Ok_0@ == second->Ok_0@,
        first is Err ==> first == second,
        forall|any: Seq<char>| one.cached(any) == other.cached(any),
{
}

/// Computes the inverse document frequency of each query term.
fn weights_of(tables: &Vec<TermTable>, query: &Vec<String>) -> (weights: Vec<u64>)
    ensures
        weights@.len() == query@.len(),
        forall|k: int|
            0 <= k < query@.len() ==> #[trigger] weights@[k] == idf(index_of(tables@), query@[k]@),
{
    let mut weights: Vec<u64> = Vec::new();
    let mut k: usize = 0;
    while k < query.len()
        invariant
            k <= query.len(),
            weights@.len() == k,
            forall|j: int| 0 <= j < k ==> #[trigger] weights@[j] == idf(index_of(tables@), query@[j]@),
        decreases query.len() - k,
    {
        let weight = term_weight(tables, &query[k]);
        weights.push(weight);
        k = k + 1;
    }
    weights
}

/// The search engine.
#[derive(Debug)]
pub struct Database {
    entries: Vec<Value>,
    tables: Vec<TermTable>,
    built: bool,
    cache: QueryCache,
    started: std::time::Instant,
}

impl Database {
    /// The documents of the collection, in the order of insertion.
    pub closed spec fn documents(&self) -> Seq<Value> {
        self.entries@
    }

    /// The index, once it has been built: the tokens of each indexed
    /// document.
    pub closed spec fn index(&self) -> Option<IndexModel> {
        if self.built {
            Some(index_of(self.tables@))
        } else {
            None
        }
    }

    /// The result cached for `query`, with the time at which it was cached.
    pub closed spec fn cached(&self, query: Seq<char>) -> Option<(Seq<Hit>, u128)> {
        self.cache.cached(query)
    }

    /// Whether a result is cached for `query` that is still to be reused at
    /// `now`.
    pub open spec fn holds_live(&self, query: Seq<char>, now: u128) -> bool {
        self.cached(query) matches Some(kept) && is_live(kept.1, now)
    }

    /// The invariant of the engine. A document's identifier is its position
    /// in the collection, counted from one. The index holds the tokens of the
    /// documents that were present when it was built, each of which has its
    /// identifier. Nothing is cached before the index is built, a query
    /// without terms is cached with an empty result, and every cached result
    /// is ranked.
    #[verifier::type_invariant]
    spec fn valid(&self) -> bool {
        &&& forall|d: int|
            0 <= d < self.entries@.len() ==> (#[trigger] self.entries@[d]).id() is None
                || self.entries@[d].id() == Some((d + 1) as u64)
        &&& self.tables@.len() <= self.entries@.len()
        &&& forall|d: int|
            0 <= d < self.tables@.len() ==> (#[trigger] self.tables@[d]).tokens() == document_terms(
                self.entries@[d],
            ) && self.entries@[d].id() == Some((d + 1) as u64)
        &&& !self.built ==> self.tables@.len() == 0 && forall|query: Seq<char>|
            self.cache.cached(query) is None
        &&& forall|query: Seq<char>|
            terms(query).len() == 0 ==> (#[trigger] self.cache.cached(query) matches Some(kept)
                ==> kept.0.len() == 0)
        &&& forall|query: Seq<char>| #[trigger]
            self.cache.cached(query) matches Some(kept) ==> is_ranked(kept.0)
    }

    /// Creates an engine without documents.
    pub fn new() -> (db: Database)
        ensures
            db.documents().len() == 0,
            db.index() is None,
            forall|query: Seq<char>| db.cached(query) is None,
    {
        Database {
            entries: Vec::new(),
            tables: Vec::new(),
            built: false,
            cache: QueryCache::new(),
            started: std::time::Instant::now(),
        }
    }

    /// Adds a document: gives it the next identifier, writes the identifier
    /// into it and appends it to the collection. The index and the cache
    /// stay as they are.
    pub fn add(&mut self, entry: Value)
        requires
            old(self).documents().len() < u64::MAX,
        ensures
            final(self).documents().len() == old(self).documents().len() + 1,
            final(self).documents().drop_last() == old(self).documents(),
            entry.identified_as(
                (old(self).documents().len() + 1) as u64,
                final(self).documents().last(),
            ),
            final(self).index() == old(self).index(),
            forall|query: Seq<char>| final(self).cached(query) == old(self).cached(query),
    {
        proof {
            use_type_invariant(&*self);
        }
        let id: u64 = (self.entries.len() as u64) + 1;
        let identified = entry.with_id(id);
        let mut tables: Vec<TermTable> = Vec::new();
        let mut entries: Vec<Value> = Vec::new();
        std::mem::swap(&mut tables, &mut self.tables);
        std::mem::swap(&mut entries, &mut self.entries);
        entries.push(identified);
        proof {
            assert(entries@.drop_last() == old(self).entries@);
            assert forall|d: int| 0 <= d < entries@.len() implies (#[trigger] entries@[d]).id()
                is None || entries@[d].id() == Some((d + 1) as u64) by {
                if d < old(self).entries@.len() {
                    assert(entries@[d] == old(self).entries@[d]);
                }
            }
            assert forall|d: int| 0 <= d < tables@.len() implies (#[trigger] tables@[d]).tokens()
                == document_terms(entries@[d]) && entries@[d].id() == Some((d + 1) as u64) by {
                assert(entries@[d] == old(self).entries@[d]);
            }
        }
        self.entries = entries;
        self.tables = tables;
    }

    /// Returns the number of documents in the collection.
    pub fn len(&self) -> (n: usize)
        ensures
            n == self.documents().len(),
    {
        self.entries.len()
    }

    /// Returns whether the index has been built.
    pub fn is_indexed(&self) -> (built: bool)
        ensures
            built == self.index() is Some,
    {
        self.built
    }

    /// Returns the document with the identifier `id`.
    pub fn entry(&self, id: u64) -> (found: Option<&Value>)
        ensures
            match found {
                Some(document) => {
                    &&& 1 <= id <= self.documents().len()
                    &&& *document == self.documents()[id - 1]
                    &&& document.id() is None || document.id() == Some(id)
                },
                None => id == 0 || id > self.documents().len(),
            },
    {
        proof {
            use_type_invariant(self);
        }
        if id == 0 || id > self.entries.len() as u64 {
            None
        } else {
            Some(&self.entries[(id - 1) as usize])
        }
    }

    /// Builds the index from the documents that the collection holds now,
    /// in place of any index built before. Where a document has no unsigned
    /// integer identifier the rebuild fails as a whole and the index stays
    /// as it was.
    pub fn tokenize_entries(&mut self) -> (r: Result<(), SearchError>)
        ensures
            final(self).documents() == old(self).documents(),
            forall|query: Seq<char>| final(self).cached(query) == old(self).cached(query),
            match r {
                Ok(_) => {
                    &&& forall|d: int|
                        0 <= d < old(self).documents().len() ==> (
                        #[trigger] old(self).documents()[d]).id() is Some
                    &&& final(self).index() == Some(index_of_documents(old(self).documents()))
                },
                Err(e) => {
                    &&& e == SearchError::MalformedDocument
                    &&& exists|d: int|
                        0 <= d < old(self).documents().len() && (
                        #[trigger] old(self).documents()[d]).id() is None
                    &&& final(self).index() == old(self).index()
                },
            },
    {
        proof {
            use_type_invariant(&*self);
        }
        let mut tables: Vec<TermTable> = Vec::new();
        let mut d: usize = 0;
        while d < self.entries.len()
            invariant
                d <= self.entries.len(),
                *self == *old(self),
                tables@.len() == d,
                    forall|k: int|
                    0 <= k < d ==> (#[trigger] tables@[k]).tokens() == document_terms(
                        self.entries@[k],
                    ) && self.entries@[k].id() is Some,
            decreases self.entries.len() - d,
        {
            match self.entries[d].document_id() {
                None => {
                    assert(self.documents()[d as int].id() is None);
                    return Err(SearchError::MalformedDocument);
                },
                Some(_) => {
                    let tokens = document_tokens(&self.entries[d]);
                    let table = TermTable::from_tokens(tokens);
                    tables.push(table);
                },
            }
            d = d + 1;
        }
        proof {
            assert forall|k: int| 0 <= k < old(self).documents().len() implies (
            #[trigger] old(self).documents()[k]).id() is Some by {
                assert(tables@[k].tokens() == document_terms(self.entries@[k]));
            }
        }
        proof {
            assert(index_of(tables@) =~= index_of_documents(self.entries@));
            assert forall|k: int| 0 <= k < tables@.len() implies (#[trigger] tables@[k]).tokens()
                == document_terms(self.entries@[k]) && self.entries@[k].id() == Some(
                (k + 1) as u64,
            ) by {
                assert(old(self).entries@[k].id() is None || old(self).entries@[k].id() == Some(
                    (k + 1) as u64,
                ));
            }
        }
        let mut built: Vec<TermTable> = Vec::new();
        std::mem::swap(&mut built, &mut self.tables);
        self.built = true;
        self.tables = tables;
        Ok(())
    }

    /// Returns the term frequency of `token` in the document with the
    /// identifier `key`, where the index holds that document.
    pub fn get_tf(&self, key: u64, token: &str) -> (r: Option<TermFrequency>)
        ensures
            match self.index() {
                Some(index) => if 1 <= key <= index.len() {
                    &&& r matches Some(tf)
                    &&& tf.occurrences == occurrences(index[key - 1], token@)
                    &&& tf.total == index[key - 1].len()
                } else {
                    r is None
                },
                None => r is None,
            },
    {
        proof {
            use_type_invariant(self);
        }
        if key == 0 || key > self.tables.len() as u64 {
            return None;
        }
        let term = String::from_str(token);
        let tf = self.tables[(key - 1) as usize].frequency(&term);
        Some(tf)
    }

    /// Returns the inverse document frequency of `token` over the index;
    /// zero where no index has been built.
    pub fn get_idf(&self, token: &str) -> (w: u64)
        ensures
            w == match self.index() {
                Some(index) => idf(index, token@),
                None => 0,
            },
            w < WEIGHT_LIMIT,
    {
        proof {
            use_type_invariant(self);
        }
        if !self.built {
            return 0;
        }
        let term = String::from_str(token);
        term_weight(&self.tables, &term)
    }

    /// Returns the score of `token` for the document with the identifier
    /// `key`, where the index holds that document: its term frequency times
    /// its inverse document frequency.
    pub fn calculate_tf_idf(&self, key: u64, token: &str) -> (r: Option<u64>)
        ensures
            match self.index() {
                Some(index) => if 1 <= key <= index.len() {
                    r == Some(tf_idf(index, key - 1, token@) as u64)
                } else {
                    r is None
                },
                None => r is None,
            },
    {
        match self.get_tf(key, token) {
            None => None,
            Some(tf) => {
                let weight = self.get_idf(token);
                proof {
                    let index = self.index()->Some_0;
                    crate::frequency::lemma_occurrences_at_most_len(index[key - 1], token@);
                }
                Some(weigh(tf, weight))
            },
        }
    }

    /// Searches at the time `now`, in nanoseconds on the engine's clock.
    pub fn search_at(&mut self, query: &str, now: u128) -> (r: Result<Vec<Hit>, SearchError>)
        ensures
            searched(*old(self), *final(self), query@, now, r),
            old(self).index() is Some && terms(query@).len() == 0 ==> (r matches Ok(hits)
                && hits@.len() == 0),
            r matches Ok(hits) ==> is_ranked(hits@),
    {
        proof {
            use_type_invariant(&*self);
        }
        if !self.built {
            return Err(SearchError::IndexNotBuilt);
        }
        match self.cache.get(query, now) {
            Some(kept) => {
                return Ok(kept);
            },
            None => {},
        }
        let query_terms = normalized_tokens(query);
        let weights = weights_of(&self.tables, &query_terms);
        let hits = rank(&self.tables, &query_terms, &weights);
        proof {
            if terms(query@).len() == 0 {
                assert(terms(query@) =~= Seq::<Seq<char>>::empty());
                lemma_ranking_of_no_terms(index_of(self.tables@), self.tables@.len());
            }
        }
        let mut cache = QueryCache::new();
        std::mem::swap(&mut cache, &mut self.cache);
        cache.put(query, copy_hits(&hits), now);
        self.cache = cache;
        Ok(hits)
    }

    /// Searches now: reads the engine's clock and searches at that time.
    pub fn search(&mut self, query: &str) -> (r: Result<Vec<Hit>, SearchError>)
        ensures
            exists|now: u128| searched(*old(self), *final(self), query@, now, r),
            old(self).index() is Some && terms(query@).len() == 0 ==> (r matches Ok(hits)
                && hits@.len() == 0),
            r matches Ok(hits) ==> is_ranked(hits@),
    {
        let now = nanoseconds_since(&self.started);
        self.search_at(query, now)
    }
}

/// Collects the normalized tokens of a document.
pub fn document_tokens(document: &Value) -> (out: Vec<String>)
    ensures
        texts(out@) == document_terms(*document),
{
    let pieces = flatten(document);
    let mut out: Vec<String> = Vec::new();
    let mut i: usize = 0;
    while i < pieces.len()
        invariant
            i <= pieces.len(),
            texts(pieces@) == fragments(*document),
            texts(out@) == terms_of_fragments(texts(pieces@), i as nat),
        decreases pieces.len() - i,
    {
        let mut part = normalized_tokens(pieces[i].as_str());
        proof {
            assert(texts(pieces@)[i as int] == pieces@[i as int]@);
            assert(texts(out@ + part@) =~= texts(out@) + texts(part@));
        }
        out.append(&mut part);
        i = i + 1;
    }
    out
}

} // verus!
