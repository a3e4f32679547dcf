//! Ranked result lists.
//!
//! A ranking holds the documents of positive relevance, best first: by
//! descending score, and among equal scores by ascending identifier. The
//! order is total on hits of different documents, so a ranking is unique.

use crate::frequency::TermTable;
use crate::scoring::{idf, index_of, relevance, relevance_of, IndexModel};
use crate::tokenizer::texts;
use vstd::prelude::*;

verus! {

/// One entry of a ranking: a document and its relevance for the query, in
/// units of 2^-58.
#[derive(Debug, Clone, Copy, PartialEq, Eq, Structural)]
pub struct Hit {
    /// The identifier of the document.
    pub id: u64,
    /// The relevance of the document, a fixed-point number with 58
    /// fractional bits.
    pub score: u128,
}

/// Whether `a` ranks before `b`: it scores higher, or it scores the same and
/// has the smaller identifier.
pub open spec fn precedes(a: Hit, b: Hit) -> bool {
    a.score > b.score || (a.score == b.score && a.id < b.id)
}

/// Whether each hit ranks before all hits behind it.
pub open spec fn is_ranked(hits: Seq<Hit>) -> bool {
    forall|j: int, k: int| 0 <= j < k < hits.len() ==> precedes(#[trigger] hits[j], #[trigger] hits[k])
}

/// The first position at or after `from` whose hit `hit` ranks before; the
/// length of `hits` where there is none.
pub open spec fn first_preceded(hits: Seq<Hit>, hit: Hit, from: nat) -> nat
    decreases hits.len() - from,
{
    if from >= hits.len() {
        hits.len()
    } else if precedes(hit, hits[from as int]) {
        from
    } else {
        first_preceded(hits, hit, from + 1)
    }
}

/// `hits` with `hit` put in before the first hit that it ranks before.
pub open spec fn inserted(hits: Seq<Hit>, hit: Hit) -> Seq<Hit> {
    hits.insert(first_preceded(hits, hit, 0) as int, hit)
}

/// The hit of document `doc` for the query terms.
pub open spec fn hit_of(index: IndexModel, doc: int, query: Seq<Seq<char>>) -> Hit {
    Hit { id: (doc + 1) as u64, score: relevance(index, doc, query) as u128 }
}

/// The ranking of the first `upto` documents of the index: each document of
/// positive relevance is put into the ranking of the documents before it.
pub open spec fn ranking_of_first(index: IndexModel, query: Seq<Seq<char>>, upto: nat) -> Seq<Hit>
    decreases upto,
{
    if upto == 0 || upto > index.len() {
        Seq::empty()
    } else {
        let earlier = ranking_of_first(index, query, (upto - 1) as nat);
        if relevance(index, upto - 1, query) > 0 {
            inserted(earlier, hit_of(index, upto - 1, query))
        } else {
            earlier
        }
    }
}

/// The ranking of all documents of the index for the query terms.
pub open spec fn ranking(index: IndexModel, query: Seq<Seq<char>>) -> Seq<Hit> {
    ranking_of_first(index, query, index.len())
}

/// Whether `hits` lists exactly the first `upto` documents of positive
/// relevance, each once and with its relevance as its score, best first.
pub open spec fn ranks_first(
    hits: Seq<Hit>,
    index: IndexModel,
    query: Seq<Seq<char>>,
    upto: nat,
) -> bool {
    &&& is_ranked(hits)
    &&& forall|k: int|
        0 <= k < hits.len() ==> {
            &&& 1 <= (#[trigger] hits[k]).id <= upto
            &&& hits[k].score > 0
            &&& hits[k] == hit_of(index, hits[k].id - 1, query)
        }
    &&& forall|d: int|
        0 <= d < upto && relevance(index, d, query) > 0 ==> hits.contains(
            #[trigger] hit_of(index, d, query),
        )
}

proof fn lemma_first_preceded(hits: Seq<Hit>, hit: Hit, from: nat)
    requires
        from <= hits.len(),
    ensures
        from <= first_preceded(hits, hit, from) <= hits.len(),
        forall|j: int| from <= j < first_preceded(hits, hit, from) ==> !precedes(hit, hits[j]),
        first_preceded(hits, hit, from) < hits.len() ==> precedes(
            hit,
            hits[first_preceded(hits, hit, from) as int],
        ),
    decreases hits.len() - from,
{
    if from < hits.len() && !precedes(hit, hits[from as int]) {
        lemma_first_preceded(hits, hit, from + 1);
    }
}

/// Putting a hit of a new document into a ranking gives a ranking: of the
/// hits it had and the new one.
proof fn lemma_inserted(hits: Seq<Hit>, hit: Hit)
    requires
        is_ranked(hits),
        forall|k: int| 0 <= k < hits.len() ==> (#[trigger] hits[k]).id != hit.id,
    ensures
        is_ranked(inserted(hits, hit)),
        inserted(hits, hit).len() == hits.len() + 1,
        inserted(hits, hit).contains(hit),
        forall|k: int| 0 <= k < hits.len() ==> inserted(hits, hit).contains(#[trigger] hits[k]),
        forall|k: int|
            0 <= k < inserted(hits, hit).len() ==> (#[trigger] inserted(hits, hit)[k]) == hit
                || hits.contains(inserted(hits, hit)[k]),
{
    let at = first_preceded(hits, hit, 0) as int;
    let after = inserted(hits, hit);
    lemma_first_preceded(hits, hit, 0);
    assert(after[at] == hit);
    assert forall|k: int| 0 <= k < hits.len() implies after.contains(#[trigger] hits[k]) by {
        if k < at {
            assert(after[k] == hits[k]);
        } else {
            assert(after[k + 1] == hits[k]);
        }
    }
    assert forall|k: int| 0 <= k < after.len() implies (#[trigger] after[k]) == hit
        || hits.contains(after[k]) by {
        if k < at {
            assert(after[k] == hits[k]);
        } else if k > at {
            assert(after[k] == hits[k - 1]);
        }
    }
    assert forall|j: int, k: int| 0 <= j < k < after.len() implies precedes(
        #[trigger] after[j],
        #[trigger] after[k],
    ) by {
        if k < at {
            assert(after[j] == hits[j] && after[k] == hits[k]);
        } else if k == at {
            assert(after[j] == hits[j]);
            assert(!precedes(hit, hits[j]));
            assert(hits[j].id != hit.id);
        } else if j < at {
            assert(after[j] == hits[j] && after[k] == hits[k - 1]);
        } else if j == at {
            assert(after[k] == hits[k - 1]);
            assert(precedes(hit, hits[at]));
            if k - 1 > at {
                assert(precedes(hits[at], hits[k - 1]));
            }
        } else {
            assert(after[j] == hits[j - 1] && after[k] == hits[k - 1]);
        }
    }
}

/// The ranking lists exactly the documents of positive relevance, each once
/// and with its relevance as its score, in strictly descending order of
/// score, and in ascending order of identifier where scores are equal.
pub proof fn lemma_ranking(index: IndexModel, query: Seq<Seq<char>>, upto: nat)
    requires
        upto <= index.len() <= u64::MAX,
        forall|d: int| 0 <= d < index.len() ==> #[trigger] relevance(index, d, query) <= u128::MAX,
    ensures
        ranks_first(ranking_of_first(index, query, upto), index, query, upto),
    decreases upto,
{
    if upto > 0 {
        let earlier = ranking_of_first(index, query, (upto - 1) as nat);
        lemma_ranking(index, query, (upto - 1) as nat);
        if relevance(index, upto - 1, query) > 0 {
            let hit = hit_of(index, upto - 1, query);
            let after = inserted(earlier, hit);
            lemma_inserted(earlier, hit);
            assert forall|k: int| 0 <= k < after.len() implies {
                &&& 1 <= (#[trigger] after[k]).id <= upto
                &&& after[k].score > 0
                &&& after[k] == hit_of(index, after[k].id - 1, query)
            } by {
                if after[k] != hit {
                    let j = choose|j: int| 0 <= j < earlier.len() && earlier[j] == after[k];
                    assert(1 <= earlier[j].id <= upto - 1);
                }
            }
            assert forall|d: int| 0 <= d < upto && relevance(index, d, query) > 0 implies after.contains(
                #[trigger] hit_of(index, d, query),
            ) by {
                if d < upto - 1 {
                    let j = choose|j: int|
                        0 <= j < earlier.len() && earlier[j] == hit_of(index, d, query);
                    assert(after.contains(earlier[j]));
                }
            }
        }
    }
}

/// A query without terms ranks no document.
pub proof fn lemma_ranking_of_no_terms(index: IndexModel, upto: nat)
    ensures
        ranking_of_first(index, Seq::<Seq<char>>::empty(), upto).len() == 0,
    decreases upto,
{
    if upto > 0 {
        lemma_ranking_of_no_terms(index, (upto - 1) as nat);
    }
}

/// Decides whether `a` ranks before `b`.
pub fn ranks_before(a: &Hit, b: &Hit) -> (r: bool)
    ensures
        r == precedes(*a, *b),
{
    a.score > b.score || (a.score == b.score && a.id < b.id)
}

/// Puts `hit` into the ranked list `hits`, before the first hit that it
/// ranks before.
pub fn insert_ranked(hits: &mut Vec<Hit>, hit: Hit)
    ensures
        final(hits)@ == inserted(old(hits)@, hit),
{
    let mut at: usize = 0;
    while at < hits.len() && !ranks_before(&hit, &hits[at])
        invariant
            at <= hits.len(),
            *hits == *old(hits),
            first_preceded(hits@, hit, 0) == first_preceded(hits@, hit, at as nat),
        decreases hits.len() - at,
    {
        at = at + 1;
    }
    hits.insert(at, hit);
}

/// Ranks the documents of the index for the query terms, given the inverse
/// document frequency of each query term.
pub(crate) fn rank(tables: &Vec<TermTable>, query: &Vec<String>, weights: &Vec<u64>) -> (hits: Vec<Hit>)
    requires
        weights@.len() == query@.len(),
        forall|k: int|
            0 <= k < query@.len() ==> #[trigger] weights@[k] == idf(index_of(tables@), query@[k]@),
    ensures
        hits@ == ranking(index_of(tables@), texts(query@)),
        ranks_first(hits@, index_of(tables@), texts(query@), tables@.len()),
{
    let ghost index = index_of(tables@);
    let ghost terms = texts(query@);
    let mut hits: Vec<Hit> = Vec::new();
    let mut doc: usize = 0;
    while doc < tables.len()
        invariant
            doc <= tables.len(),
            index == index_of(tables@),
            terms == texts(query@),
            weights@.len() == query@.len(),
            forall|k: int| 0 <= k < query@.len() ==> #[trigger] weights@[k] == idf(index, query@[k]@),
            hits@ == ranking_of_first(index, terms, doc as nat),
            forall|d: int| 0 <= d < doc ==> #[trigger] relevance(index, d, terms) <= u128::MAX,
        decreases tables.len() - doc,
    {
        let score = relevance_of(tables, doc, query, weights);
        if score > 0 {
            let id: u64 = (doc as u64) + 1;
            insert_ranked(&mut hits, Hit { id, score });
        }
        doc = doc + 1;
    }
    proof {
        lemma_ranking(index, terms, index.len());
    }
    hits
}

} // verus!
