//! TF-IDF scores over an index.
//!
//! The index is modelled as the sequence of the documents' token sequences:
//! entry `d` holds the normalized tokens of the document with identifier
//! `d + 1`. Scores are unsigned fixed-point numbers with 58 fractional bits,
//! so every score is finite, non-negative and comparable with every other.

use crate::frequency::{lemma_occurrences_at_most_len, occurrences, TermFrequency, TermTable};
use crate::tokenizer::texts;
use crate::weight::{idf_weight, inverse_document_frequency, lemma_idf_below, WEIGHT_LIMIT};
use vstd::arithmetic::div_mod::{lemma_div_is_ordered, lemma_div_multiples_vanish};
use vstd::prelude::*;

verus! {

/// Scale from a weight with 32 fractional bits to a score with 58.
pub const SCORE_LIFT: u128 = 0x400_0000;

/// An index as the scorer sees it: for each document its tokens, in order.
pub type IndexModel = Seq<Seq<Seq<char>>>;

/// The index that a list of term tables stands for.
pub open spec fn index_of(tables: Seq<TermTable>) -> IndexModel {
    Seq::new(tables.len(), |d: int| tables[d].tokens())
}

/// How many of the first `upto` documents hold `term` at least once.
pub open spec fn document_frequency(index: IndexModel, term: Seq<char>, upto: nat) -> nat
    decreases upto,
{
    if upto == 0 || upto > index.len() {
        0
    } else {
        document_frequency(index, term, (upto - 1) as nat) + if occurrences(
            index[upto - 1],
            term,
        ) > 0 {
            1nat
        } else {
            0nat
        }
    }
}

/// The inverse document frequency of `term`: `ln(N / max(1, df))` as a
/// weight, for `N` documents of which `df` hold the term.
pub open spec fn idf(index: IndexModel, term: Seq<char>) -> nat {
    idf_weight(index.len(), document_frequency(index, term, index.len()))
}

/// The product of a term frequency `occurrences / total` and a weight, as a
/// score, rounded down; zero for a document without tokens.
pub open spec fn weighted(occurrences: nat, total: nat, weight: nat) -> nat {
    if total == 0 {
        0
    } else {
        occurrences * weight * (SCORE_LIFT as nat) / total
    }
}

/// The score of `term` for document `doc`: its term frequency times its
/// inverse document frequency.
pub open spec fn tf_idf(index: IndexModel, doc: int, term: Seq<char>) -> nat {
    weighted(occurrences(index[doc], term), index[doc].len(), idf(index, term))
}

/// The sum of the scores of the first `upto` query terms for document `doc`.
/// A term that the query repeats counts each time.
pub open spec fn relevance_of_first(index: IndexModel, doc: int, query: Seq<Seq<char>>, upto: nat) -> nat
    decreases upto,
{
    if upto == 0 || upto > query.len() {
        0
    } else {
        relevance_of_first(index, doc, query, (upto - 1) as nat) + tf_idf(
            index,
            doc,
            query[upto - 1],
        )
    }
}

/// The relevance of document `doc` for the query terms: the sum of the
/// scores of all query terms.
pub open spec fn relevance(index: IndexModel, doc: int, query: Seq<Seq<char>>) -> nat {
    relevance_of_first(index, doc, query, query.len())
}

/// A share of a weight is at most the weight: the score of a term is never
/// above its lifted inverse document frequency.
proof fn lemma_weighted_at_most(occurrences: nat, total: nat, weight: nat)
    requires
        occurrences <= total,
    ensures
        weighted(occurrences, total, weight) <= weight * (SCORE_LIFT as nat),
{
    if total > 0 {
        let lifted = weight * (SCORE_LIFT as nat);
        assert(occurrences * weight * (SCORE_LIFT as nat) == occurrences * lifted)
            by (nonlinear_arith)
            requires
                lifted == weight * (SCORE_LIFT as nat),
        ;
        assert(occurrences * lifted <= total * lifted) by (nonlinear_arith)
            requires
                occurrences <= total,
        ;
        lemma_div_is_ordered(
            (occurrences * lifted) as int,
            (total * lifted) as int,
            total as int,
        );
        lemma_div_multiples_vanish(lifted as int, total as int);
    }
}

/// Counts the documents that hold `term` at least once.
pub fn count_documents_with(tables: &Vec<TermTable>, term: &String) -> (n: u64)
    ensures
        n == document_frequency(index_of(tables@), term@, tables@.len()),
        n <= tables@.len(),
{
    let ghost index = index_of(tables@);
    let mut n: u64 = 0;
    let mut d: usize = 0;
    while d < tables.len()
        invariant
            d <= tables.len(),
            index == index_of(tables@),
            n == document_frequency(index, term@, d as nat),
            n <= d,
        decreases tables.len() - d,
    {
        if tables[d].count(term) > 0 {
            n = n + 1;
        }
        d = d + 1;
    }
    n
}

/// Computes the inverse document frequency of `term` over the index.
pub fn term_weight(tables: &Vec<TermTable>, term: &String) -> (w: u64)
    ensures
        w == idf(index_of(tables@), term@),
        w < WEIGHT_LIMIT,
{
    let containing = count_documents_with(tables, term);
    inverse_document_frequency(tables.len() as u64, containing)
}

/// Multiplies a term frequency by a weight.
pub(crate) fn weigh(tf: TermFrequency, weight: u64) -> (score: u64)
    requires
        tf.occurrences <= tf.total,
        weight < WEIGHT_LIMIT,
    ensures
        score == weighted(tf.occurrences as nat, tf.total as nat, weight as nat),
{
    if tf.total == 0 {
        return 0;
    }
    proof {
        lemma_weighted_at_most(tf.occurrences as nat, tf.total as nat, weight as nat);
        assert(tf.occurrences * weight < 0x1_0000_0000_0000_0000 * WEIGHT_LIMIT)
            by (nonlinear_arith)
            requires
                tf.occurrences < 0x1_0000_0000_0000_0000,
                weight < WEIGHT_LIMIT,
        ;
    }
    let product: u128 = (tf.occurrences as u128) * (weight as u128);
    let lifted: u128 = product * SCORE_LIFT;
    (lifted / (tf.total as u128)) as u64
}

/// Computes the relevance of document `doc` for the query terms, given the
/// inverse document frequency of each query term.
pub(crate) fn relevance_of(
    tables: &Vec<TermTable>,
    doc: usize,
    query: &Vec<String>,
    weights: &Vec<u64>,
) -> (score: u128)
    requires
        doc < tables@.len(),
        weights@.len() == query@.len(),
        forall|k: int|
            0 <= k < query@.len() ==> #[trigger] weights@[k] == idf(index_of(tables@), query@[k]@),
    ensures
        score == relevance(index_of(tables@), doc as int, texts(query@)),
{
    let ghost index = index_of(tables@);
    let ghost terms = texts(query@);
    let documents: usize = tables.len();
    let mut score: u128 = 0;
    let mut k: usize = 0;
    while k < query.len()
        invariant
            k <= query.len(),
            index.len() == documents,
            doc < tables@.len(),
            index == index_of(tables@),
            terms == texts(query@),
            weights@.len() == query@.len(),
            forall|j: int| 0 <= j < query@.len() ==> #[trigger] weights@[j] == idf(index, query@[j]@),
            score == relevance_of_first(index, doc as int, terms, k as nat),
            score <= k * 0x1_0000_0000_0000_0000,
        decreases query.len() - k,
    {
        let tf = tables[doc].frequency(&query[k]);
        proof {
            lemma_occurrences_at_most_len(index[doc as int], query@[k as int]@);
            assert(weights@[k as int] == idf(index, query@[k as int]@));
            lemma_idf_below(
                index.len(),
                document_frequency(index, query@[k as int]@, index.len()),
            );
        }
        let part = weigh(tf, weights[k]);
        proof {
            assert(terms[k as int] == query@[k as int]@);
            assert(k * 0x1_0000_0000_0000_0000 + 0x1_0000_0000_0000_0000 <= usize::MAX
                * 0x1_0000_0000_0000_0000) by (nonlinear_arith)
                requires
                    k < usize::MAX,
            ;
        }
        score = score + (part as u128);
        k = k + 1;
    }
    score
}

} // verus!
