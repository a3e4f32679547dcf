//! Term-frequency tables: how often each term occurs in one document.

use crate::tokenizer::texts;
use vstd::prelude::*;

verus! {

/// How often `term` occurs in `tokens`.
pub open spec fn occurrences(tokens: Seq<Seq<char>>, term: Seq<char>) -> nat
    decreases tokens.len(),
{
    if tokens.len() == 0 {
        0
    } else {
        occurrences(tokens.drop_last(), term) + if tokens.last() == term {
            1nat
        } else {
            0nat
        }
    }
}

/// The sum of the counts of the first `upto` rows.
spec fn sum_of_counts(rows: Seq<(String, u64)>, upto: nat) -> nat
    decreases upto,
{
    if upto == 0 || upto > rows.len() {
        0
    } else {
        sum_of_counts(rows, (upto - 1) as nat) + (rows[upto - 1].1 as nat)
    }
}

/// Whether `rows` counts the terms of `tokens`: the rows hold the distinct
/// terms of `tokens`, each with the number of its occurrences, and the counts
/// add up to the number of tokens.
spec fn counted(rows: Seq<(String, u64)>, tokens: Seq<Seq<char>>) -> bool {
    &&& forall|i: int, j: int|
        0 <= i < j < rows.len() ==> (#[trigger] rows[i]).0@ != (#[trigger] rows[j]).0@
    &&& forall|i: int|
        0 <= i < rows.len() ==> (#[trigger] rows[i]).1 >= 1 && rows[i].1 == occurrences(
            tokens,
            rows[i].0@,
        )
    &&& forall|term: Seq<char>| #[trigger]
        occurrences(tokens, term) > 0 ==> exists|i: int|
            0 <= i < rows.len() && (#[trigger] rows[i]).0@ == term
    &&& sum_of_counts(rows, rows.len()) == tokens.len()
}

/// The share of a term in a document: `occurrences` of `total` tokens. A
/// document without tokens has the share zero.
#[derive(Debug, Clone, Copy, PartialEq, Eq)]
pub struct TermFrequency {
    /// How often the term occurs in the document.
    pub occurrences: u64,
    /// How many tokens the document has.
    pub total: u64,
}

/// The tokens of one document with its term-frequency table: one row for
/// each distinct term of the document, with the number of its occurrences.
#[derive(Debug)]
pub struct TermTable {
    tokens: Vec<String>,
    rows: Vec<(String, u64)>,
}

impl TermTable {
    /// The tokens of the document, in order.
    pub closed spec fn tokens(&self) -> Seq<Seq<char>> {
        texts(self.tokens@)
    }

    /// The invariant of the table: it counts the tokens of its document. Its
    /// rows are the distinct terms of the document, each with the number of
    /// its occurrences.
    #[verifier::type_invariant]
    spec fn counts_its_tokens(&self) -> bool {
        counted(self.rows@, texts(self.tokens@))
    }

    /// Builds the table of a document from its tokens.
    pub fn from_tokens(tokens: Vec<String>) -> (table: TermTable)
        ensures
            table.tokens() == texts(tokens@),
    {
        let mut rows: Vec<(String, u64)> = Vec::new();
        let mut done: usize = 0;
        let ghost all = texts(tokens@);
        while done < tokens.len()
            invariant
                done <= tokens.len(),
                all == texts(tokens@),
                counted(rows@, all.take(done as int)),
            decreases tokens.len() - done,
        {
            let ghost seen = all.take(done as int);
            let ghost next = all.take(done + 1);
            let ghost term = tokens[done as int]@;
            let ghost before = rows@;
            proof {
                assert(next.drop_last() == seen);
                assert(next.last() == term);
                assert forall|other: Seq<char>| #[trigger]
                    occurrences(next, other) == occurrences(seen, other) + if other == term {
                        1nat
                    } else {
                        0nat
                    } by {}
            }
            match find_row(&rows, &tokens[done]) {
                Some(at) => {
                    proof {
                        assert(before[at as int].1 == occurrences(seen, term));
                        lemma_occurrences_at_most_len(seen, term);
                    }
                    let count: u64 = rows[at].1;
                    rows[at].1 = count + 1;
                    proof {
                        lemma_sum_after_increment(before, rows@, at as int, before.len());
                        assert forall|i: int| 0 <= i < rows@.len() implies (#[trigger] rows@[i]).1
                            >= 1 && rows@[i].1 == occurrences(next, rows@[i].0@) by {
                            assert(before[i].1 == occurrences(seen, before[i].0@));
                        }
                        assert forall|other: Seq<char>| #[trigger]
                            occurrences(next, other) > 0 implies exists|i: int|
                            0 <= i < rows@.len() && (#[trigger] rows@[i]).0@ == other by {
                            if other == term {
                                assert(rows@[at as int].0@ == other);
                            } else {
                                assert(occurrences(seen, other) > 0);
                                let i = choose|i: int|
                                    0 <= i < before.len() && (#[trigger] before[i]).0@ == other;
                                assert(rows@[i].0@ == other);
                            }
                        }
                    }
                },
                None => {
                    let fresh = tokens[done].clone();
                    rows.push((fresh, 1));
                    proof {
                        lemma_sum_after_append(before, rows@, before.len());
                        assert(occurrences(seen, term) == 0) by {
                            if occurrences(seen, term) > 0 {
                                let i = choose|i: int|
                                    0 <= i < before.len() && (#[trigger] before[i]).0@ == term;
                                assert(false);
                            }
                        }
                        assert forall|i: int| 0 <= i < rows@.len() implies (#[trigger] rows@[i]).1
                            >= 1 && rows@[i].1 == occurrences(next, rows@[i].0@) by {
                            if i < before.len() {
                                assert(rows@[i] == before[i]);
                                assert(before[i].1 == occurrences(seen, before[i].0@));
                            }
                        }
                        assert forall|other: Seq<char>| #[trigger]
                            occurrences(next, other) > 0 implies exists|i: int|
                            0 <= i < rows@.len() && (#[trigger] rows@[i]).0@ == other by {
                            if other == term {
                                assert(rows@[before.len() as int].0@ == other);
                            } else {
                                assert(occurrences(seen, other) > 0);
                                let i = choose|i: int|
                                    0 <= i < before.len() && (#[trigger] before[i]).0@ == other;
                                assert(rows@[i] == before[i]);
                            }
                        }
                        assert forall|i: int, j: int| 0 <= i < j < rows@.len() implies (
                        #[trigger] rows@[i]).0@ != (#[trigger] rows@[j]).0@ by {
                            assert(rows@[i] == before[i]);
                            if j < before.len() {
                                assert(rows@[j] == before[j]);
                            }
                        }
                    }
                },
            }
            done = done + 1;
        }
        proof {
            assert(all.take(tokens.len() as int) == all);
        }
        TermTable { tokens, rows }
    }

    /// Returns how often `term` occurs in the document.
    pub fn count(&self, term: &String) -> (n: u64)
        ensures
            n == occurrences(self.tokens(), term@),
    {
        proof {
            use_type_invariant(self);
        }
        match find_row(&self.rows, term) {
            Some(at) => self.rows[at].1,
            None => {
                proof {
                    if occurrences(self.tokens(), term@) > 0 {
                        let i = choose|i: int|
                            0 <= i < self.rows@.len() && (#[trigger] self.rows@[i]).0@ == term@;
                        assert(false);
                    }
                }
                0
            },
        }
    }

    /// Returns the sum of all counts of the table, which is the number of
    /// tokens of the document.
    pub fn sum(&self) -> (n: u64)
        ensures
            n == self.tokens().len(),
    {
        proof {
            use_type_invariant(self);
        }
        let mut n: u64 = 0;
        let mut i: usize = 0;
        let held: usize = self.tokens.len();
        assert(sum_of_counts(self.rows@, self.rows@.len()) == held);
        while i < self.rows.len()
            invariant
                i <= self.rows.len(),
                n == sum_of_counts(self.rows@, i as nat),
                sum_of_counts(self.rows@, self.rows@.len()) <= u64::MAX,
            decreases self.rows.len() - i,
        {
            proof {
                lemma_sum_grows(self.rows@, (i + 1) as nat, self.rows@.len());
            }
            n = n + self.rows[i].1;
            i = i + 1;
        }
        n
    }

    /// Returns the share of `term` in the document.
    pub fn frequency(&self, term: &String) -> (tf: TermFrequency)
        ensures
            tf.occurrences == occurrences(self.tokens(), term@),
            tf.total == self.tokens().len(),
    {
        TermFrequency { occurrences: self.count(term), total: self.sum() }
    }
}

/// The sum of the occurrences in `tokens` of the first `upto` of `terms`.
pub open spec fn occurrences_of_all(tokens: Seq<Seq<char>>, terms: Seq<Seq<char>>, upto: nat) -> nat
    decreases upto,
{
    if upto == 0 || upto > terms.len() {
        0
    } else {
        occurrences_of_all(tokens, terms, (upto - 1) as nat) + occurrences(tokens, terms[upto - 1])
    }
}

/// Adding one token adds one to the occurrences of the term that it is,
/// where that term is among the first `upto` of the distinct `terms`.
proof fn lemma_one_more_occurrence(tokens: Seq<Seq<char>>, terms: Seq<Seq<char>>, upto: nat)
    requires
        tokens.len() > 0,
        upto <= terms.len(),
        terms.no_duplicates(),
    ensures
        occurrences_of_all(tokens, terms, upto) == occurrences_of_all(
            tokens.drop_last(),
            terms,
            upto,
        ) + if exists|i: int| 0 <= i < upto && terms[i] == tokens.last() {
            1nat
        } else {
            0nat
        },
    decreases upto,
{
    if upto > 0 {
        lemma_one_more_occurrence(tokens, terms, (upto - 1) as nat);
        if terms[upto - 1] == tokens.last() {
            assert(!exists|i: int| 0 <= i < upto - 1 && terms[i] == tokens.last());
        } else if exists|i: int| 0 <= i < upto && terms[i] == tokens.last() {
            let i = choose|i: int| 0 <= i < upto && terms[i] == tokens.last();
            assert(0 <= i < upto - 1 && terms[i] == tokens.last());
        }
    }
}

/// The term frequencies of a document add up to one: over any list of
/// distinct terms that holds every term of the document, the occurrences,
/// which are the numerators of the term frequencies, add up to the number of
/// tokens, which is their common denominator.
pub proof fn lemma_occurrences_add_up(tokens: Seq<Seq<char>>, terms: Seq<Seq<char>>)
    requires
        terms.no_duplicates(),
        forall|i: int| 0 <= i < tokens.len() ==> terms.contains(#[trigger] tokens[i]),
    ensures
        occurrences_of_all(tokens, terms, terms.len()) == tokens.len(),
    decreases tokens.len(),
{
    if tokens.len() == 0 {
        lemma_no_occurrences(tokens, terms, terms.len());
    } else {
        let before = tokens.drop_last();
        assert forall|i: int| 0 <= i < before.len() implies terms.contains(#[trigger] before[i]) by {
            assert(before[i] == tokens[i]);
        }
        lemma_occurrences_add_up(before, terms);
        lemma_one_more_occurrence(tokens, terms, terms.len());
        assert(terms.contains(tokens[tokens.len() - 1]));
        let at = choose|i: int| 0 <= i < terms.len() && terms[i] == tokens.last();
        assert(0 <= at < terms.len() && terms[at] == tokens.last());
    }
}

proof fn lemma_no_occurrences(tokens: Seq<Seq<char>>, terms: Seq<Seq<char>>, upto: nat)
    requires
        tokens.len() == 0,
        upto <= terms.len(),
    ensures
        occurrences_of_all(tokens, terms, upto) == 0,
    decreases upto,
{
    if upto > 0 {
        lemma_no_occurrences(tokens, terms, (upto - 1) as nat);
    }
}

/// A term occurs at most as often as there are tokens.
pub proof fn lemma_occurrences_at_most_len(tokens: Seq<Seq<char>>, term: Seq<char>)
    ensures
        occurrences(tokens, term) <= tokens.len(),
    decreases tokens.len(),
{
    if tokens.len() > 0 {
        lemma_occurrences_at_most_len(tokens.drop_last(), term);
    }
}

proof fn lemma_sum_grows(rows: Seq<(String, u64)>, fewer: nat, more: nat)
    requires
        fewer <= more <= rows.len(),
    ensures
        sum_of_counts(rows, fewer) <= sum_of_counts(rows, more),
    decreases more,
{
    if fewer < more {
        lemma_sum_grows(rows, fewer, (more - 1) as nat);
    }
}

proof fn lemma_sum_after_increment(
    before: Seq<(String, u64)>,
    after: Seq<(String, u64)>,
    at: int,
    upto: nat,
)
    requires
        after.len() == before.len(),
        upto <= before.len(),
        0 <= at < before.len(),
        after[at].1 == before[at].1 + 1,
        forall|i: int| 0 <= i < before.len() && i != at ==> after[i].1 == before[i].1,
    ensures
        sum_of_counts(after, upto) == sum_of_counts(before, upto) + if at < upto {
            1nat
        } else {
            0nat
        },
    decreases upto,
{
    if upto > 0 {
        lemma_sum_after_increment(before, after, at, (upto - 1) as nat);
    }
}

proof fn lemma_sum_after_append(before: Seq<(String, u64)>, after: Seq<(String, u64)>, upto: nat)
    requires
        after.len() == before.len() + 1,
        upto <= before.len(),
        forall|i: int| 0 <= i < before.len() ==> after[i] == before[i],
    ensures
        sum_of_counts(after, upto) == sum_of_counts(before, upto),
        upto == before.len() ==> sum_of_counts(after, after.len()) == sum_of_counts(before, upto)
            + after[before.len() as int].1,
    decreases upto,
{
    if upto > 0 {
        lemma_sum_after_append(before, after, (upto - 1) as nat);
        assert(after[upto - 1] == before[upto - 1]);
    }
    if upto == before.len() {
        assert(sum_of_counts(after, after.len()) == sum_of_counts(after, upto) + (
        after[upto as int].1 as nat));
    }
}

/// Finds the row of `term`.
fn find_row(rows: &Vec<(String, u64)>, term: &String) -> (r: Option<usize>)
    ensures
        match r {
            Some(at) => at < rows.len() && rows[at as int].0@ == term@,
            None => forall|i: int| 0 <= i < rows.len() ==> (#[trigger] rows[i]).0@ != term@,
        },
{
    let mut i: usize = 0;
    while i < rows.len()
        invariant
            i <= rows.len(),
            forall|k: int| 0 <= k < i ==> (#[trigger] rows[k]).0@ != term@,
        decreases rows.len() - i,
    {
        if rows[i].0 == *term {
            return Some(i);
        }
        i = i + 1;
    }
    None
}

} // verus!
