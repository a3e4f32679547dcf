use tfidf_search::frequency::TermTable;
use tfidf_search::ranking::{insert_ranked, ranks_before};
use tfidf_search::scoring::{count_documents_with, term_weight};
use tfidf_search::{Hit, TermFrequency};

fn hit(id: u64, score: u128) -> Hit {
    Hit { id, score }
}

fn table(tokens: &[&str]) -> TermTable {
    TermTable::from_tokens(tokens.iter().map(|s| s.to_string()).collect())
}

#[test]
fn higher_score_ranks_first() {
    assert!(ranks_before(&hit(9, 5), &hit(1, 4)));
    assert!(!ranks_before(&hit(1, 4), &hit(9, 5)));
}

#[test]
fn equal_scores_rank_by_id() {
    assert!(ranks_before(&hit(1, 5), &hit(2, 5)));
    assert!(!ranks_before(&hit(2, 5), &hit(1, 5)));
    assert!(!ranks_before(&hit(1, 5), &hit(1, 5)));
}

#[test]
fn insert_ranked_keeps_the_order() {
    let mut hits = Vec::new();
    for h in [hit(1, 10), hit(2, 30), hit(3, 20), hit(4, 30), hit(5, 5), hit(6, 40)] {
        insert_ranked(&mut hits, h);
    }
    assert_eq!(hits, vec![hit(6, 40), hit(2, 30), hit(4, 30), hit(3, 20), hit(1, 10), hit(5, 5)]);
}

#[test]
fn insert_ranked_into_empty_list() {
    let mut hits = Vec::new();
    insert_ranked(&mut hits, hit(7, 1));
    assert_eq!(hits, vec![hit(7, 1)]);
}

#[test]
fn term_table_counts_tokens() {
    let t = table(&["B", "A", "B", "C", "B"]);
    assert_eq!(t.count(&"B".to_string()), 3);
    assert_eq!(t.count(&"A".to_string()), 1);
    assert_eq!(t.count(&"C".to_string()), 1);
    assert_eq!(t.count(&"D".to_string()), 0);
    assert_eq!(t.sum(), 5);
    assert_eq!(t.frequency(&"B".to_string()), TermFrequency { occurrences: 3, total: 5 });
}

#[test]
fn term_table_of_no_tokens() {
    let t = table(&[]);
    assert_eq!(t.sum(), 0);
    assert_eq!(t.count(&"A".to_string()), 0);
    assert_eq!(t.frequency(&"A".to_string()), TermFrequency { occurrences: 0, total: 0 });
}

#[test]
fn count_documents_with_counts_each_document_once() {
    let tables = vec![table(&["A", "A", "B"]), table(&["B"]), table(&[]), table(&["A"])];
    assert_eq!(count_documents_with(&tables, &"A".to_string()), 2);
    assert_eq!(count_documents_with(&tables, &"B".to_string()), 2);
    assert_eq!(count_documents_with(&tables, &"C".to_string()), 0);
    assert_eq!(count_documents_with(&Vec::new(), &"A".to_string()), 0);
}

#[test]
fn term_weight_is_the_idf_over_the_tables() {
    let tables = vec![table(&["A", "B"]), table(&["B"]), table(&["B", "C"])];
    assert_eq!(term_weight(&tables, &"A".to_string()), 4718503848);
    assert_eq!(term_weight(&tables, &"B".to_string()), 0);
    assert_eq!(term_weight(&tables, &"Z".to_string()), 4718503848);
}
