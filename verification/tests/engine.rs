use tfidf_search::cache::{live, QueryCache, CACHE_TTL};
use tfidf_search::{Database, Hit, Number, SearchError, TermFrequency, Value};

fn titled(title: &str) -> Value {
    Value::Mapping(vec![("title".to_string(), Value::Text(title.to_string()))])
}

fn ids(hits: &[Hit]) -> Vec<u64> {
    hits.iter().map(|h| h.id).collect()
}

fn three_documents() -> Database {
    let mut db = Database::new();
    db.add(titled("Green Smoothie Recipe"));
    db.add(titled("Red Juice"));
    db.add(titled("Green Juice Smoothie"));
    db
}

fn indexed() -> Database {
    let mut db = three_documents();
    assert_eq!(db.tokenize_entries(), Ok(()));
    db
}

#[test]
fn new_engine_is_empty_and_not_indexed() {
    let db = Database::new();
    assert_eq!(db.len(), 0);
    assert!(!db.is_indexed());
    assert!(db.entry(0).is_none());
    assert!(db.entry(1).is_none());
}

#[test]
fn add_assigns_sequential_ids_from_one() {
    let db = three_documents();
    assert_eq!(db.len(), 3);
    for id in 1..=3u64 {
        assert_eq!(db.entry(id).unwrap().document_id(), Some(id));
    }
    assert!(db.entry(4).is_none());
    assert!(db.entry(0).is_none());
}

#[test]
fn add_writes_the_id_into_the_document() {
    let mut db = Database::new();
    db.add(titled("Red Juice"));
    let expected = Value::Mapping(vec![
        ("title".to_string(), Value::Text("Red Juice".to_string())),
        ("id".to_string(), Value::Number(Number::Unsigned(1))),
    ]);
    assert_eq!(db.entry(1), Some(&expected));
}

#[test]
fn add_overrides_an_id_the_caller_chose() {
    let mut db = Database::new();
    db.add(Value::Mapping(vec![("id".to_string(), Value::Number(Number::Unsigned(77)))]));
    assert_eq!(db.entry(1).unwrap().document_id(), Some(1));
}

#[test]
fn add_does_not_build_an_index() {
    let db = three_documents();
    assert!(!db.is_indexed());
}

#[test]
fn search_before_indexing_is_an_error() {
    let mut empty = Database::new();
    assert_eq!(empty.search("Green"), Err(SearchError::IndexNotBuilt));
    let mut populated = three_documents();
    assert_eq!(populated.search("Green"), Err(SearchError::IndexNotBuilt));
    assert_eq!(populated.search_at("Green", 5), Err(SearchError::IndexNotBuilt));
    assert_eq!(populated.search(""), Err(SearchError::IndexNotBuilt));
}

#[test]
fn tokenize_entries_of_an_empty_collection_succeeds() {
    let mut db = Database::new();
    assert_eq!(db.tokenize_entries(), Ok(()));
    assert!(db.is_indexed());
    assert_eq!(db.search("anything"), Ok(vec![]));
}

#[test]
fn tokenize_entries_rejects_a_document_without_id() {
    let mut db = Database::new();
    db.add(titled("fine"));
    db.add(Value::Text("no place for an id".to_string()));
    assert_eq!(db.tokenize_entries(), Err(SearchError::MalformedDocument));
    assert!(!db.is_indexed());
    assert_eq!(db.search("fine"), Err(SearchError::IndexNotBuilt));
}

#[test]
fn failed_rebuild_keeps_the_prior_index() {
    let mut db = indexed();
    let before = db.search_at("Green Smoothie", 0).unwrap();
    db.add(Value::Sequence(vec![Value::Text("Green".to_string())]));
    assert_eq!(db.tokenize_entries(), Err(SearchError::MalformedDocument));
    assert!(db.is_indexed());
    assert_eq!(db.get_tf(1, "GREEN"), Some(TermFrequency { occurrences: 1, total: 4 }));
    assert_eq!(db.get_tf(4, "GREEN"), None);
    assert_eq!(db.search_at("Green Smoothie", CACHE_TTL), Ok(before));
}

#[test]
fn green_smoothie_finds_documents_one_and_three() {
    let mut db = indexed();
    let hits = db.search("Green Smoothie").unwrap();
    assert_eq!(ids(&hits), vec![1, 3]);
    assert_eq!(hits[0].score, hits[1].score);
    assert!(hits[0].score > 0);
}

#[test]
fn green_smoothie_scores_are_exact() {
    let mut db = indexed();
    let hits = db.search_at("Green Smoothie", 0).unwrap();
    let idf: u128 = db.get_idf("GREEN") as u128;
    assert_eq!(idf, 1741459377);
    let term = idf * (1u128 << 26) / 4;
    assert_eq!(hits, vec![Hit { id: 1, score: 2 * term }, Hit { id: 3, score: 2 * term }]);
}

#[test]
fn score_is_close_to_the_real_tf_idf() {
    let mut db = indexed();
    let hits = db.search_at("Green Smoothie", 0).unwrap();
    let real = 2.0 * 0.25 * (3.0f64 / 2.0).ln();
    let fixed = hits[0].score as f64 / (1u128 << 58) as f64;
    assert!((real - fixed).abs() < 1e-9);
}

#[test]
fn search_ranks_by_descending_score() {
    let mut db = Database::new();
    db.add(titled("apple"));
    db.add(titled("apple pear pear pear"));
    db.add(titled("pear"));
    db.add(titled("apple apple apple"));
    db.add(titled("plum"));
    db.tokenize_entries().unwrap();
    let hits = db.search("apple").unwrap();
    assert_eq!(ids(&hits), vec![4, 1, 2]);
    assert!(hits[0].score > hits[1].score && hits[1].score > hits[2].score);
}

#[test]
fn ties_are_broken_by_ascending_id() {
    let mut db = Database::new();
    for _ in 0..4 {
        db.add(titled("same words"));
    }
    db.add(titled("other"));
    db.tokenize_entries().unwrap();
    let hits = db.search("words").unwrap();
    assert_eq!(ids(&hits), vec![1, 2, 3, 4]);
}

#[test]
fn documents_without_overlap_are_left_out() {
    let mut db = indexed();
    let hits = db.search("Red").unwrap();
    assert_eq!(ids(&hits), vec![2]);
    assert_eq!(db.search("Banana"), Ok(vec![]));
}

#[test]
fn term_in_every_document_scores_nothing() {
    let mut db = Database::new();
    db.add(titled("common one"));
    db.add(titled("common two"));
    db.tokenize_entries().unwrap();
    assert_eq!(db.get_idf("COMMON"), 0);
    assert_eq!(db.search("common"), Ok(vec![]));
    assert_eq!(ids(&db.search("common two").unwrap()), vec![2]);
}

#[test]
fn repeated_query_terms_count_each_time() {
    let mut db = indexed();
    let once = db.search_at("Red", 0).unwrap();
    let twice = db.search_at("Red red", 0).unwrap();
    assert_eq!(twice[0].score, 2 * once[0].score);
}

#[test]
fn search_is_case_insensitive_through_normalization() {
    let mut db = indexed();
    let lower = db.search_at("green smoothie", 0).unwrap();
    let upper = db.search_at("GREEN SMOOTHIE", 0).unwrap();
    assert_eq!(lower, upper);
    assert_eq!(ids(&lower), vec![1, 3]);
}

#[test]
fn empty_query_gives_an_empty_ranking() {
    let mut db = indexed();
    assert_eq!(db.search(""), Ok(vec![]));
    assert_eq!(db.search(" .,;!? "), Ok(vec![]));
    assert_eq!(db.search_at("", 0), Ok(vec![]));
    assert_eq!(db.search_at("", 10 * CACHE_TTL), Ok(vec![]));
}

#[test]
fn the_id_of_a_document_is_one_of_its_tokens() {
    let mut db = indexed();
    assert_eq!(ids(&db.search("2").unwrap()), vec![2]);
    assert_eq!(db.get_tf(2, "2"), Some(TermFrequency { occurrences: 1, total: 3 }));
}

#[test]
fn get_tf_counts_occurrences_and_tokens() {
    let mut db = Database::new();
    db.add(titled("pear apple pear"));
    db.tokenize_entries().unwrap();
    assert_eq!(db.get_tf(1, "PEAR"), Some(TermFrequency { occurrences: 2, total: 4 }));
    assert_eq!(db.get_tf(1, "APPLE"), Some(TermFrequency { occurrences: 1, total: 4 }));
    assert_eq!(db.get_tf(1, "1"), Some(TermFrequency { occurrences: 1, total: 4 }));
    assert_eq!(db.get_tf(1, "PLUM"), Some(TermFrequency { occurrences: 0, total: 4 }));
    assert_eq!(db.get_tf(1, "pear"), Some(TermFrequency { occurrences: 0, total: 4 }));
    assert_eq!(db.get_tf(0, "PEAR"), None);
    assert_eq!(db.get_tf(2, "PEAR"), None);
}

#[test]
fn term_frequencies_of_a_document_sum_to_one() {
    let db = indexed();
    let mut sum = 0;
    for term in ["GREEN", "SMOOTHIE", "RECIPE", "1"] {
        let tf = db.get_tf(1, term).unwrap();
        assert_eq!(tf.total, 4);
        sum += tf.occurrences;
    }
    assert_eq!(sum, 4);
}

#[test]
fn scorer_without_index_has_nothing_to_say() {
    let db = three_documents();
    assert_eq!(db.get_tf(1, "GREEN"), None);
    assert_eq!(db.get_idf("GREEN"), 0);
    assert_eq!(db.calculate_tf_idf(1, "GREEN"), None);
}

#[test]
fn get_idf_of_an_unknown_term_uses_frequency_one() {
    let db = indexed();
    assert_eq!(db.get_idf("BANANA"), db.get_idf("RED"));
    assert_eq!(db.get_idf("RED"), 4718503848);
}

#[test]
fn get_idf_falls_as_more_documents_hold_the_term() {
    let db = indexed();
    let rare = db.get_idf("RED");
    let common = db.get_idf("GREEN");
    assert!(rare > common);
    assert!(common > 0);
}

#[test]
fn calculate_tf_idf_is_the_product() {
    let db = indexed();
    let idf = db.get_idf("GREEN") as u128;
    assert_eq!(db.calculate_tf_idf(1, "GREEN"), Some((idf * (1u128 << 26) / 4) as u64));
    assert_eq!(db.calculate_tf_idf(2, "GREEN"), Some(0));
    assert_eq!(db.calculate_tf_idf(9, "GREEN"), None);
    assert_eq!(db.calculate_tf_idf(0, "GREEN"), None);
}

#[test]
fn document_without_tokens_scores_zero() {
    let mut db = Database::new();
    db.add(Value::Mapping(vec![("id".to_string(), Value::Absent)]));
    db.add(titled("word"));
    db.tokenize_entries().unwrap();
    assert_eq!(db.get_tf(1, "1"), Some(TermFrequency { occurrences: 1, total: 1 }));
    let mut bare = Database::new();
    bare.add(Value::Mapping(vec![]));
    bare.tokenize_entries().unwrap();
    assert_eq!(bare.get_tf(1, "1"), Some(TermFrequency { occurrences: 1, total: 1 }));
}

#[test]
fn document_added_after_indexing_is_not_searched() {
    let mut db = indexed();
    db.add(titled("Green Smoothie Deluxe"));
    assert_eq!(db.len(), 4);
    let hits = db.search("Green Smoothie").unwrap();
    assert_eq!(ids(&hits), vec![1, 3]);
    assert_eq!(db.search("Deluxe"), Ok(vec![]));
    assert_eq!(db.get_tf(4, "GREEN"), None);
}

#[test]
fn rebuild_makes_later_documents_searchable() {
    let mut db = indexed();
    db.add(titled("Green Smoothie Deluxe"));
    assert_eq!(db.tokenize_entries(), Ok(()));
    assert_eq!(ids(&db.search("Deluxe").unwrap()), vec![4]);
}

#[test]
fn search_within_ttl_is_answered_from_the_cache() {
    let mut db = indexed();
    let first = db.search_at("Green Smoothie", 1_000).unwrap();
    db.add(titled("Green Smoothie Deluxe"));
    db.tokenize_entries().unwrap();
    let second = db.search_at("Green Smoothie", 1_000 + CACHE_TTL - 1).unwrap();
    assert_eq!(second, first);
    assert_eq!(ids(&second), vec![1, 3]);
}

#[test]
fn search_after_ttl_recomputes() {
    let mut db = indexed();
    let first = db.search_at("Green Smoothie", 1_000).unwrap();
    db.add(titled("Green Smoothie Deluxe"));
    db.tokenize_entries().unwrap();
    let third = db.search_at("Green Smoothie", 1_000 + CACHE_TTL).unwrap();
    assert_ne!(third, first);
    assert_eq!(ids(&third), vec![1, 3, 4]);
    let fourth = db.search_at("Green Smoothie", 1_000 + 2 * CACHE_TTL - 1).unwrap();
    assert_eq!(fourth, third);
}

#[test]
fn cache_key_is_the_raw_query() {
    let mut db = indexed();
    let first = db.search_at("Green", 0).unwrap();
    db.add(titled("Green again"));
    db.tokenize_entries().unwrap();
    assert_eq!(db.search_at("Green", 1), Ok(first));
    assert_eq!(ids(&db.search_at("green", 1).unwrap()), vec![4, 1, 3]);
    assert_eq!(ids(&db.search_at("Green ", 1).unwrap()), vec![4, 1, 3]);
}

#[test]
fn cached_result_from_the_future_is_live() {
    let mut db = indexed();
    let first = db.search_at("Green", 500).unwrap();
    db.add(titled("Green again"));
    db.tokenize_entries().unwrap();
    assert_eq!(db.search_at("Green", 10), Ok(first));
}

#[test]
fn search_twice_with_the_clock_gives_the_same_result() {
    let mut db = indexed();
    let first = db.search("Green Smoothie").unwrap();
    let second = db.search("Green Smoothie").unwrap();
    assert_eq!(first, second);
}

#[test]
fn live_compares_against_the_expiration() {
    assert!(live(0, 0));
    assert!(live(0, CACHE_TTL - 1));
    assert!(!live(0, CACHE_TTL));
    assert!(live(100, 99));
    assert!(live(u128::MAX, 0));
    assert!(live(u128::MAX, u128::MAX));
    assert!(!live(0, u128::MAX));
    assert_eq!(CACHE_TTL, 60_000_000_000);
}

#[test]
fn error_messages() {
    assert_eq!(SearchError::MalformedDocument.message(), "document has no unsigned integer id");
    assert_eq!(SearchError::IndexNotBuilt.message(), "index has not been built");
}

#[test]
fn nested_documents_are_indexed_through_all_levels() {
    let mut db = Database::new();
    db.add(Value::Mapping(vec![
        ("name".to_string(), Value::Text("The Book".to_string())),
        (
            "tags".to_string(),
            Value::Sequence(vec![
                Value::Text("deep-dive".to_string()),
                Value::Mapping(vec![("year".to_string(), Value::Number(Number::Unsigned(2019)))]),
            ]),
        ),
        ("rating".to_string(), Value::Number(Number::Decimal("4.7".to_string()))),
        ("stock".to_string(), Value::Boolean(true)),
        ("gone".to_string(), Value::Absent),
    ]));
    db.add(titled("filler"));
    db.tokenize_entries().unwrap();
    for term in ["THE", "BOOK", "DEEP", "DIVE", "2019", "4", "7", "TRUE", "1"] {
        assert_eq!(db.get_tf(1, term), Some(TermFrequency { occurrences: 1, total: 9 }), "{}", term);
    }
    assert_eq!(db.get_tf(1, "NAME").unwrap().occurrences, 0);
    assert_eq!(ids(&db.search("dive").unwrap()), vec![1]);
}

#[test]
fn cache_get_misses_what_was_never_put() {
    let cache = QueryCache::new();
    assert_eq!(cache.get("q", 0), None);
}

#[test]
fn cache_get_returns_what_was_put_until_it_expires() {
    let mut cache = QueryCache::new();
    let hits = vec![Hit { id: 2, score: 9 }, Hit { id: 1, score: 3 }];
    cache.put("q", hits.clone(), 100);
    assert_eq!(cache.get("q", 100), Some(hits.clone()));
    assert_eq!(cache.get("q", 100 + CACHE_TTL - 1), Some(hits.clone()));
    assert_eq!(cache.get("q", 100 + CACHE_TTL), None);
    assert_eq!(cache.get("q", 50), Some(hits));
    assert_eq!(cache.get("Q", 100), None);
    assert_eq!(cache.get("q ", 100), None);
}

#[test]
fn cache_put_replaces_the_result_of_its_query_only() {
    let mut cache = QueryCache::new();
    cache.put("a", vec![Hit { id: 1, score: 1 }], 0);
    cache.put("b", vec![Hit { id: 2, score: 2 }], 0);
    cache.put("a", vec![Hit { id: 3, score: 3 }], CACHE_TTL);
    assert_eq!(cache.get("a", CACHE_TTL), Some(vec![Hit { id: 3, score: 3 }]));
    assert_eq!(cache.get("b", 1), Some(vec![Hit { id: 2, score: 2 }]));
    assert_eq!(cache.get("b", CACHE_TTL), None);
}
