use tfidf_search::weight::{inverse_document_frequency, LN_2, ONE};

fn as_number(w: u64) -> f64 {
    w as f64 / ONE as f64
}

#[test]
fn idf_of_two_to_one_is_the_constant() {
    assert_eq!(inverse_document_frequency(2, 1), LN_2);
    assert_eq!(LN_2, 2977044471);
}

#[test]
fn idf_of_powers_of_two() {
    for k in 1..=63u32 {
        let n = 1u64 << k;
        let expected = ((k as u128 * ONE as u128 * LN_2 as u128) >> 32) as u64;
        assert_eq!(inverse_document_frequency(n, 1), expected);
        assert_eq!(inverse_document_frequency(n, n / 2), LN_2);
    }
}

#[test]
fn idf_is_close_to_the_real_logarithm() {
    for (n, d) in [(3u64, 2u64), (10, 1), (10, 9), (1000, 1), (1000, 999), (7, 3), (123456, 789)] {
        let exact = (n as f64 / d as f64).ln();
        assert!((as_number(inverse_document_frequency(n, d)) - exact).abs() < 1e-8, "{}/{}", n, d);
    }
}

#[test]
fn idf_exact_values() {
    assert_eq!(inverse_document_frequency(3, 2), 1741459377);
    assert_eq!(inverse_document_frequency(3, 1), 4718503848);
    assert_eq!(inverse_document_frequency(5, 3), 2193979346);
    assert_eq!(inverse_document_frequency(1000, 999), 4297115);
    assert_eq!(inverse_document_frequency(u64::MAX, 1), 190530846143);
    assert_eq!(inverse_document_frequency(2, 1), LN_2);
}

#[test]
fn idf_of_a_term_in_every_document_is_zero() {
    for n in [1u64, 2, 3, 10, 1000, u64::MAX] {
        assert_eq!(inverse_document_frequency(n, n), 0);
    }
}

#[test]
fn idf_floors_the_frequency_at_one() {
    for n in [0u64, 1, 5, 1000] {
        assert_eq!(inverse_document_frequency(n, 0), inverse_document_frequency(n, 1));
    }
}

#[test]
fn idf_of_an_empty_collection_is_zero() {
    assert_eq!(inverse_document_frequency(0, 0), 0);
    assert_eq!(inverse_document_frequency(0, 5), 0);
}

#[test]
fn idf_is_zero_where_the_frequency_exceeds_the_collection() {
    assert_eq!(inverse_document_frequency(3, 4), 0);
    assert_eq!(inverse_document_frequency(1, u64::MAX), 0);
}

#[test]
fn idf_never_grows_with_the_frequency() {
    for n in [1u64, 2, 17, 1000] {
        let mut last = inverse_document_frequency(n, 0);
        for df in 1..=n + 2 {
            let w = inverse_document_frequency(n, df);
            assert!(w <= last, "n={} df={}", n, df);
            last = w;
        }
    }
}

#[test]
fn idf_is_positive_for_a_term_missing_from_one_document() {
    for n in [2u64, 3, 1000, 1_000_000, 1_000_000_000] {
        assert!(inverse_document_frequency(n, n - 1) > 0);
    }
}

#[test]
fn idf_stays_within_its_bound() {
    assert!(inverse_document_frequency(u64::MAX, 1) < (1u64 << 38));
    let w = as_number(inverse_document_frequency(u64::MAX, 1));
    assert!((w - 64.0 * 2f64.ln()).abs() < 1e-6);
}
