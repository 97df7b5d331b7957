use epicode::cache::{generate_cache_key, generate_query_key, to_le_bytes, CacheStats, SearchFilters};

#[test]
fn test_cache_key_generation() {
    let vector: Vec<u64> = vec![0.1f64, 0.2, 0.3].iter().map(|v| v.to_bits()).collect();
    let filters = SearchFilters::default();
    let key = generate_cache_key(&vector, &filters);
    assert!(key.starts_with("search:"));
    assert!(!key.is_empty());
}

#[test]
fn test_query_cache_key_generation() {
    let filters = SearchFilters::default();
    let key = generate_query_key("hello world", Some(&filters));
    assert!(key.starts_with("search:"));
    assert!(!key.is_empty());
}

// ---- further cases ----

#[test]
fn query_key_is_sha256_of_the_query() {
    let key = generate_query_key("hello world", None);
    assert_eq!(
        key,
        "search:b94d27b9934d3e08a52e52d7da7dabfac484efe37a5380ee9088f7ace2efcde9"
    );
    // Unset filters add nothing.
    assert_eq!(generate_query_key("hello world", Some(&SearchFilters::default())), key);
}

#[test]
fn query_key_depends_on_filters() {
    let mut f = SearchFilters::default();
    f.project = Some("p".to_string());
    let with_project = generate_query_key("q", Some(&f));
    assert_ne!(with_project, generate_query_key("q", None));
    // The project's bytes simply follow the query's.
    assert_eq!(with_project, generate_query_key("qp", None));
    let mut g = SearchFilters::default();
    g.labels = Some(vec!["a".to_string(), "b".to_string()]);
    assert_eq!(generate_query_key("q", Some(&g)), generate_query_key("qab", None));
}

#[test]
fn cache_key_of_empty_vector_is_hash_of_nothing() {
    assert_eq!(
        generate_cache_key(&[], &SearchFilters::default()),
        "search:e3b0c44298fc1c149afbf4c8996fb92427ae41e4649b934ca495991b7852b855"
    );
}

#[test]
fn little_endian_bytes() {
    assert_eq!(to_le_bytes(0x0102030405060708), vec![8, 7, 6, 5, 4, 3, 2, 1]);
    assert_eq!(to_le_bytes(1.5f64.to_bits()), 1.5f64.to_le_bytes().to_vec());
}

#[test]
fn cache_stats_start_at_zero() {
    let stats = CacheStats::new();
    assert_eq!(stats.l1_hits, 0);
    assert_eq!(stats.l1_misses, 0);
    assert_eq!(stats.l2_hits, 0);
    assert_eq!(stats.l2_misses, 0);
    assert_eq!(stats.evictions, 0);
}

#[test]
fn keys_are_seventy_one_characters() {
    let bits: Vec<u64> = vec![0.5f64, 1.5].iter().map(|v| v.to_bits()).collect();
    assert_eq!(generate_cache_key(&bits, &SearchFilters::default()).len(), 71);
    assert_eq!(generate_query_key("", None).len(), 71);
    assert_eq!(generate_query_key("hello world", Some(&SearchFilters::default())).len(), 71);
}
