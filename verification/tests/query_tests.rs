use pg_bigmr::bigram::BigramList;
use pg_bigmr::config::Config;
use pg_bigmr::query::gin_extract_query_bigm;
use pg_bigmr::{BigmError, LIKE_STRATEGY_NUMBER, SIMILARITY_STRATEGY_NUMBER};

fn config_with_limit(limit: i32) -> Config {
    Config {
        enable_recheck: true,
        gin_key_limit: limit,
        similarity_limit_num: 3,
        similarity_limit_den: 10,
    }
}

#[test]
fn single_char_query_is_partial_match_under_like() {
    let keys = gin_extract_query_bigm("a", LIKE_STRATEGY_NUMBER, &config_with_limit(0)).unwrap();
    assert!(keys.pmatch);
    assert_eq!(keys.keys, vec![" a".to_string(), "a ".to_string()]);
}

#[test]
fn single_char_query_needs_recheck_under_similarity() {
    let keys = gin_extract_query_bigm("a", SIMILARITY_STRATEGY_NUMBER, &config_with_limit(0))
        .unwrap();
    assert!(keys.needs_recheck);
    assert!(!keys.pmatch);
    assert!(!keys.scan_all);
}

#[test]
fn similarity_strategy_extracts_value_bigrams() {
    let keys = gin_extract_query_bigm("abc", SIMILARITY_STRATEGY_NUMBER, &config_with_limit(0))
        .unwrap();
    let value_keys = BigramList::from_value("abc");
    assert_eq!(keys.keys, value_keys.bigrams);
    assert!(keys.needs_recheck);
}

#[test]
fn like_strategy_pools_span_bigrams() {
    let keys = gin_extract_query_bigm("foo%bar", LIKE_STRATEGY_NUMBER, &config_with_limit(0))
        .unwrap();
    let expected: Vec<String> = [" f", "ar", "ba", "fo", "oo", "r "]
        .iter()
        .map(|s| s.to_string())
        .collect();
    assert_eq!(keys.keys, expected);
    assert!(keys.needs_recheck);
    assert!(!keys.scan_all);
}

#[test]
fn exact_single_bigram_query_skips_recheck() {
    // "%ab%" reduces to the single bigram "ab", with no space: the index
    // answer is exact
    let keys = gin_extract_query_bigm("%ab%", LIKE_STRATEGY_NUMBER, &config_with_limit(0))
        .unwrap();
    assert_eq!(keys.keys, vec!["ab".to_string()]);
    assert!(!keys.needs_recheck);
}

#[test]
fn key_limit_keeps_the_smallest_keys() {
    let keys = gin_extract_query_bigm("abc", SIMILARITY_STRATEGY_NUMBER, &config_with_limit(2))
        .unwrap();
    assert_eq!(keys.keys, vec![" a".to_string(), "ab".to_string()]);
    assert!(!keys.scan_all);
}

#[test]
fn zero_limit_means_no_limit() {
    let keys = gin_extract_query_bigm("abcdefgh", SIMILARITY_STRATEGY_NUMBER, &config_with_limit(0))
        .unwrap();
    assert_eq!(keys.keys.len(), 9);
}

#[test]
fn wildcard_only_query_scans_all() {
    let keys = gin_extract_query_bigm("%", LIKE_STRATEGY_NUMBER, &config_with_limit(0)).unwrap();
    assert!(keys.keys.is_empty());
    assert!(keys.scan_all);
}

#[test]
fn unknown_strategy_is_an_error() {
    let r = gin_extract_query_bigm("abc", 3, &config_with_limit(0));
    assert_eq!(r.unwrap_err(), BigmError::UnrecognizedStrategy(3));
}
