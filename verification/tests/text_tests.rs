use pg_bigmr::config::{enable_recheck, gin_key_limit, similarity_limit, Config};
use pg_bigmr::text::{bigmtextcmp, gin_bigm_compare_partial, likequery};
use pg_bigmr::BigmError;

#[test]
fn bigmtextcmp_orders_by_code_point() {
    assert_eq!(bigmtextcmp("a", "b"), -1);
    assert_eq!(bigmtextcmp("b", "a"), 1);
    assert_eq!(bigmtextcmp("ab", "ab"), 0);
    assert_eq!(bigmtextcmp("a", "ab"), -1);
    assert_eq!(bigmtextcmp("ab", "a"), 1);
    assert_eq!(bigmtextcmp("", ""), 0);
    assert_eq!(bigmtextcmp(" a", "a "), -1);
}

#[test]
fn compare_partial_is_an_equality_test() {
    assert_eq!(gin_bigm_compare_partial("ab", "ab"), 0);
    assert_eq!(gin_bigm_compare_partial("ab", "ac"), 1);
    assert_eq!(gin_bigm_compare_partial("ab", "a"), 1);
}

#[test]
fn likequery_wraps_and_escapes() {
    assert_eq!(likequery("abc").unwrap(), "%abc%");
    assert_eq!(likequery("100%").unwrap(), "%100\\%%");
    assert_eq!(likequery("a_b").unwrap(), "%a\\_b%");
    assert_eq!(likequery("a\\b").unwrap(), "%a\\\\b%");
}

#[test]
fn likequery_rejects_an_empty_pattern() {
    assert_eq!(likequery("").unwrap_err(), BigmError::EmptyQuery);
}

#[test]
fn config_getters_return_the_snapshot() {
    let cfg = Config {
        enable_recheck: false,
        gin_key_limit: 120,
        similarity_limit_num: 1,
        similarity_limit_den: 4,
    };
    assert!(!enable_recheck(&cfg));
    assert_eq!(gin_key_limit(&cfg), 120);
    assert_eq!(similarity_limit(&cfg), (1, 4));
}
