use pg_bigmr::bigram::{show_bigm, BigramList};

fn strings(v: &[&str]) -> Vec<String> {
    v.iter().map(|s| s.to_string()).collect()
}

#[test]
fn from_value_empty_is_empty() {
    let list = BigramList::from_value("");
    assert!(list.bigrams.is_empty());
    assert!(!list.removed_dups);
    assert!(!list.pmatch);
}

#[test]
fn from_value_single_char_has_two_bigrams() {
    let list = BigramList::from_value("a");
    assert_eq!(list.bigrams, strings(&[" a", "a "]));
    assert!(!list.removed_dups);
}

#[test]
fn from_value_basic() {
    let list = BigramList::from_value("abc");
    assert_eq!(list.bigrams, strings(&[" a", "ab", "bc", "c "]));
    assert!(!list.removed_dups);
}

#[test]
fn from_value_sorted_without_duplicates() {
    let list = BigramList::from_value("aaa");
    assert_eq!(list.bigrams, strings(&[" a", "a ", "aa"]));
    assert!(list.removed_dups);
    let pairs = list.bigrams.windows(2);
    for w in pairs {
        assert!(w[0] < w[1]);
    }
}

#[test]
fn from_value_space_only_value() {
    let list = BigramList::from_value(" ");
    assert_eq!(list.bigrams, strings(&["  "]));
    assert!(list.removed_dups);
}

#[test]
fn make_bigrams_keeps_order_and_repeats() {
    let bigrams = BigramList::make_bigrams(" aba ");
    assert_eq!(bigrams, strings(&[" a", "ab", "ba", "a "]));
}

#[test]
fn wildcard_spans_around_percent() {
    let (span, next) = BigramList::get_wildcard_part("foo%bar", 0).unwrap();
    assert_eq!(span, " foo");
    assert_eq!(next, 3);
    let (span, next) = BigramList::get_wildcard_part("foo%bar", next).unwrap();
    assert_eq!(span, "bar ");
    assert_eq!(next, 7);
    assert!(BigramList::get_wildcard_part("foo%bar", next).is_none());
}

#[test]
fn from_query_pools_span_bigrams() {
    let list = BigramList::from_query("foo%bar");
    assert_eq!(list.bigrams, strings(&[" f", "ar", "ba", "fo", "oo", "r "]));
    assert!(!list.removed_dups);
}

#[test]
fn escaped_meta_is_literal() {
    let (span, next) = BigramList::get_wildcard_part("100\\%", 0).unwrap();
    assert_eq!(span, " 100% ");
    assert_eq!(next, 5);
    assert!(BigramList::get_wildcard_part("100\\%", next).is_none());
}

#[test]
fn escaped_escape_is_literal() {
    let (span, _) = BigramList::get_wildcard_part("a\\\\b", 0).unwrap();
    assert_eq!(span, " a\\b ");
}

#[test]
fn escaped_space_ends_span() {
    let (span, next) = BigramList::get_wildcard_part("ab\\ cd", 0).unwrap();
    assert_eq!(span, " ab ");
    // the scan resumes at the escape character
    assert_eq!(next, 2);
    let (span, next) = BigramList::get_wildcard_part("ab\\ cd", next).unwrap();
    assert_eq!(span, " cd ");
    assert_eq!(next, 6);
}

#[test]
fn underscore_is_a_wildcard_too() {
    let (span, next) = BigramList::get_wildcard_part("a_b", 0).unwrap();
    assert_eq!(span, " a");
    let (span, _) = BigramList::get_wildcard_part("a_b", next).unwrap();
    assert_eq!(span, "b ");
}

#[test]
fn wildcard_only_query_has_no_bigrams() {
    assert!(BigramList::from_query("%__%").bigrams.is_empty());
    assert!(BigramList::from_query(" ").bigrams.is_empty());
    assert!(BigramList::from_query("").bigrams.is_empty());
}

#[test]
fn short_query_requires_partial_match() {
    assert!(BigramList::from_query("a").pmatch);
    assert!(BigramList::from_query("").pmatch);
    assert!(!BigramList::from_query("ab").pmatch);
}

#[test]
fn from_query_records_removed_duplicates() {
    let list = BigramList::from_query("aa%aa");
    assert!(list.removed_dups);
    assert_eq!(list.bigrams, strings(&[" a", "a ", "aa"]));
}

#[test]
fn show_bigm_keeps_edge_whitespace() {
    assert_eq!(show_bigm("abc"), strings(&[" a", "ab", "bc", "c "]));
    // the trailing space of the raw value contributes a double-space bigram
    assert_eq!(show_bigm("a "), strings(&["  ", " a", "a "]));
}

#[test]
fn show_bigm_empty_and_blank() {
    assert!(show_bigm("").is_empty());
    assert_eq!(show_bigm("   "), strings(&["  "]));
}

#[test]
fn multibyte_characters_form_whole_bigrams() {
    let list = BigramList::from_value("日本");
    assert_eq!(list.bigrams, strings(&[" 日", "日本", "本 "]));
}

#[test]
fn multibyte_query_spans() {
    let (span, _) = BigramList::get_wildcard_part("日%語", 0).unwrap();
    assert_eq!(span, " 日");
}
