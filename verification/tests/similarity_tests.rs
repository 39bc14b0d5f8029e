use pg_bigmr::similarity::bigm_similarity;

fn score(a: &str, b: &str) -> f32 {
    let s = bigm_similarity(a, b);
    s.shared as f32 / s.max_len as f32
}

#[test]
fn similarity_of_a_string_with_itself_is_one() {
    assert_eq!(score("a", "a"), 1.0);
    assert_eq!(score("abc", "abc"), 1.0);
    assert_eq!(score("full text search", "full text search"), 1.0);
}

#[test]
fn similarity_with_an_empty_side_is_zero() {
    assert_eq!(score("abc", ""), 0.0);
    assert_eq!(score("", "abc"), 0.0);
    assert_eq!(score("", ""), 0.0);
}

#[test]
fn similarity_is_symmetric() {
    let ab = bigm_similarity("word", "world");
    let ba = bigm_similarity("world", "word");
    assert_eq!(ab.shared, ba.shared);
    assert_eq!(ab.max_len, ba.max_len);
}

#[test]
fn similarity_exact_fraction() {
    // " abc ": { a, ab, bc, c };  " abd ": { a, ab, bd, d }
    let s = bigm_similarity("abc", "abd");
    assert_eq!(s.shared, 2);
    assert_eq!(s.max_len, 4);
    assert_eq!(score("abc", "abd"), 0.5);
}

#[test]
fn similarity_counts_distinct_bigrams_once() {
    // " aaa ": { a, aa, a } deduplicates to 3 bigrams
    let s = bigm_similarity("aaa", "aa");
    assert_eq!(s.max_len, 3);
    assert_eq!(s.shared, 3);
}

#[test]
fn similarity_of_disjoint_strings_is_zero() {
    let s = bigm_similarity("abc", "xyz");
    assert_eq!(s.shared, 0);
    assert_eq!(s.max_len, 4);
}

#[test]
fn similarity_of_multibyte_strings() {
    assert_eq!(score("日本語", "日本語"), 1.0);
    let s = bigm_similarity("日本", "日本語");
    // " 日本 ": { 日, 日本, 本 };  " 日本語 ": { 日, 日本, 本語, 語 }
    assert_eq!(s.shared, 2);
    assert_eq!(s.max_len, 4);
}
