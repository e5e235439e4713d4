use zg::{matches_query, normalize_query, split_terms, Query};

#[test]
fn normalize_query_trims_and_folds_whitespace() {
    assert_eq!(normalize_query("  Foo\tbar\nBAZ  "), "foo bar baz");
}

#[test]
fn split_terms_uses_normalized_tokens() {
    assert_eq!(split_terms("  zg   Search "), ["zg", "search"]);
}

#[test]
fn empty_query_matches_any_candidate() {
    let query = Query::new("   ");
    assert!(query.matches("anything"));
}

#[test]
fn query_matches_all_terms_case_insensitively() {
    let query = Query::new("zg rust");
    assert!(query.matches("Building ZG tools with Rust nightly"));
    assert!(!query.matches("Building zg tools with Python"));
}

#[test]
fn matches_query_supports_one_off_checks() {
    assert!(matches_query("mini grep", "A tiny mini GREP-like utility"));
}

#[test]
fn query_exposes_normalized_text_and_terms() {
    let query = Query::new("  Hybrid\tSEARCH  ");
    assert_eq!(query.normalized(), "hybrid search");
    assert_eq!(query.terms(), ["hybrid", "search"]);
    assert!(!query.is_empty());
    assert!(Query::new(" \n\t ").is_empty());
}

#[test]
fn query_term_order_does_not_matter_but_every_term_must_occur() {
    assert!(matches_query("vector sqlite", "sqlite vector adapter"));
    assert!(!matches_query("vector postgres", "sqlite vector adapter"));
    assert!(matches_query("", ""));
}

#[test]
fn normalize_query_of_blank_input_is_empty() {
    assert_eq!(normalize_query(""), "");
    assert_eq!(normalize_query(" \t\r\n "), "");
    assert!(split_terms("   ").is_empty());
}

#[test]
fn a_query_without_terms_cannot_be_searched() {
    let error = zg::searchable_query("   ").err().unwrap();
    assert_eq!(error.message, "query is empty");
    let query = zg::searchable_query("  Mini   GREP ").ok().unwrap();
    assert_eq!(query.normalized(), "mini grep");
}

#[test]
fn normalizing_ascii_text_ignores_letter_case() {
    assert_eq!(normalize_query("GREP-like  Tool"), normalize_query("grep-LIKE tool"));
    assert_eq!(normalize_query("GREP-like  Tool"), "grep-like tool");
}

#[test]
fn normalizing_twice_changes_nothing() {
    let once = normalize_query("  Zettel\t NOTES  on   Rust ");
    assert_eq!(once, "zettel notes on rust");
    assert_eq!(normalize_query(&once), once);
}

#[test]
fn terms_joined_give_the_normalized_query() {
    let input = "  Zettel\t NOTES  on   Rust ";
    assert_eq!(split_terms(input).join(" "), normalize_query(input));
    assert!(split_terms(input).iter().all(|t| !t.is_empty() && !t.contains(' ')));
    assert!(Query::new("   ").is_empty());
    assert_eq!(Query::new("   ").normalized(), "");
}
