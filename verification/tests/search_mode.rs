use zg::search::{is_probably_regex, resolve_search_mode, SearchMode};

#[test]
fn alternation_is_treated_as_regex() {
    assert!(is_probably_regex("TODO|FIXME"));
}

#[test]
fn c_plus_plus_stays_plain_text() {
    assert!(!is_probably_regex("C++"));
}

#[test]
fn dotted_versions_stay_plain_text() {
    assert!(!is_probably_regex("v1.2.3"));
}

#[test]
fn repetition_with_braces_is_treated_as_regex() {
    assert!(is_probably_regex("colou?r{1,2}"));
}

#[test]
fn plain_words_stay_plain_text() {
    assert!(!is_probably_regex("sqlite vector"));
    assert!(!is_probably_regex(""));
}

#[test]
fn anchors_and_classes_are_regex() {
    assert!(is_probably_regex("^fn main"));
    assert!(is_probably_regex("[a-z]+"));
    assert!(is_probably_regex("foo\\d+"));
}

#[test]
fn search_mode_follows_regex_shape() {
    assert_eq!(resolve_search_mode("TODO|FIXME"), SearchMode::Regex);
    assert_eq!(resolve_search_mode("sqlite vector"), SearchMode::Indexed);
}

#[test]
fn context_widens_within_the_file() {
    let context = zg::search::SearchContext { before: 2, after: 3 };
    assert_eq!(context.widen(5, 6, 100), (3, 9));
    assert_eq!(context.widen(1, 1, 100), (1, 4));
    assert_eq!(context.widen(9, 9, 10), (7, 10));
    assert_eq!(context.widen(9, 12, 10), (7, 12));
}
