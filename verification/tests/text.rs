use zg::text::{decimal_string, same_text, to_lowercase};

#[test]
fn decimals_are_spelled_in_base_ten() {
    assert_eq!(decimal_string(0), "0");
    assert_eq!(decimal_string(10240), "10240");
    assert_eq!(decimal_string(u64::MAX), "18446744073709551615");
}

#[test]
fn lowercase_covers_unicode() {
    assert_eq!(to_lowercase("ÄBC"), "äbc");
}

#[test]
fn text_equality_compares_characters() {
    assert!(same_text("abc", "abc"));
    assert!(!same_text("abc", "abd"));
    assert!(!same_text("abc", "ab"));
}
