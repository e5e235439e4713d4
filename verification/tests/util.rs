use zg::index::embedding::{
    check_embedding_count, configured_fastembed_batch_size, embedding_inputs,
    fastembed_env_summary, parse_u64, passage_embed_delay_ms, DEFAULT_FASTEMBED_BATCH_SIZE,
};
use zg::index::util::{
    fnv1a64, relative_path_string, scope_kind, stable_hash, stable_text_hash,
    to_forward_slashes, ScopeKind,
};

#[test]
fn fnv_hash_matches_known_values() {
    assert_eq!(fnv1a64(b""), 0xcbf29ce484222325);
    assert_eq!(fnv1a64(b"a"), 0xaf63dc4c8601ec8c);
    assert_eq!(stable_hash(b"hello"), "a430d84680aabd0b");
    assert_eq!(stable_text_hash("alpha beta gamma"), "29496d94f8235e1e");
    assert_eq!(stable_hash(b"").len(), 16);
}

#[test]
fn backslashes_become_slashes() {
    assert_eq!(to_forward_slashes("a\\b\\c.md"), "a/b/c.md");
    assert_eq!(to_forward_slashes("a/b"), "a/b");
}

#[test]
fn relative_paths_are_taken_under_the_root() {
    assert_eq!(relative_path_string("/r", "/r/notes/a.md").unwrap(), "notes/a.md");
    assert_eq!(
        relative_path_string("/r", "/s/a.md").unwrap_err().message,
        "/s/a.md is not under /r"
    );
}

#[test]
fn scopes_are_classified_against_the_root() {
    assert!(matches!(scope_kind("/r", "/r", false).unwrap(), ScopeKind::Root));
    match scope_kind("/r", "/r/notes/a.md", true).unwrap() {
        ScopeKind::File(rel) => assert_eq!(rel, "notes/a.md"),
        _ => panic!("expected a file scope"),
    }
    match scope_kind("/r", "/r/notes", false).unwrap() {
        ScopeKind::Directory(rel, prefix) => {
            assert_eq!(rel, "notes");
            assert_eq!(prefix, "notes/%");
        }
        _ => panic!("expected a directory scope"),
    }
    assert!(scope_kind("/r", "/elsewhere", false).is_err());
}

#[test]
fn batch_size_defaults_to_fastembed_default() {
    assert_eq!(configured_fastembed_batch_size(None), DEFAULT_FASTEMBED_BATCH_SIZE);
    assert_eq!(configured_fastembed_batch_size(Some("0")), DEFAULT_FASTEMBED_BATCH_SIZE);
    assert_eq!(configured_fastembed_batch_size(Some("abc")), DEFAULT_FASTEMBED_BATCH_SIZE);
}

#[test]
fn batch_size_can_be_overridden_by_env() {
    assert_eq!(configured_fastembed_batch_size(Some("64")), 64);
    assert_eq!(configured_fastembed_batch_size(Some(" 8 ")), DEFAULT_FASTEMBED_BATCH_SIZE);
}

#[test]
fn unsigned_integers_parse_like_std() {
    assert_eq!(parse_u64("42"), Some(42));
    assert_eq!(parse_u64("+7"), Some(7));
    assert_eq!(parse_u64("18446744073709551615"), Some(u64::MAX));
    assert_eq!(parse_u64("18446744073709551616"), None);
    assert_eq!(parse_u64(""), None);
    assert_eq!(parse_u64("-1"), None);
    assert_eq!(parse_u64("1 2"), None);
}

#[test]
fn passage_delay_must_be_a_number() {
    assert_eq!(passage_embed_delay_ms(None).unwrap(), 0);
    assert_eq!(passage_embed_delay_ms(Some("250")).unwrap(), 250);
    assert!(passage_embed_delay_ms(Some("soon")).is_err());
}

#[test]
fn embedding_inputs_carry_their_prefix() {
    let inputs = embedding_inputs(&vec!["alpha".to_string(), "beta".to_string()], "passage");
    assert_eq!(inputs, vec!["passage: alpha".to_string(), "passage: beta".to_string()]);
}

#[test]
fn embedding_count_must_match() {
    assert!(check_embedding_count(2, 2).is_ok());
    assert!(check_embedding_count(2, 1).is_err());
}

#[test]
fn env_summary_lists_pairs() {
    let summary = fastembed_env_summary(&vec![("A".to_string(), "1".to_string())]);
    assert!(summary.contains("A"));
    assert!(summary.contains("1"));
}
