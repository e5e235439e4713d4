use zg::index::chunking::{
    build_chunks, bytes_are_text_whitelisted, indexable_document, is_candidate_file_name,
    strip_line_decorator,
};
use zg::index::types::{parse_index_level, IndexLevel};

#[test]
fn lines_split_at_markers_and_short_pieces_merge() {
    let chunks = build_chunks("- alpha\nbeta :: gamma\n");
    assert_eq!(chunks.len(), 1);
    assert_eq!(chunks[0].raw_text, "alpha\nbeta\ngamma");
    assert_eq!(chunks[0].chunk_kind, "text");
    assert_eq!(chunks[0].chunk_index, 0);
}

#[test]
fn long_lines_stay_separate_chunks() {
    let a = "a".repeat(60);
    let b = "b".repeat(60);
    let chunks = build_chunks(&format!("{a}\n{b}\n"));
    assert_eq!(chunks.len(), 2);
    assert_eq!(chunks[0].raw_text, a);
    assert_eq!(chunks[1].line_start, 2);
    assert_eq!(chunks[1].chunk_index, 1);
}

#[test]
fn blank_lines_yield_no_chunks() {
    assert!(build_chunks("").is_empty());
    assert!(build_chunks("\n\n   \n").is_empty());
    assert!(build_chunks(" :: \n").is_empty());
}

#[test]
fn decorators_are_stripped() {
    let strip = |s: &str| -> String {
        strip_line_decorator(&s.chars().collect::<Vec<_>>()).into_iter().collect()
    };
    assert_eq!(strip("- item"), "item");
    assert_eq!(strip("## Heading"), "Heading");
    assert_eq!(strip("> quoted"), "quoted");
    assert_eq!(strip("plain"), "plain");
}

#[test]
fn normalized_text_is_lowercase_words() {
    let chunks = build_chunks("Sqlite   VECTOR\tadapter");
    assert_eq!(chunks[0].normalized_text, "sqlite vector adapter");
    assert_eq!(chunks[0].shared_normalized_text, "sqlite vector adapter");
}

#[test]
fn text_whitelist_rejects_binary_and_control_bytes() {
    assert!(bytes_are_text_whitelisted(b"hello\tworld\n"));
    assert!(!bytes_are_text_whitelisted(b"nul\0byte"));
    assert!(!bytes_are_text_whitelisted(&[0xff, 0xfe]));
    assert!(!bytes_are_text_whitelisted(b"bell\x07"));
    assert!(bytes_are_text_whitelisted("caf\u{e9}".as_bytes()));
}

#[test]
fn documents_carry_size_time_and_hash() {
    let doc = indexable_document("a.md", b"hello", 77).unwrap();
    assert_eq!(doc.size_bytes, 5);
    assert_eq!(doc.modified_unix_ms, 77);
    assert_eq!(doc.content_hash, "a430d84680aabd0b");
    assert_eq!(doc.chunks.len(), 1);
    assert!(indexable_document("a.md", b"", 1).is_none());
    assert!(indexable_document("a.md", b"  \n\n", 1).is_none());
    assert!(indexable_document("a.md", b"\0", 1).is_none());
}

#[test]
fn collect_candidate_files_uses_suffix_whitelist() {
    assert!(is_candidate_file_name("/r/keep.md"));
    assert!(!is_candidate_file_name("/r/skip.bin"));
}

#[test]
fn candidate_names_cover_documents_project_files_and_code() {
    assert!(is_candidate_file_name("notes/journal.rst"));
    assert!(is_candidate_file_name("NOTES.MD"));
    assert!(is_candidate_file_name("src/main.rs"));
    assert!(is_candidate_file_name("parser.py"));
    assert!(!is_candidate_file_name("image.png"));
    assert!(!is_candidate_file_name(""));
}

#[test]
fn index_levels_parse_and_print() {
    assert_eq!(parse_index_level("fts").unwrap(), IndexLevel::Fts);
    assert_eq!(parse_index_level("fts+vector").unwrap(), IndexLevel::FtsVector);
    assert!(parse_index_level("vector").is_err());
    assert_eq!(IndexLevel::FtsVector.as_str(), "fts+vector");
    assert!(IndexLevel::FtsVector.vectors_enabled());
    assert!(!IndexLevel::Fts.vectors_enabled());
    assert_eq!(IndexLevel::Fts.recommended_chunk_limit(), 3000);
    assert_eq!(IndexLevel::FtsVector.init_force_chunk_limit(), 10240);
}
