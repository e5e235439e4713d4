use zg::index::chunking::{document_chunks, IndexedChunk};
use zg::index::code_symbols::{
    build_symbol_chunks, expand_identifier_terms, supports_code_symbol_indexing, CodeLanguage,
};

fn kind_is(chunk: &IndexedChunk, kind: &str) -> bool {
    chunk.symbol_kind.as_deref() == Some(kind)
}

#[test]
fn rust_symbol_chunks_extract_function_and_struct() {
    let body = "\n/// parse docs\npub fn parse_query(input: &str) -> String {\n    let retry_backoff_ms = input.len();\n    retry_backoff_ms.to_string()\n}\n\npub struct Parser;\npub const DEFAULT_LIMIT: usize = 20;\n";
    let chunks = build_symbol_chunks("src/lib.rs", body);
    assert!(chunks.iter().any(|chunk| kind_is(chunk, "function")));
    assert!(chunks.iter().any(|chunk| kind_is(chunk, "struct")));
    assert!(chunks.iter().any(|chunk| kind_is(chunk, "constant")));
    assert!(chunks
        .iter()
        .any(|chunk| chunk.normalized_text.contains("path: src/lib.rs")));
    assert!(chunks
        .iter()
        .any(|chunk| chunk.shared_normalized_text.contains("retry backoff ms")));
    assert!(chunks
        .iter()
        .all(|chunk| !chunk.shared_normalized_text.contains("path:")));
    assert!(chunks
        .iter()
        .all(|chunk| !chunk.shared_normalized_text.contains("doc:")));
}

#[test]
fn python_symbol_chunks_extract_class_and_function() {
    let body = "\n# alpha docs\nDEFAULT_LIMIT = 20\n\nclass Parser:\n    pass\n\ndef parse_query(input):\n    return input\n";
    let chunks = build_symbol_chunks("parser.py", body);
    assert!(chunks.iter().any(|chunk| kind_is(chunk, "class")));
    assert!(chunks.iter().any(|chunk| kind_is(chunk, "function")));
    assert!(chunks.iter().any(|chunk| kind_is(chunk, "constant")));
}

#[test]
fn python_docstring_is_used_when_leading_comment_is_missing() {
    let body = "\ndef parse_query(input):\n    \"\"\"query parser docs\"\"\"\n    return input\n";
    let chunks = build_symbol_chunks("parser.py", body);
    assert!(chunks
        .iter()
        .any(|chunk| chunk.normalized_text.contains("query parser docs")));
}

#[test]
fn javascript_symbol_chunks_extract_class_function_and_bindings() {
    let body = "\n// docs\nclass Parser {}\n\nfunction parseQuery(input) { return input; }\nconst makeParser = (input) => input;\nconst DEFAULT_LIMIT = 20;\n";
    let chunks = build_symbol_chunks("parser.js", body);
    assert!(chunks.iter().any(|chunk| kind_is(chunk, "class")));
    assert!(chunks.iter().any(|chunk| kind_is(chunk, "function")));
    assert!(chunks.iter().filter(|chunk| kind_is(chunk, "function")).count() >= 2);
    assert!(chunks.iter().any(|chunk| kind_is(chunk, "constant")));
}

#[test]
fn typescript_symbol_chunks_extract_bindings() {
    let body = "\ninterface ParserOptions {}\nconst makeParser = (input: string) => input;\nconst DEFAULT_LIMIT = 20;\n";
    let chunks = build_symbol_chunks("parser.ts", body);
    assert!(chunks.iter().any(|chunk| kind_is(chunk, "interface")));
    assert!(chunks.iter().filter(|chunk| kind_is(chunk, "function")).count() >= 1);
    assert!(chunks.iter().any(|chunk| kind_is(chunk, "constant")));
}

#[test]
fn symbol_chunks_carry_their_language_and_lines() {
    let body = "fn alpha() {}\n\nstruct Beta;\n";
    let chunks = build_symbol_chunks("lib.rs", body);
    assert_eq!(chunks.len(), 2);
    assert_eq!(chunks[0].chunk_kind, "symbol");
    assert_eq!(chunks[0].language.as_deref(), Some("rust"));
    assert_eq!(chunks[0].line_start, 1);
    assert_eq!(chunks[1].line_start, 3);
    assert_eq!(chunks[0].chunk_index, 0);
    assert_eq!(chunks[1].chunk_index, 1);
}

#[test]
fn method_chunks_name_their_container() {
    let body = "struct Parser;\n\nimpl Parser {\n    fn parse(&self) {}\n}\n";
    let chunks = build_symbol_chunks("lib.rs", body);
    assert!(chunks.iter().any(|chunk| kind_is(chunk, "function")
        && chunk.container.as_deref() == Some("Parser")));
}

#[test]
fn documents_of_other_types_have_no_symbol_chunks() {
    assert!(build_symbol_chunks("notes.md", "fn alpha() {}\n").is_empty());
    assert!(!supports_code_symbol_indexing("notes.md"));
    assert!(supports_code_symbol_indexing("src/main.rs"));
    assert!(supports_code_symbol_indexing("app.tsx"));
}

#[test]
fn languages_are_detected_from_extensions() {
    assert_eq!(CodeLanguage::detect("a.rs"), Some(CodeLanguage::Rust));
    assert_eq!(CodeLanguage::detect("a.py"), Some(CodeLanguage::Python));
    assert_eq!(CodeLanguage::detect("a.mjs"), Some(CodeLanguage::JavaScript));
    assert_eq!(CodeLanguage::detect("a.ts"), Some(CodeLanguage::TypeScript));
    assert_eq!(CodeLanguage::detect("a.tsx"), Some(CodeLanguage::Tsx));
    assert_eq!(CodeLanguage::detect("a.txt"), None);
    assert_eq!(CodeLanguage::Tsx.as_str(), "tsx");
}

#[test]
fn identifier_terms_split_case_and_separators() {
    let terms: Vec<String> = expand_identifier_terms("retry_backoff_ms parseQuery")
        .into_iter()
        .map(|t| t.into_iter().collect())
        .collect();
    assert!(terms.contains(&"retry".to_string()));
    assert!(terms.contains(&"backoff".to_string()));
    assert!(terms.contains(&"parse".to_string()));
    assert!(terms.contains(&"query".to_string()));
}

#[test]
fn document_chunks_number_symbols_after_text_chunks() {
    let body = "fn alpha() {}\n";
    let chunks = document_chunks("lib.rs", body).unwrap();
    assert_eq!(chunks.len(), 2);
    assert_eq!(chunks[0].chunk_kind, "text");
    assert_eq!(chunks[0].chunk_index, 0);
    assert_eq!(chunks[1].chunk_kind, "symbol");
    assert_eq!(chunks[1].chunk_index, 1);
}
