use zg::index::chunking::build_chunks;
use zg::index::ranking::RankedHit;
use zg::index::snippets::{materialize_live_snippets, render_snippet};

fn hit(rel_path: &str, chunk_index: usize, line: Option<usize>, preview: Option<&str>) -> RankedHit {
    RankedHit {
        chunk_id: 1,
        rel_path: rel_path.to_string(),
        snippet: String::new(),
        line_start: 999,
        line_end: 999,
        lexical_key: 0,
        vector_key: 0,
        indexed_text_match: preview.is_none(),
        partial_text_match: preview.is_some(),
        literal_line_number: line,
        literal_preview: preview.map(|p| p.to_string()),
        chunk_index,
        chunk_kind: "text".to_string(),
        language: None,
        lexical_rank: None,
        literal_rank: None,
        vector_rank: None,
    }
}

#[test]
fn materialize_live_snippets_prefers_literal_preview_for_partial_hits() {
    let body = "prefix line\nneedle exact line\nsuffix line\n";
    let files = vec![("alpha.md".to_string(), Some(build_chunks(body)))];
    let hits = vec![hit("alpha.md", 0, Some(2), Some("needle exact line"))];

    let hits = materialize_live_snippets(hits, &files);
    assert_eq!(hits.len(), 1);
    assert_eq!(hits[0].line_start, 2);
    assert_eq!(hits[0].line_end, 2);
    assert_eq!(hits[0].snippet, "needle exact line");
}

#[test]
fn materialize_live_snippets_drops_unreadable_results() {
    let files = vec![("missing.md".to_string(), None)];
    let hits = materialize_live_snippets(vec![hit("missing.md", 0, None, None)], &files);
    assert!(hits.is_empty());
    let hits = materialize_live_snippets(vec![hit("unlisted.md", 0, None, None)], &Vec::new());
    assert!(hits.is_empty());
}

#[test]
fn live_materialization_prefers_current_file_contents_over_stale_index_metadata() {
    let files = vec![("alpha.md".to_string(), Some(build_chunks("- real visible line")))];
    let hits = materialize_live_snippets(vec![hit("alpha.md", 0, None, None)], &files);
    assert_eq!(hits[0].snippet, "real visible line");
    assert_eq!(hits[0].line_start, 1);
    assert_eq!(hits[0].line_end, 1);
}

#[test]
fn hits_whose_chunk_is_gone_are_dropped() {
    let files = vec![("alpha.md".to_string(), Some(build_chunks("one line only")))];
    let hits = materialize_live_snippets(
        vec![hit("alpha.md", 5, None, None), hit("alpha.md", 0, None, None)],
        &files,
    );
    assert_eq!(hits.len(), 1);
    assert_eq!(hits[0].snippet, "one line only");
}

#[test]
fn snippets_are_trimmed_and_cut_at_two_hundred_bytes() {
    assert_eq!(render_snippet("  short  "), "short");
    let long = "a".repeat(250);
    let snippet = render_snippet(&long);
    assert_eq!(snippet.len(), 203);
    assert!(snippet.ends_with("..."));
    let exact = "b".repeat(200);
    assert_eq!(render_snippet(&exact), exact);
    let wide = "é".repeat(150);
    let snippet = render_snippet(&wide);
    assert_eq!(snippet, format!("{}...", "é".repeat(100)));
}
