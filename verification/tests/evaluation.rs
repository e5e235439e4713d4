use zg::index::chunking::indexable_document;
use zg::index::evaluation::{
    case_limit, check_expectations, compare_with_golden, normalize_snippet, probe_chunks,
    rank_hits, shared_chunk_count, summarize_cases, truncate_preview, CaseEvaluation,
    ExpectedSearchHit, FoundHit, SearchQualityCase, SearchQualityExpectations,
    SearchQualityGoldenHit,
};

#[test]
fn truncate_preview_preserves_char_boundaries() {
    let text = "alpha beta gamma delta epsilon";
    let preview = truncate_preview(text, 10);
    assert!(preview.starts_with("alpha beta"));
    assert!(preview.ends_with("..."));
}

#[test]
fn truncate_preview_keeps_short_text_and_cuts_at_char_boundaries() {
    assert_eq!(truncate_preview("short", 10), "short");
    assert_eq!(truncate_preview("alpha beta gamma", 10), "alpha beta...");
    // Each 'é' takes two bytes: five of them fill ten bytes exactly.
    assert_eq!(truncate_preview("ééééééééééé", 10), "ééééé...");
    assert_eq!(truncate_preview("aéééééééééé", 10), "aéééé...");
}

#[test]
fn normalize_snippet_scrubs_absolute_vault_path() {
    let root = "/tmp/ripgrep";
    let snippet = "function demo in /tmp/ripgrep/crates/demo.rs";
    assert_eq!(
        normalize_snippet(snippet, root),
        "function demo in <VAULT_ROOT>/crates/demo.rs"
    );
}

#[test]
fn normalize_snippet_reads_backslashes_in_the_root_as_slashes() {
    assert_eq!(
        normalize_snippet("see C:/vault/a.md and C:/vault/b.md", "C:\\vault"),
        "see <VAULT_ROOT>/a.md and <VAULT_ROOT>/b.md"
    );
    assert_eq!(normalize_snippet("ab", ""), "<VAULT_ROOT>a<VAULT_ROOT>b<VAULT_ROOT>");
}

#[test]
fn chunk_probe_uses_current_chunking_rules() {
    let document = indexable_document("note.md", "- alpha\nbeta :: gamma\n".as_bytes(), 0);
    let report = probe_chunks("note.md", document).unwrap();
    assert_eq!(report.chunk_count, 1);
    assert_eq!(report.chunks[0].raw_text, "alpha\nbeta\ngamma");
    assert_eq!(report.chunks[0].normalized_text, "alpha beta gamma");
    assert_eq!(report.chunks[0].shared_normalized_text_hash, "29496d94f8235e1e");
    assert_eq!(report.chunks[0].line_start, 1);
    assert_eq!(report.chunks[0].line_end, 2);
}

#[test]
fn chunk_probe_rejects_files_that_are_not_indexable() {
    let document = indexable_document("empty.md", "".as_bytes(), 0);
    let error = probe_chunks("empty.md", document).unwrap_err();
    assert_eq!(
        error.message,
        "empty.md is not indexable under the current chunking/content rules"
    );
}

fn golden_hit(rank: usize, rel_path: &str, snippet: &str) -> SearchQualityGoldenHit {
    SearchQualityGoldenHit {
        rank,
        rel_path: rel_path.to_string(),
        line_start: 1,
        line_end: 1,
        snippet: snippet.to_string(),
    }
}

#[test]
fn expectations_pass_when_the_path_is_near_the_top() {
    let observed = vec![
        golden_hit(1, "alpha.md", "sqlite vector adapter"),
        golden_hit(2, "beta.md", "haystack builder"),
    ];
    let expected = vec![ExpectedSearchHit {
        path: "alpha.md".to_string(),
        within_top: 1,
        snippet_contains: Some("sqlite vector adapter".to_string()),
    }];
    assert!(check_expectations(&observed, &expected).is_empty());

    let missing = vec![ExpectedSearchHit {
        path: "beta.md".to_string(),
        within_top: 1,
        snippet_contains: None,
    }];
    assert_eq!(check_expectations(&observed, &missing).len(), 1);
}

#[test]
fn golden_comparison_reports_each_difference() {
    let expected = vec![golden_hit(1, "alpha.md", "a"), golden_hit(2, "beta.md", "b")];
    assert!(compare_with_golden("case", &expected, &expected.clone()).is_empty());
    let actual = vec![golden_hit(1, "beta.md", "b")];
    assert!(!compare_with_golden("case", &expected, &actual).is_empty());
}

#[test]
fn ranked_hits_are_numbered_from_one_and_scrubbed() {
    let hits = vec![
        FoundHit {
            rel_path: "a.md".to_string(),
            line_start: 3,
            line_end: 4,
            snippet: "in /v/a.md".to_string(),
        },
        FoundHit {
            rel_path: "b.md".to_string(),
            line_start: 1,
            line_end: 1,
            snippet: "plain".to_string(),
        },
    ];
    let ranked = rank_hits(&hits, "/v");
    assert_eq!(ranked.len(), 2);
    assert_eq!(ranked[0].rank, 1);
    assert_eq!(ranked[0].snippet, "in <VAULT_ROOT>/a.md");
    assert_eq!(ranked[1].rank, 2);
    assert_eq!(ranked[1].rel_path, "b.md");
}

#[test]
fn case_limit_prefers_the_case_own_limit() {
    let mut case = SearchQualityCase {
        id: "c".to_string(),
        query: "q".to_string(),
        scope: None,
        notes: None,
        limit: None,
        expectations: SearchQualityExpectations {
            must_include: Vec::new(),
        },
    };
    assert_eq!(case_limit(&case, 7), 7);
    case.limit = Some(3);
    assert_eq!(case_limit(&case, 7), 3);
}

#[test]
fn shared_chunk_counts_keep_a_short_preview() {
    let long = "x".repeat(300);
    let count = shared_chunk_count(4, &long);
    assert_eq!(count.ref_count, 4);
    assert!(count.normalized_text_preview.ends_with("..."));
    assert_eq!(count.normalized_text_preview.len(), 123);
}

#[test]
fn suite_summary_counts_failures() {
    let summary = summarize_cases(&Vec::<CaseEvaluation>::new());
    assert_eq!(summary.total_cases, 0);
    assert!(summary.passed());
}
