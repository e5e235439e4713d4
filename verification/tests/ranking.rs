use zg::index::ranking::{
    dedupe_literal_rows, finish_hits, keep_mergeable_vector_rows, limit_semantic_only_hits,
    merge_ranked_hits, sort_ranked_hits, vector_score_is_mergeable, RankedHit, StoredChunk,
    MIN_VECTOR_SCORE_KEY, RRF_K, ZERO_SCORE_KEY,
};
use zg::index::types::MAX_SEMANTIC_ONLY_HITS_WITH_LEXICAL;

/// The order key of a score: keys compare as the scores do.
fn key(score: f64) -> u64 {
    let bits = score.to_bits();
    if score >= 0.0 {
        bits | (1u64 << 63)
    } else {
        !bits
    }
}

struct Row<'a> {
    chunk_id: i64,
    rel_path: &'a str,
    chunk_index: usize,
    line_start: usize,
    line_end: usize,
    lexical: f64,
    vector: f64,
}

fn row(input: Row<'_>) -> StoredChunk {
    StoredChunk {
        chunk_id: input.chunk_id,
        rel_path: input.rel_path.to_string(),
        chunk_index: input.chunk_index,
        line_start: input.line_start,
        line_end: input.line_end,
        chunk_kind: "text".to_string(),
        language: None,
        lexical_key: key(input.lexical),
        vector_key: key(input.vector),
        indexed_text_match: input.lexical > 0.0,
        partial_text_match: false,
        literal_line_number: None,
        literal_preview: None,
    }
}

fn plain(chunk_id: i64, rel_path: &str, lexical: f64, vector: f64) -> StoredChunk {
    row(Row {
        chunk_id,
        rel_path,
        chunk_index: 0,
        line_start: 1,
        line_end: 1,
        lexical,
        vector,
    })
}

fn hit(rel_path: &str, lexical: f64, vector: f64, indexed: bool) -> RankedHit {
    RankedHit {
        chunk_id: 0,
        rel_path: rel_path.to_string(),
        snippet: String::new(),
        line_start: 1,
        line_end: 1,
        lexical_key: key(lexical),
        vector_key: key(vector),
        indexed_text_match: indexed,
        partial_text_match: false,
        literal_line_number: None,
        literal_preview: None,
        chunk_index: 0,
        chunk_kind: "text".to_string(),
        language: None,
        lexical_rank: None,
        literal_rank: None,
        vector_rank: None,
    }
}

#[test]
fn score_keys_order_like_scores() {
    assert_eq!(key(0.0), ZERO_SCORE_KEY);
    assert_eq!(key(0.20), MIN_VECTOR_SCORE_KEY);
    assert!(key(-0.5) < key(0.0));
    assert!(key(0.1) < key(0.2));
    assert!(key(1.5) < key(2.0));
}

#[test]
fn hybrid_merge_keeps_lexical_only_and_vector_only_candidates_visible() {
    let hits = merge_ranked_hits(
        vec![plain(1, "alpha.md", 2.0, 0.0)],
        Vec::new(),
        vec![plain(2, "beta.md", 0.0, 0.9)],
    );

    assert_eq!(hits.len(), 2);
    assert!(hits
        .iter()
        .any(|hit| hit.rel_path == "alpha.md" && hit.lexical_key > ZERO_SCORE_KEY));
    assert!(hits
        .iter()
        .any(|hit| hit.rel_path == "beta.md" && hit.vector_key > ZERO_SCORE_KEY));
}

#[test]
fn hybrid_merge_rewards_dual_channel_hits() {
    let hits = merge_ranked_hits(
        vec![plain(1, "alpha.md", 1.5, 0.0), plain(2, "beta.md", 1.4, 0.0)],
        Vec::new(),
        vec![plain(1, "alpha.md", 0.0, 0.8), plain(3, "gamma.md", 0.0, 0.7)],
    );

    assert_eq!(hits[0].rel_path, "alpha.md");
    assert!(hits
        .iter()
        .any(|hit| hit.rel_path == "beta.md" && hit.lexical_key > ZERO_SCORE_KEY));
    assert!(hits
        .iter()
        .any(|hit| hit.rel_path == "gamma.md" && hit.vector_key > ZERO_SCORE_KEY));
}

#[test]
fn partial_hits_sort_ahead_of_non_partial_hits() {
    let hits = merge_ranked_hits(
        vec![plain(1, "alpha.md", 1.8, 0.0)],
        vec![StoredChunk {
            chunk_id: 2,
            rel_path: "beta.md".to_string(),
            chunk_index: 0,
            line_start: 3,
            line_end: 3,
            chunk_kind: "text".to_string(),
            language: None,
            lexical_key: key(1.0),
            vector_key: key(0.0),
            indexed_text_match: false,
            partial_text_match: true,
            literal_line_number: Some(3),
            literal_preview: Some("beta literal".to_string()),
        }],
        vec![plain(3, "gamma.md", 0.0, 0.9)],
    );

    assert_eq!(hits[0].rel_path, "beta.md");
    assert_eq!(hits[1].rel_path, "alpha.md");
    assert_eq!(hits[2].rel_path, "gamma.md");
}

#[test]
fn weak_vector_scores_are_filtered_before_rank_fusion() {
    let lexical_rows = vec![plain(1, "alpha.md", 1.3, 0.0)];
    let vector_rows = keep_mergeable_vector_rows(vec![
        plain(1, "alpha.md", 0.0, 0.05),
        plain(2, "beta.md", 0.0, 0.19),
        plain(3, "gamma.md", 0.0, 0.35),
    ]);

    let hits = merge_ranked_hits(lexical_rows, Vec::new(), vector_rows);

    assert_eq!(hits.len(), 2);
    assert!(hits.iter().any(|hit| hit.rel_path == "alpha.md"
        && hit.lexical_key > ZERO_SCORE_KEY
        && hit.vector_key == ZERO_SCORE_KEY));
    assert!(!hits.iter().any(|hit| hit.rel_path == "beta.md"));
    assert!(hits
        .iter()
        .any(|hit| hit.rel_path == "gamma.md" && hit.vector_key > ZERO_SCORE_KEY));
}

#[test]
fn vector_merge_floor_keeps_meaningful_semantic_matches() {
    assert!(!vector_score_is_mergeable(key(0.20 - 0.01)));
    assert!(vector_score_is_mergeable(MIN_VECTOR_SCORE_KEY));
    assert!(vector_score_is_mergeable(key(0.42)));
}

#[test]
fn semantic_only_hits_are_capped_when_lexical_hits_exist() {
    let hits = limit_semantic_only_hits(vec![
        hit("alpha.md", 1.0, 0.4, true),
        hit("beta.md", 0.0, 0.6, false),
        hit("gamma.md", 0.0, 0.5, false),
        hit("delta.md", 0.0, 0.4, false),
        hit("epsilon.md", 0.0, 0.3, false),
        hit("zeta.md", 0.0, 0.29, false),
        hit("eta.md", 0.0, 0.28, false),
    ]);

    assert_eq!(hits.len(), 1 + MAX_SEMANTIC_ONLY_HITS_WITH_LEXICAL);
    assert!(hits.iter().any(|hit| hit.rel_path == "alpha.md"));
    assert!(hits.iter().any(|hit| hit.rel_path == "beta.md"));
    assert!(hits.iter().any(|hit| hit.rel_path == "gamma.md"));
    assert!(hits.iter().any(|hit| hit.rel_path == "delta.md"));
    assert!(hits.iter().any(|hit| hit.rel_path == "epsilon.md"));
    assert!(hits.iter().any(|hit| hit.rel_path == "zeta.md"));
    assert!(!hits.iter().any(|hit| hit.rel_path == "eta.md"));
}

#[test]
fn semantic_only_hits_are_not_capped_without_lexical_hits() {
    let hits = limit_semantic_only_hits(vec![
        hit("beta.md", 0.0, 0.6, false),
        hit("gamma.md", 0.0, 0.5, false),
        hit("delta.md", 0.0, 0.4, false),
    ]);

    assert_eq!(hits.len(), 3);
}

#[test]
fn merged_hits_carry_each_channel_rank_and_drop_scoreless_rows() {
    let hits = merge_ranked_hits(
        vec![plain(7, "a.md", 1.0, 0.0), plain(8, "b.md", 0.0, 0.0)],
        Vec::new(),
        vec![plain(9, "c.md", 0.0, 0.5), plain(7, "a.md", 0.0, 0.3)],
    );
    assert_eq!(hits.len(), 2);
    assert_eq!(hits[0].chunk_id, 7);
    assert_eq!(hits[0].lexical_rank, Some(0));
    assert_eq!(hits[0].vector_rank, Some(1));
    assert_eq!(hits[0].vector_key, key(0.3));
    assert_eq!(hits[1].chunk_id, 9);
    assert_eq!(hits[1].vector_rank, Some(0));
}

#[test]
fn equal_ranked_hits_are_ordered_by_path() {
    let hits = sort_ranked_hits(vec![
        hit("b.md", 1.0, 0.0, true),
        hit("a.md", 1.0, 0.0, true),
    ]);
    assert_eq!(hits[0].rel_path, "a.md");
    assert_eq!(hits[1].rel_path, "b.md");
}

#[test]
fn literal_rows_keep_one_row_per_chunk() {
    let rows = dedupe_literal_rows(vec![
        plain(1, "a.md", 1.0, 0.0),
        plain(1, "a.md", 2.0, 0.0),
        plain(2, "b.md", 1.0, 0.0),
    ]);
    assert_eq!(rows.len(), 2);
    assert_eq!(rows[0].chunk_id, 1);
    assert_eq!(rows[1].chunk_id, 2);
}

#[test]
fn fusion_constant_is_twenty() {
    assert_eq!(RRF_K, 20);
}

#[test]
fn fused_scores_are_compared_exactly() {
    // "b.md" is ranked 1st lexically and 11th by literal recall: 1/20 + 1/30 = 1/12.
    // "a.md" is ranked 2nd lexically and 9th by literal recall: 1/21 + 1/28 = 1/12.
    // The scores tie exactly (in f64 the first comes out a hair larger), so the lexical score
    // and then the path decide.
    let lexical = vec![plain(1, "b.md", 1.0, 0.0), plain(2, "a.md", 1.0, 0.0)];
    let mut literal = Vec::new();
    for k in 0..8 {
        literal.push(plain(50 + k, "dropped.md", 0.0, 0.0));
    }
    literal.push(plain(2, "a.md", 1.0, 0.0));
    literal.push(plain(60, "dropped.md", 0.0, 0.0));
    literal.push(plain(1, "b.md", 1.0, 0.0));

    let hits = merge_ranked_hits(lexical, literal, Vec::new());

    assert_eq!(hits.len(), 2);
    assert_eq!(hits[0].rel_path, "a.md");
    assert_eq!(hits[0].lexical_rank, Some(1));
    assert_eq!(hits[0].literal_rank, Some(8));
    assert_eq!(hits[1].rel_path, "b.md");
    assert_eq!(hits[1].literal_rank, Some(10));
}

#[test]
fn a_higher_fused_score_ranks_first() {
    // "b.md" at lexical rank 1 and literal rank 0 (1/21 + 1/20) beats "a.md" at lexical rank 0
    // alone (1/20), whatever their paths.
    let hits = merge_ranked_hits(
        vec![plain(1, "a.md", 2.0, 0.0), plain(2, "b.md", 1.0, 0.0)],
        vec![plain(2, "b.md", 1.0, 0.0)],
        Vec::new(),
    );
    assert_eq!(hits[0].rel_path, "b.md");
    assert_eq!(hits[1].rel_path, "a.md");
}

#[test]
fn finished_hits_are_capped_then_limited() {
    let hits = vec![
        hit("alpha.md", 1.0, 0.4, true),
        hit("beta.md", 0.0, 0.6, false),
        hit("gamma.md", 0.0, 0.5, false),
        hit("delta.md", 0.0, 0.4, false),
        hit("epsilon.md", 0.0, 0.3, false),
        hit("zeta.md", 0.0, 0.29, false),
        hit("eta.md", 0.0, 0.28, false),
    ];
    let capped = finish_hits(hits, true, 100);
    assert_eq!(capped.len(), 1 + MAX_SEMANTIC_ONLY_HITS_WITH_LEXICAL);

    let hits = vec![
        hit("alpha.md", 1.0, 0.0, true),
        hit("beta.md", 0.0, 0.6, false),
        hit("gamma.md", 0.0, 0.5, false),
    ];
    let limited = finish_hits(hits, false, 2);
    assert_eq!(limited.len(), 2);
    assert_eq!(limited[0].rel_path, "alpha.md");
    assert_eq!(limited[1].rel_path, "beta.md");
}
