use zg::index::chunking::indexable_document;
use zg::index::sync::{
    best_effort_overlap_note, covering_root_failure, index_worker_count, dirty_candidates, load_index_level,
    load_status, preflight_init, rebuild_level, rebuild_plan, reconcile_plan,
    require_index_root_for_search, retry_delay_ms, status_for_index_root, validate_schema,
    write_lock_retry_exhausted, FileRecord, IndexCounts, LastRun, StateRow,
    REQUIRED_TABLE_COUNT,
};
use zg::index::types::{IndexLevel, VECTOR_PROMPT_MAX_CHUNKS};
use zg::index::chunking::build_chunks;
use zg::paths::index_root_candidates;

fn long_chunk_body(lines: usize) -> String {
    let mut body = (0..lines)
        .map(|index| format!("line {index:05} xxxxxxxxxxxxxxxxxxxxxxxxxxxxxxxxxxxxxxxxxxxxxxxxxxx"))
        .collect::<Vec<_>>()
        .join("\n");
    body.push('\n');
    body
}

#[test]
fn preflight_init_requires_force_for_oversized_vector_index() {
    let body = long_chunk_body(VECTOR_PROMPT_MAX_CHUNKS * 10 + 1);
    let estimated = build_chunks(&body).len();
    let preflight = preflight_init(IndexLevel::FtsVector, estimated);

    assert_eq!(preflight.estimated_chunks, VECTOR_PROMPT_MAX_CHUNKS * 10 + 1);
    assert_eq!(preflight.recommended_chunk_limit, VECTOR_PROMPT_MAX_CHUNKS);
    assert_eq!(preflight.force_threshold, VECTOR_PROMPT_MAX_CHUNKS * 10);
    assert!(preflight.requires_force);
}

#[test]
fn preflight_init_allows_sizes_up_to_the_threshold() {
    let preflight = preflight_init(IndexLevel::Fts, 30_000);
    assert_eq!(preflight.force_threshold, 30_000);
    assert!(!preflight.requires_force);
    assert!(preflight_init(IndexLevel::Fts, 30_001).requires_force);
}

#[test]
fn require_index_root_for_search_reuses_nearest_ancestor() {
    let child = "/tmp/zg-ancestor-root/notes/daily";
    let candidates = index_root_candidates(child, true);
    assert_eq!(candidates[0], child);
    let indexed: Vec<bool> = candidates
        .iter()
        .map(|c| c == "/tmp/zg-ancestor-root")
        .collect();
    let root = require_index_root_for_search(child, true, &indexed, 0).unwrap();
    assert_eq!(root, "/tmp/zg-ancestor-root");
}

#[test]
fn require_index_root_for_search_errors_without_ancestor_index() {
    let file = "/tmp/zg-file-root/note.md";
    let candidates = index_root_candidates(file, false);
    assert_eq!(candidates[0], "/tmp/zg-file-root");
    let indexed = vec![false; candidates.len()];
    let error = require_index_root_for_search(file, false, &indexed, 1).unwrap_err();
    assert!(error.message.contains("no ancestor .zg index found"));
    assert!(error.message.contains("/tmp/zg-file-root"));
}

#[test]
fn require_index_root_for_search_reports_missing_root() {
    let dir = "/tmp/zg-missing-index-root";
    let candidates = index_root_candidates(dir, true);
    let indexed = vec![false; candidates.len()];
    let error = require_index_root_for_search(dir, true, &indexed, 0).unwrap_err();
    assert!(error.message.contains("zg: no ancestor .zg index found"));
}

#[test]
fn nearest_of_several_roots_wins() {
    let dir = "/a/b/c";
    let candidates = index_root_candidates(dir, true);
    let indexed: Vec<bool> = candidates.iter().map(|c| c == "/a" || c == "/a/b").collect();
    assert_eq!(require_index_root_for_search(dir, true, &indexed, 0).unwrap(), "/a/b");
}

#[test]
fn retry_delays_back_off_and_respect_the_budget() {
    assert_eq!(retry_delay_ms(0, 0), Some(200));
    assert_eq!(retry_delay_ms(0, 1), Some(400));
    assert_eq!(retry_delay_ms(0, 4), Some(3200));
    assert_eq!(retry_delay_ms(0, 5), Some(5000));
    assert_eq!(retry_delay_ms(0, 40), Some(5000));
    assert_eq!(retry_delay_ms(899_900, 3), Some(100));
    assert_eq!(retry_delay_ms(900_000, 0), Some(0));
    assert_eq!(retry_delay_ms(900_001, 0), None);
}

#[test]
fn lock_exhaustion_names_root_and_operation() {
    let error = write_lock_retry_exhausted("/r", "reconciling", "database is locked");
    assert_eq!(
        error.message,
        "sqlite write lock persisted while reconciling /r for up to 900 seconds: database is locked"
    );
}

#[test]
fn schema_validation_reports_first_missing_table_then_version() {
    let all = vec![true; REQUIRED_TABLE_COUNT];
    assert!(validate_schema(&all, Some("10")).is_ok());
    assert_eq!(
        validate_schema(&all, Some("4")).unwrap_err().message,
        "index schema/version mismatch"
    );
    assert!(validate_schema(&all, None).is_err());
    let mut missing = all.clone();
    missing[3] = false;
    missing[5] = false;
    assert_eq!(
        validate_schema(&missing, Some("10")).unwrap_err().message,
        "index schema is missing required table `shared_chunks`"
    );
}

#[test]
fn stored_index_levels_are_read_or_rejected() {
    assert_eq!(load_index_level(None).unwrap(), IndexLevel::Fts);
    assert_eq!(load_index_level(Some("fts")).unwrap(), IndexLevel::Fts);
    assert_eq!(load_index_level(Some("fts+vector")).unwrap(), IndexLevel::FtsVector);
    assert_eq!(
        load_index_level(Some("vector")).unwrap_err().message,
        "invalid index level setting `vector`: expected `fts` or `fts+vector`"
    );
}

#[test]
fn rebuild_keeps_the_level_unless_asked() {
    assert_eq!(rebuild_level(None, Some(IndexLevel::FtsVector)), IndexLevel::FtsVector);
    assert_eq!(rebuild_level(Some(IndexLevel::Fts), Some(IndexLevel::FtsVector)), IndexLevel::Fts);
    assert_eq!(rebuild_level(None, None), IndexLevel::Fts);
}

#[test]
fn unreadable_index_reports_a_dirty_status_with_reason() {
    let (status, note) = load_status(
        "/r/notes",
        Some(("/r".to_string(), Err("index schema/version mismatch".to_string()))),
    );
    assert!(status.dirty);
    assert!(!status.indexed);
    assert_eq!(status.index_root.as_deref(), Some("/r"));
    let reason = note.unwrap();
    assert!(reason.contains("zg index rebuild \"/r\""));
    assert_eq!(status.dirty_reason.as_deref(), Some(reason.as_str()));
}

#[test]
fn readable_index_status_is_reported_for_the_requested_path() {
    let counts = IndexCounts {
        files: 2,
        chunk_refs: 5,
        shared_chunks: 4,
        fts_rows: 5,
        vec_chunks: 4,
        vec_index_rows: 4,
    };
    let last_run = LastRun {
        status: "completed".to_string(),
        started_at_unix_ms: 1_000,
        finished_at_unix_ms: 1_250,
    };
    let state = StateRow {
        dirty: false,
        dirty_reason: None,
        last_sync_unix_ms: Some(99),
    };
    let root_status =
        status_for_index_root("/r", IndexLevel::FtsVector, counts, Some(state), Some(last_run));
    assert!(root_status.indexed);
    assert_eq!(root_status.file_count, 2);
    assert_eq!(root_status.chunk_count, 5);
    assert!(root_status.fts_ready);
    assert!(root_status.vector_ready);
    assert_eq!(root_status.last_index_run_duration_ms, Some(250));

    let (status, note) = load_status("/r/notes", Some(("/r".to_string(), Ok(root_status))));
    assert!(note.is_none());
    assert_eq!(status.requested_path, "/r/notes");
    assert_eq!(status.index_root.as_deref(), Some("/r"));
}

#[test]
fn vector_backend_is_unready_when_the_vector_index_drifts() {
    let counts = IndexCounts {
        files: 1,
        chunk_refs: 1,
        shared_chunks: 1,
        fts_rows: 1,
        vec_chunks: 1,
        vec_index_rows: 0,
    };
    let status = status_for_index_root("/r", IndexLevel::FtsVector, counts, None, None);
    assert!(!status.vector_ready);
    assert!(status.fts_ready);
    assert!(!status.dirty);
}

#[test]
fn failures_of_the_nearest_root_stop_the_search() {
    let nearest = covering_root_failure(0, "/r", "index schema/version mismatch");
    assert!(nearest.stop.unwrap().message.contains("zg index rebuild"));
    let farther = covering_root_failure(1, "/", "disk error");
    assert!(farther.stop.is_none());
    assert_eq!(farther.dirty_reason, "disk error");
}

#[test]
fn overlap_note_prefers_the_parent_index() {
    assert!(best_effort_overlap_note(Some("/a"), Some("/a/b/c"))
        .unwrap()
        .contains("parent index /a"));
    assert!(best_effort_overlap_note(None, Some("/a/b/c"))
        .unwrap()
        .contains("nested index at /a/b/c"));
    assert!(best_effort_overlap_note(None, None).is_none());
}

fn record(rel_path: &str, size_bytes: u64, modified_unix_ms: u64) -> FileRecord {
    FileRecord {
        rel_path: rel_path.to_string(),
        size_bytes,
        modified_unix_ms,
    }
}

#[test]
fn only_changed_or_new_files_are_read_again() {
    let existing = vec![record("a.md", 10, 1), record("b.md", 20, 2), record("gone.md", 5, 5)];
    let candidates = vec![record("a.md", 10, 1), record("b.md", 21, 2), record("c.md", 1, 1)];
    assert_eq!(dirty_candidates(&existing, &candidates), vec![1, 2]);
}

#[test]
fn reconcile_plans_upserts_deletes_and_warnings() {
    let existing = vec![record("a.md", 10, 1), record("b.md", 20, 2), record("gone.md", 5, 5)];
    let candidates = vec![record("a.md", 10, 1), record("b.md", 21, 2), record("c.md", 1, 1)];
    let shown = vec!["/r/a.md".to_string(), "/r/b.md".to_string(), "/r/c.md".to_string()];
    let dirty = dirty_candidates(&existing, &candidates);
    let documents = vec![
        indexable_document("b.md", "beta note".as_bytes(), 2),
        indexable_document("c.md", "".as_bytes(), 1),
    ];
    let plan = reconcile_plan(&existing, &candidates, &shown, &dirty, documents, None);
    assert_eq!(plan.upserts.len(), 1);
    assert_eq!(plan.upserts[0].0, "b.md");
    assert_eq!(plan.deletes, vec!["c.md".to_string(), "gone.md".to_string()]);
    assert_eq!(plan.warnings, vec!["skipped unreadable or disallowed file /r/c.md".to_string()]);
    assert_eq!(plan.indexed_files, 1);
    assert_eq!(plan.chunks_indexed, 1);
    assert!(plan.desired_dirty);
    assert!(plan.needs_write);
    assert!(plan.collect_garbage);
}

#[test]
fn reconcile_of_an_unchanged_scope_writes_nothing() {
    let existing = vec![record("a.md", 10, 1)];
    let candidates = vec![record("a.md", 10, 1)];
    let shown = vec!["a.md".to_string()];
    let dirty = dirty_candidates(&existing, &candidates);
    assert!(dirty.is_empty());
    let state = StateRow {
        dirty: false,
        dirty_reason: None,
        last_sync_unix_ms: Some(1),
    };
    let plan = reconcile_plan(&existing, &candidates, &shown, &dirty, Vec::new(), Some(state));
    assert!(!plan.needs_write);
    assert!(!plan.collect_garbage);
    assert!(!plan.desired_dirty);
}

#[test]
fn rebuild_plan_stores_relative_paths_and_skips_unreadable_files() {
    let paths = vec!["/r/notes/a.md".to_string(), "/r/b.md".to_string()];
    let documents = vec![
        indexable_document("notes/a.md", "alpha note".as_bytes(), 1),
        None,
    ];
    let plan = rebuild_plan("/r", &paths, documents).unwrap();
    assert_eq!(plan.upserts.len(), 1);
    assert_eq!(plan.upserts[0].0, "notes/a.md");
    assert_eq!(plan.warnings, vec!["skipped /r/b.md".to_string()]);
    assert_eq!(plan.stats.scanned_files, 2);
    assert_eq!(plan.stats.indexed_files, 1);
    assert_eq!(plan.stats.chunks_indexed, 1);
    assert_eq!(plan.run_status, "completed_with_warnings");
}

#[test]
fn rebuild_plan_rejects_paths_outside_the_root() {
    let paths = vec!["/elsewhere/a.md".to_string()];
    let documents = vec![indexable_document("a.md", "alpha".as_bytes(), 1)];
    let error = rebuild_plan("/r", &paths, documents).unwrap_err();
    assert_eq!(error.message, "/elsewhere/a.md is not under /r");
}

#[test]
fn document_workers_default_to_the_smallest_bound() {
    assert_eq!(index_worker_count(3, 16, None), 3);
    assert_eq!(index_worker_count(100, 4, None), 4);
    assert_eq!(index_worker_count(100, 64, None), 8);
    assert_eq!(index_worker_count(100, 64, Some("12")), 12);
    assert_eq!(index_worker_count(100, 64, Some("0")), 8);
    assert_eq!(index_worker_count(100, 64, Some("-2")), 8);
    assert_eq!(index_worker_count(100, 64, Some("many")), 8);
}
