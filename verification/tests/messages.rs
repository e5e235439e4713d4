use zg::index::{IndexLevel, RebuildStats};
use zg::messages::{
    cache_delete_note, deleted_local_cache, explicit_index_required_error, index_level_follow_up,
    initialized_index, is_schema_version_mismatch, no_local_cache, overlap_child_note,
    overlap_parent_note, rebuilt_index, schema_rebuild_dirty_reason, schema_rebuild_required_error,
    status_level_hint, vector_index_start_notice, INDEX_SCHEMA_VERSION_MISMATCH,
};

#[test]
fn missing_index_error_is_actionable() {
    let root = "/tmp/zg-project";
    let rendered = explicit_index_required_error(root, 64, true, true);
    assert!(rendered.contains("zg: no ancestor .zg index found"));
    assert!(rendered.contains("estimated chunks: 64"));
    assert!(rendered.contains("quick path: `zg index init --level fts"));
    assert!(rendered.contains("semantic path: `zg index init --level fts+vector"));
}

#[test]
fn schema_mismatch_messages_include_rebuild_instruction() {
    let root = "/tmp/zg-root";
    assert!(schema_rebuild_required_error(root).contains("zg index rebuild"));
    assert!(schema_rebuild_dirty_reason(root).contains("zg index rebuild"));
}

#[test]
fn explicit_index_required_message_mentions_both_levels() {
    let root = "/tmp/zg-implicit-note";
    let rendered = explicit_index_required_error(root, 32, true, true);

    assert!(rendered.contains("no ancestor .zg index found"));
    assert!(rendered.contains("estimated chunks: 32"));
    assert!(rendered.contains("quick path: `zg index init --level fts"));
    assert!(rendered.contains("semantic path: `zg index init --level fts+vector"));
    assert!(rendered.contains(root));
}

#[test]
fn large_missing_index_message_does_not_upsell_vector() {
    let root = "/tmp/zg-implicit-large";
    let rendered = explicit_index_required_error(root, 5000, false, false);

    assert!(rendered.contains("run `zg index init"));
    assert!(!rendered.contains("semantic path:"));
}

#[test]
fn vector_index_build_has_no_post_success_follow_up_note() {
    let rendered = index_level_follow_up("/tmp/zg-vector-follow-up", IndexLevel::FtsVector, 128);
    assert!(rendered.is_none());
}

#[test]
fn small_fts_index_build_suggests_vectors() {
    let rendered = index_level_follow_up("/tmp/zg-fts-follow-up", IndexLevel::Fts, 128).unwrap();
    assert!(rendered.contains("zg index rebuild --level fts+vector"));
    assert!(index_level_follow_up("/tmp/zg-fts-follow-up", IndexLevel::Fts, 1025).is_none());
}

#[test]
fn rebuilt_message_includes_level() {
    let stats = RebuildStats {
        scanned_files: 3,
        indexed_files: 2,
        chunks_indexed: 7,
    };

    let rendered = rebuilt_index("/tmp/zg-rebuild-note", IndexLevel::FtsVector, &stats);
    assert!(rendered.contains("level=fts+vector"));
    assert_eq!(
        rendered,
        "rebuilt /tmp/zg-rebuild-note (level=fts+vector) [2 indexed / 3 scanned]"
    );
}

#[test]
fn initialized_message_reports_counts() {
    let stats = RebuildStats {
        scanned_files: 3,
        indexed_files: 2,
        chunks_indexed: 7,
    };
    assert_eq!(
        initialized_index("notes", IndexLevel::Fts, &stats),
        "initialized notes (.zg/, SQLite, level=fts) [2 indexed / 3 scanned / 7 chunks]"
    );
}

#[test]
fn cache_messages_name_the_hidden_directory() {
    assert_eq!(deleted_local_cache("/tmp/a"), "deleted local cache at /tmp/a/.zg");
    assert_eq!(no_local_cache("/tmp/a"), "no local cache at /tmp/a/.zg");
    assert!(cache_delete_note("/tmp/a").contains("zg index delete \"/tmp/a\""));
}

#[test]
fn level_hints_depend_on_index_size() {
    assert!(status_level_hint("r", IndexLevel::Fts, 1024).unwrap().starts_with("upgrade hint:"));
    assert!(status_level_hint("r", IndexLevel::Fts, 1025).is_none());
    assert!(status_level_hint("r", IndexLevel::FtsVector, 3000).unwrap().starts_with("downgrade hint:"));
    assert!(status_level_hint("r", IndexLevel::FtsVector, 3001).is_none());
}

#[test]
fn overlap_notes_name_the_other_index() {
    assert!(overlap_parent_note("/a").contains("parent index /a"));
    assert!(overlap_child_note("/a/b").contains("nested index at /a/b"));
}

#[test]
fn vector_notice_names_the_operation() {
    let notice = vector_index_start_notice("/tmp/v", "init");
    assert!(notice.starts_with("note: starting `fts+vector` index init for /tmp/v"));
    assert!(notice.contains("may take a while"));
}

#[test]
fn schema_mismatch_is_recognised_only_as_the_bare_message() {
    assert!(is_schema_version_mismatch(INDEX_SCHEMA_VERSION_MISMATCH));
    assert!(!is_schema_version_mismatch(&schema_rebuild_required_error("/tmp/x")));
    assert!(!is_schema_version_mismatch("disk full"));
}

#[test]
fn oversized_vector_init_requires_force() {
    let preflight = zg::index::sync::preflight_init(IndexLevel::FtsVector, 10241);
    let rendered =
        zg::messages::init_force_required_error("/tmp/zg-force", IndexLevel::FtsVector, &preflight);
    assert!(rendered.contains("estimates 10241 chunks"));
    assert!(rendered.contains("> 10240 chunks (10x) requires `--force`"));
    assert!(rendered.contains("zg index init --level fts+vector --force"));
}

#[test]
fn missing_index_message_has_one_line_per_suggestion() {
    let root = "/notes";
    let both = explicit_index_required_error(root, 10, true, true);
    assert_eq!(both.lines().count(), 4);
    assert_eq!(both.lines().next(), Some("zg: no ancestor .zg index found for /notes"));
    let quick_only = explicit_index_required_error(root, 10, true, false);
    assert_eq!(quick_only.lines().count(), 3);
    assert!(quick_only.contains("quick path:"));
    assert!(!quick_only.contains("semantic path:"));
    let neither = explicit_index_required_error(root, 10, false, false);
    assert_eq!(neither.lines().count(), 3);
    assert!(neither.contains("run `zg index init"));
}
