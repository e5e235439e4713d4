use zg::index::sync::load_status;
use zg::index::IndexLevel;
use zg::render::{
    display_channel, format_line_label, format_search_result, format_status, inline_preview,
    render_search_hits, yes_no, SearchOutputStyle,
};

#[test]
fn formatted_search_result_uses_plain_rg_like_layout() {
    let rendered = render_search_hits(
        &[format_search_result(
            "notes/alpha.md",
            7,
            7,
            true,
            false,
            true,
            "sqlite vector adapter",
        )],
        SearchOutputStyle {
            headings: false,
            color: false,
        },
    );

    assert_eq!(rendered, "notes/alpha.md:[fv] 7: sqlite vector adapter\n");
}

#[test]
fn semantic_only_hits_include_channel_label() {
    let rendered = render_search_hits(
        &[format_search_result(
            "README.md",
            94,
            94,
            false,
            false,
            true,
            "Search semantics",
        )],
        SearchOutputStyle {
            headings: false,
            color: false,
        },
    );

    assert_eq!(rendered, "README.md:[v] 94: Search semantics\n");
}

#[test]
fn terminal_render_groups_consecutive_hits_under_file_headings() {
    let rendered = render_search_hits(
        &[
            format_search_result(
                "AGENTS.md",
                4,
                4,
                true,
                true,
                true,
                "e.g. R0_product_philosophy.md, R1_tech_decision_blabla.md",
            ),
            format_search_result(
                "AGENTS.md",
                20,
                20,
                false,
                false,
                true,
                "Observation flow, from actual implementation, to principle level of intent",
            ),
            format_search_result("README.md", 94, 94, false, false, true, "Search semantics"),
        ],
        SearchOutputStyle {
            headings: true,
            color: false,
        },
    );

    assert_eq!(
        rendered,
        "AGENTS.md\n[rfv] 4: e.g. R0_product_philosophy.md, R1_tech_decision_blabla.md\n[v] 20: Observation flow, from actual implementation, to principle level of intent\n\nREADME.md\n[v] 94: Search semantics\n"
    );
}

#[test]
fn rendering_no_hits_prints_nothing() {
    let style = SearchOutputStyle {
        headings: true,
        color: false,
    };
    assert_eq!(render_search_hits(&[], style), "");
}

#[test]
fn line_labels_show_ranges() {
    assert_eq!(format_line_label(12, 12), "12");
    assert_eq!(format_line_label(12, 14), "12-14");
}

#[test]
fn channel_labels_name_each_channel_that_matched() {
    assert_eq!(display_channel(true, true, true), "rfv");
    assert_eq!(display_channel(false, true, false), "r");
    assert_eq!(display_channel(true, false, false), "f");
    assert_eq!(display_channel(false, false, true), "v");
    assert_eq!(display_channel(false, false, false), "?");
}

#[test]
fn inline_preview_folds_whitespace_into_one_line() {
    assert_eq!(inline_preview("  alpha\n\tbeta   gamma \n"), "alpha beta gamma");
}

#[test]
fn coloured_output_wraps_labels_in_escapes() {
    let rendered = render_search_hits(
        &[format_search_result("a.md", 1, 1, true, false, false, "x")],
        SearchOutputStyle {
            headings: false,
            color: true,
        },
    );
    assert!(rendered.contains("\x1b[0m"));
    assert!(rendered.contains("a.md"));
}

#[test]
fn formatted_status_exposes_walk_policy() {
    let (status, note) = load_status("/tmp/zg-status-root", None);
    assert!(note.is_none());

    let rendered = format_status(&status);
    assert!(rendered.contains("index level: fts"));
    assert!(rendered.contains("walk policy: ripgrep-style:"));
    assert!(rendered.contains(".zgignore"));
    assert!(rendered.contains(".zg/ always skipped"));
}

#[test]
fn status_hint_shows_upgrade_for_small_fts_indexes() {
    let root = "/tmp/zg-status-hint";
    let (mut status, _) = load_status(root, None);
    status.index_root = Some(root.to_string());
    status.index_level = IndexLevel::Fts;
    status.chunk_count = 128;

    let rendered = format_status(&status);
    assert!(rendered.contains("upgrade hint: `zg index rebuild --level fts+vector"));
}

#[test]
fn formatted_status_lists_every_field_in_order() {
    let (status, _) = load_status("docs", None);
    let rendered = format_status(&status);
    assert!(rendered.starts_with("requested path: docs\nindex root: none\nindexed: no\nindex level: fts\n"));
    assert!(rendered.contains("\ndirty: no\ndirty reason: none\nfiles: 0\nchunks: 0\nfts ready: no\nvector ready: no\n"));
    assert!(rendered.ends_with("last sync unix ms: never\n"));
    assert!(!rendered.contains("last index run status:"));
}

#[test]
fn yes_no_spells_booleans() {
    assert_eq!(yes_no(true), "yes");
    assert_eq!(yes_no(false), "no");
}
