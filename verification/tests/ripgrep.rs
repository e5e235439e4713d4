use zg::search::ripgrep::{
    decode_rg_path, decode_rg_text, rg_exit_error, rg_launch_error, rg_match_hit,
    rg_search_failed, RgPath,
};
use zg::search::{regex_search, sort_grep_hits, GrepHit};

fn some(s: &str) -> Option<String> {
    Some(s.to_string())
}

#[test]
fn match_events_become_hits_without_trailing_newlines() {
    let path = match decode_rg_path(some("/tmp/a.txt"), None).unwrap() {
        RgPath::Text(text) => text,
        RgPath::Bytes(_) => panic!("expected a text path"),
    };
    let hit = rg_match_hit(path, decode_rg_text(some("needle:x\n"), None), Some(2));
    assert_eq!(hit.path, "/tmp/a.txt");
    assert_eq!(hit.line_number, 2);
    assert_eq!(hit.line, "needle:x");
    assert_eq!(rg_match_hit("p".to_string(), "x\n\n".to_string(), None).line_number, 1);
}

#[test]
fn base64_fields_are_decoded() {
    assert_eq!(decode_rg_text(None, some("bmVlZGxlOng=")), "needle:x");
    assert_eq!(decode_rg_text(None, some("/2Fi")), "\u{fffd}ab");
    assert_eq!(decode_rg_text(None, some("not base64!")), "");
    assert_eq!(decode_rg_text(None, None), "");
    match decode_rg_path(None, some("L3RtcC9hLnR4dA==")).unwrap() {
        RgPath::Bytes(raw) => assert_eq!(raw, b"/tmp/a.txt".to_vec()),
        RgPath::Text(_) => panic!("expected raw bytes"),
    }
    assert!(decode_rg_path(None, some("***")).is_err());
    assert_eq!(
        decode_rg_path(None, None).unwrap_err().message,
        "ripgrep JSON event missing path"
    );
}

#[test]
fn rg_resolution_reports_clear_error_for_missing_binary() {
    let message = rg_launch_error(
        "/definitely/missing/rg",
        "ZG_RG_BIN override",
        "No such file or directory (os error 2)",
    )
    .message;
    assert!(message.contains("ripgrep runtime dependency is unavailable"));
    assert!(message.contains("ZG_RG_BIN"));
    let message = rg_exit_error("rg", "PATH lookup", "exit status: 2").message;
    assert!(message.contains("exited with status exit status: 2"));
}

#[test]
fn failed_runs_report_status_and_trimmed_stderr() {
    assert_eq!(
        rg_search_failed("exit status: 2", "  regex parse error\n").message,
        "ripgrep search failed with status exit status: 2: regex parse error"
    );
}

fn grep_hit(path: &str, line_number: usize, line: &str) -> GrepHit {
    GrepHit {
        path: path.to_string(),
        line_number,
        line: line.to_string(),
    }
}

#[test]
fn regex_search_returns_hits_sorted_by_path_and_line_number() {
    let hits = sort_grep_hits(vec![
        grep_hit("/r/b.md", 2, "needle third"),
        grep_hit("/r/b.md", 1, "needle second"),
        grep_hit("/r/a.md", 1, "needle first"),
    ]);
    let rendered = hits
        .iter()
        .map(|hit| format!("{}:{}:{}", hit.path, hit.line_number, hit.line))
        .collect::<Vec<_>>();
    assert_eq!(
        rendered,
        vec!["/r/a.md:1:needle first", "/r/b.md:1:needle second", "/r/b.md:2:needle third"]
    );
}

#[test]
fn paths_sort_by_component_not_by_text() {
    let hits = sort_grep_hits(vec![grep_hit("/r/a.b/x", 1, "x"), grep_hit("/r/a/b", 1, "x")]);
    assert_eq!(hits[0].path, "/r/a/b");
}

#[test]
fn regex_search_skips_explicit_zg_paths() {
    let hits = regex_search("/r/.zg/state.txt", vec![grep_hit("/r/.zg/state.txt", 1, "needle")]);
    assert!(hits.is_empty());
    let hits = regex_search("/r", vec![grep_hit("/r/a.md", 1, "needle")]);
    assert_eq!(hits.len(), 1);
}
