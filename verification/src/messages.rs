//! The messages `zg` prints about index creation, maintenance and missing indexes.
//!
//! Paths appear as their display text.
use vstd::prelude::*;

use crate::index::types::{
    level_name, IndexLevel, InitPreflight, RebuildStats, FTS_PROMPT_MAX_CHUNKS,
    INIT_SANITY_CHECK_MULTIPLIER, VECTOR_PROMPT_MAX_CHUNKS,
};
use crate::text::{decimal, decimal_string, join, opt_text, pieces, push_str, same_text};

verus! {

/// The error text that marks an index whose schema or version no longer matches.
pub const INDEX_SCHEMA_VERSION_MISMATCH: &'static str = "index schema/version mismatch";

/// Whether an error message reports a schema or version mismatch.
pub fn is_schema_version_mismatch(message: &str) -> (r: bool)
    ensures
        r == (message@ == INDEX_SCHEMA_VERSION_MISMATCH@),
{
    same_text(message, INDEX_SCHEMA_VERSION_MISMATCH)
}

/// The report printed after `zg index init`.
pub open spec fn initialized_text(root: Seq<char>, level: IndexLevel, stats: RebuildStats) -> Seq<char> {
    "initialized "@ + root + " (.zg/, SQLite, level="@ + level_name(level) + ") ["@
        + decimal(stats.indexed_files as nat) + " indexed / "@ + decimal(stats.scanned_files as nat)
        + " scanned / "@ + decimal(stats.chunks_indexed as nat) + " chunks]"@
}

/// The report printed after `zg index init`.
pub fn initialized_index(root: &str, index_level: IndexLevel, stats: &RebuildStats) -> (r: String)
    ensures
        r@ == initialized_text(root@, index_level, *stats),
{
    let mut s = String::new();
    push_str(&mut s, "initialized ");
    push_str(&mut s, root);
    push_str(&mut s, " (.zg/, SQLite, level=");
    push_str(&mut s, index_level.as_str());
    push_str(&mut s, ") [");
    push_str(&mut s, decimal_string(stats.indexed_files as u64).as_str());
    push_str(&mut s, " indexed / ");
    push_str(&mut s, decimal_string(stats.scanned_files as u64).as_str());
    push_str(&mut s, " scanned / ");
    push_str(&mut s, decimal_string(stats.chunks_indexed as u64).as_str());
    push_str(&mut s, " chunks]");
    s
}

/// The report printed after `zg index rebuild`.
pub open spec fn rebuilt_text(root: Seq<char>, level: IndexLevel, stats: RebuildStats) -> Seq<char> {
    "rebuilt "@ + root + " (level="@ + level_name(level) + ") ["@ + decimal(
        stats.indexed_files as nat,
    ) + " indexed / "@ + decimal(stats.scanned_files as nat) + " scanned]"@
}

/// The report printed after `zg index rebuild`.
pub fn rebuilt_index(root: &str, index_level: IndexLevel, stats: &RebuildStats) -> (r: String)
    ensures
        r@ == rebuilt_text(root@, index_level, *stats),
{
    let mut s = String::new();
    push_str(&mut s, "rebuilt ");
    push_str(&mut s, root);
    push_str(&mut s, " (level=");
    push_str(&mut s, index_level.as_str());
    push_str(&mut s, ") [");
    push_str(&mut s, decimal_string(stats.indexed_files as u64).as_str());
    push_str(&mut s, " indexed / ");
    push_str(&mut s, decimal_string(stats.scanned_files as u64).as_str());
    push_str(&mut s, " scanned]");
    s
}

/// The report printed after `zg index delete` removed a cache.
pub fn deleted_local_cache(root: &str) -> (r: String)
    ensures
        r@ == "deleted local cache at "@ + crate::paths::joined(root@, ".zg"@),
{
    let mut s = String::new();
    push_str(&mut s, "deleted local cache at ");
    push_str(&mut s, crate::paths::hidden_dir(root).as_str());
    s
}

/// The report printed after `zg index delete` found no cache.
pub fn no_local_cache(root: &str) -> (r: String)
    ensures
        r@ == "no local cache at "@ + crate::paths::joined(root@, ".zg"@),
{
    let mut s = String::new();
    push_str(&mut s, "no local cache at ");
    push_str(&mut s, crate::paths::hidden_dir(root).as_str());
    s
}

/// The error for a plain-text search outside every index, with the suggested next steps.
pub open spec fn index_required_text(
    root: Seq<char>,
    estimated_chunks: usize,
    suggest_fts: bool,
    suggest_vector: bool,
) -> Seq<char> {
    "zg: no ancestor .zg index found for "@ + root + "\n    estimated chunks: "@ + decimal(
        estimated_chunks as nat,
    ) + (if suggest_fts {
        "\n    quick path: `zg index init --level fts \""@ + root
            + "\"`  (fast lexical index; tuned for keyword and identifier search)"@
    } else {
        Seq::empty()
    }) + (if suggest_vector {
        "\n    semantic path: `zg index init --level fts+vector \""@ + root
            + "\"`  (stronger natural-language recall; slower to build and query)"@
    } else {
        Seq::empty()
    }) + (if !suggest_fts && !suggest_vector {
        "\n    run `zg index init \""@ + root + "\"` to build the default fts index first"@
    } else {
        Seq::empty()
    })
}

/// The first line of the missing-index error.
pub open spec fn index_required_head(root: Seq<char>) -> Seq<char> {
    "zg: no ancestor .zg index found for "@ + root
}

/// The line that suggests a lexical index.
pub open spec fn quick_path_line(root: Seq<char>) -> Seq<char> {
    "    quick path: `zg index init --level fts \""@ + root
        + "\"`  (fast lexical index; tuned for keyword and identifier search)"@
}

/// The line that suggests a hybrid index.
pub open spec fn semantic_path_line(root: Seq<char>) -> Seq<char> {
    "    semantic path: `zg index init --level fts+vector \""@ + root
        + "\"`  (stronger natural-language recall; slower to build and query)"@
}

/// The line that suggests the default index when no level is recommended.
pub open spec fn default_init_line(root: Seq<char>) -> Seq<char> {
    "    run `zg index init \""@ + root + "\"` to build the default fts index first"@
}

/// The lines of the missing-index error: the root, the estimate, then the quick path when
/// `suggest_fts`, the semantic path when `suggest_vector`, or the default step when neither.
pub open spec fn index_required_lines(
    root: Seq<char>,
    estimated_chunks: usize,
    suggest_fts: bool,
    suggest_vector: bool,
) -> Seq<Seq<char>> {
    seq![index_required_head(root), "    estimated chunks: "@ + decimal(estimated_chunks as nat)]
        + (if suggest_fts { seq![quick_path_line(root)] } else { Seq::empty() })
        + (if suggest_vector { seq![semantic_path_line(root)] } else { Seq::empty() })
        + (if !suggest_fts && !suggest_vector { seq![default_init_line(root)] } else { Seq::empty() })
}

proof fn lemma_join_step(parts: Seq<Seq<char>>, line: Seq<char>)
    requires
        parts.len() > 0,
    ensures
        join(parts.push(line), seq!['\n']) == join(parts, seq!['\n']) + seq!['\n'] + line,
{
    assert(parts.push(line).drop_last() =~= parts);
}

/// The missing-index error, split at line breaks, is its lines: the first names the root,
/// each suggestion appears exactly when its flag asks for it, and there are two lines plus
/// one per suggestion (or plus the default step when there is none). The root is assumed to
/// hold no line break.
pub proof fn lemma_index_required_lines(
    root: Seq<char>,
    estimated_chunks: usize,
    suggest_fts: bool,
    suggest_vector: bool,
)
    requires
        forall|k: int| 0 <= k < root.len() ==> #[trigger] root[k] != '\n',
    ensures
        pieces(index_required_text(root, estimated_chunks, suggest_fts, suggest_vector), '\n')
            == index_required_lines(root, estimated_chunks, suggest_fts, suggest_vector),
        index_required_lines(root, estimated_chunks, suggest_fts, suggest_vector)[0] == index_required_head(root),
        index_required_lines(root, estimated_chunks, suggest_fts, suggest_vector).len() == 2 + (if suggest_fts {
            1int
        } else {
            0int
        }) + (if suggest_vector { 1int } else { 0int }) + (if !suggest_fts && !suggest_vector {
            1int
        } else {
            0int
        }),
        index_required_lines(root, estimated_chunks, suggest_fts, suggest_vector).contains(quick_path_line(root))
            <==> suggest_fts,
        index_required_lines(root, estimated_chunks, suggest_fts, suggest_vector).contains(semantic_path_line(root))
            <==> suggest_vector,
        index_required_lines(root, estimated_chunks, suggest_fts, suggest_vector).contains(default_init_line(root))
            <==> !suggest_fts && !suggest_vector,
{
    reveal_strlit("zg: no ancestor .zg index found for ");
    reveal_strlit("\n    estimated chunks: ");
    reveal_strlit("    estimated chunks: ");
    reveal_strlit("\n    quick path: `zg index init --level fts \"");
    reveal_strlit("    quick path: `zg index init --level fts \"");
    reveal_strlit("\"`  (fast lexical index; tuned for keyword and identifier search)");
    reveal_strlit("\n    semantic path: `zg index init --level fts+vector \"");
    reveal_strlit("    semantic path: `zg index init --level fts+vector \"");
    reveal_strlit("\"`  (stronger natural-language recall; slower to build and query)");
    reveal_strlit("\n    run `zg index init \"");
    reveal_strlit("    run `zg index init \"");
    reveal_strlit("\"` to build the default fts index first");
    crate::text::lemma_decimal_no_newline(estimated_chunks as nat);
    let head = index_required_head(root);
    let est = "    estimated chunks: "@ + decimal(estimated_chunks as nat);
    let q = quick_path_line(root);
    let v = semantic_path_line(root);
    let d = default_init_line(root);
    let lines = index_required_lines(root, estimated_chunks, suggest_fts, suggest_vector);
    // the text is the lines joined by line breaks
    let l1 = seq![head, est];
    assert(l1 == seq![head].push(est));
    lemma_join_step(seq![head], est);
    assert(join(seq![head], seq!['\n']) == head);
    assert(join(l1, seq!['\n']) =~= "zg: no ancestor .zg index found for "@ + root + "\n    estimated chunks: "@ + decimal(
        estimated_chunks as nat,
    ));
    let l2 = if suggest_fts { l1.push(q) } else { l1 };
    if suggest_fts {
        lemma_join_step(l1, q);
    }
    assert(join(l2, seq!['\n']) =~= join(l1, seq!['\n']) + (if suggest_fts {
        "\n    quick path: `zg index init --level fts \""@ + root
            + "\"`  (fast lexical index; tuned for keyword and identifier search)"@
    } else {
        Seq::empty()
    }));
    let l3 = if suggest_vector { l2.push(v) } else { l2 };
    if suggest_vector {
        lemma_join_step(l2, v);
    }
    assert(join(l3, seq!['\n']) =~= join(l2, seq!['\n']) + (if suggest_vector {
        "\n    semantic path: `zg index init --level fts+vector \""@ + root
            + "\"`  (stronger natural-language recall; slower to build and query)"@
    } else {
        Seq::empty()
    }));
    let l4 = if !suggest_fts && !suggest_vector { l3.push(d) } else { l3 };
    if !suggest_fts && !suggest_vector {
        lemma_join_step(l3, d);
    }
    assert(join(l4, seq!['\n']) =~= join(l3, seq!['\n']) + (if !suggest_fts && !suggest_vector {
        "\n    run `zg index init \""@ + root + "\"` to build the default fts index first"@
    } else {
        Seq::empty()
    }));
    assert(lines =~= l4);
    assert(join(lines, seq!['\n']) =~= index_required_text(root, estimated_chunks, suggest_fts, suggest_vector));
    // no line holds a line break
    assert forall|p: int, k: int| 0 <= p < lines.len() && 0 <= k < lines[p].len() implies #[trigger] lines[p][k] != '\n' by {
        let line = lines[p];
        assert(line == head || line == est || line == q || line == v || line == d);
    }
    crate::text::lemma_pieces_of_join(lines, '\n');
    // the suggestion lines differ from each other and from the first two lines
    assert(q[4] == 'q' && v[4] == 's' && d[4] == 'r' && est[4] == 'e');
    assert(head[0] == 'z');
    assert(q[0] == ' ' && v[0] == ' ' && d[0] == ' ');
    if lines.contains(q) {
        let t = choose|t: int| 0 <= t < lines.len() && lines[t] == q;
        assert(lines[t] == head || lines[t] == est || lines[t] == q || lines[t] == v || lines[t] == d);
    }
    if lines.contains(v) {
        let t = choose|t: int| 0 <= t < lines.len() && lines[t] == v;
        assert(lines[t] == head || lines[t] == est || lines[t] == q || lines[t] == v || lines[t] == d);
    }
    if lines.contains(d) {
        let t = choose|t: int| 0 <= t < lines.len() && lines[t] == d;
        assert(lines[t] == head || lines[t] == est || lines[t] == q || lines[t] == v || lines[t] == d);
    }
    if suggest_fts {
        assert(lines[2] == q);
    }
    if suggest_vector {
        assert(lines[lines.len() - 1] == v);
    }
    if !suggest_fts && !suggest_vector {
        assert(lines[2] == d);
    }
}

/// The error for a plain-text search outside every index, with the suggested next steps.
pub fn explicit_index_required_error(
    root: &str,
    estimated_chunks: usize,
    suggest_fts: bool,
    suggest_vector: bool,
) -> (r: String)
    ensures
        r@ == index_required_text(root@, estimated_chunks, suggest_fts, suggest_vector),
{
    let mut s = String::new();
    push_str(&mut s, "zg: no ancestor .zg index found for ");
    push_str(&mut s, root);
    push_str(&mut s, "\n    estimated chunks: ");
    push_str(&mut s, decimal_string(estimated_chunks as u64).as_str());
    let ghost head = s@;
    if suggest_fts {
        push_str(&mut s, "\n    quick path: `zg index init --level fts \"");
        push_str(&mut s, root);
        push_str(&mut s, "\"`  (fast lexical index; tuned for keyword and identifier search)");
    }
    let ghost mid = s@;
    if suggest_vector {
        push_str(&mut s, "\n    semantic path: `zg index init --level fts+vector \"");
        push_str(&mut s, root);
        push_str(&mut s, "\"`  (stronger natural-language recall; slower to build and query)");
    }
    let ghost mid2 = s@;
    if !suggest_fts && !suggest_vector {
        push_str(&mut s, "\n    run `zg index init \"");
        push_str(&mut s, root);
        push_str(&mut s, "\"` to build the default fts index first");
    }
    assert(s@ =~= index_required_text(root@, estimated_chunks, suggest_fts, suggest_vector));
    s
}

/// The follow-up suggestion after building an index of `level` with `chunk_count` chunks.
pub open spec fn follow_up_text(root: Seq<char>, level: IndexLevel, chunk_count: usize) -> Option<
    Seq<char>,
> {
    if level == IndexLevel::Fts && chunk_count <= VECTOR_PROMPT_MAX_CHUNKS {
        Some(
            "next: `zg index rebuild --level fts+vector \""@ + root
                + "\"` enables semantic recall for natural-language queries"@,
        )
    } else {
        None
    }
}

/// The follow-up suggestion after building an index: a small lexical index may add vectors.
pub fn index_level_follow_up(root: &str, index_level: IndexLevel, chunk_count: usize) -> (r:
    Option<String>)
    ensures
        opt_text(r) == follow_up_text(root@, index_level, chunk_count),
{
    match index_level {
        IndexLevel::Fts => {
            if chunk_count <= VECTOR_PROMPT_MAX_CHUNKS {
                let mut s = String::new();
                push_str(&mut s, "next: `zg index rebuild --level fts+vector \"");
                push_str(&mut s, root);
                push_str(&mut s, "\"` enables semantic recall for natural-language queries");
                Some(s)
            } else {
                None
            }
        },
        IndexLevel::FtsVector => None,
    }
}

/// The notice printed before a vector index build starts.
pub open spec fn vector_notice_text(root: Seq<char>, operation: Seq<char>) -> Seq<char> {
    "note: starting `fts+vector` index "@ + operation + " for "@ + root
        + "; this may take a while, especially on the first run while embeddings are prepared"@
}

/// The notice printed before a vector index build starts.
pub fn vector_index_start_notice(root: &str, operation: &str) -> (r: String)
    ensures
        r@ == vector_notice_text(root@, operation@),
{
    let mut s = String::new();
    push_str(&mut s, "note: starting `fts+vector` index ");
    push_str(&mut s, operation);
    push_str(&mut s, " for ");
    push_str(&mut s, root);
    push_str(
        &mut s,
        "; this may take a while, especially on the first run while embeddings are prepared",
    );
    s
}

/// The hint `zg index status` adds about switching level, given the index size.
pub open spec fn level_hint_text(root: Seq<char>, level: IndexLevel, chunk_count: u64) -> Option<
    Seq<char>,
> {
    if level == IndexLevel::Fts && (chunk_count as usize) <= VECTOR_PROMPT_MAX_CHUNKS {
        Some("upgrade hint: `zg index rebuild --level fts+vector \""@ + root + "\"`"@)
    } else if level == IndexLevel::FtsVector && (chunk_count as usize) <= FTS_PROMPT_MAX_CHUNKS {
        Some("downgrade hint: `zg index rebuild --level fts \""@ + root + "\"`"@)
    } else {
        None
    }
}

/// The hint `zg index status` adds about switching level, given the index size.
pub fn status_level_hint(root: &str, index_level: IndexLevel, chunk_count: u64) -> (r: Option<
    String,
>)
    ensures
        opt_text(r) == level_hint_text(root@, index_level, chunk_count),
{
    match index_level {
        IndexLevel::Fts => {
            if (chunk_count as usize) <= VECTOR_PROMPT_MAX_CHUNKS {
                let mut s = String::new();
                push_str(&mut s, "upgrade hint: `zg index rebuild --level fts+vector \"");
                push_str(&mut s, root);
                push_str(&mut s, "\"`");
                Some(s)
            } else {
                None
            }
        },
        IndexLevel::FtsVector => {
            if (chunk_count as usize) <= FTS_PROMPT_MAX_CHUNKS {
                let mut s = String::new();
                push_str(&mut s, "downgrade hint: `zg index rebuild --level fts \"");
                push_str(&mut s, root);
                push_str(&mut s, "\"`");
                Some(s)
            } else {
                None
            }
        },
    }
}

/// The note that a freshly built cache is optional.
pub fn cache_delete_note(root: &str) -> (r: String)
    ensures
        r@ == "note: this cache is optional; delete it later with `zg index delete \""@ + root@
            + "\"`"@,
{
    let mut s = String::new();
    push_str(&mut s, "note: this cache is optional; delete it later with `zg index delete \"");
    push_str(&mut s, root);
    push_str(&mut s, "\"`");
    s
}

/// The note for a new index inside an existing one.
pub open spec fn parent_note_text(ancestor: Seq<char>) -> Seq<char> {
    "note: this directory is also covered by parent index "@ + ancestor
        + " ; adding a local index costs extra disk and duplicate updates, and under the current brute-force search path it is not a recall fix"@
}

/// The note for a new index inside an existing one.
pub fn overlap_parent_note(ancestor: &str) -> (r: String)
    ensures
        r@ == parent_note_text(ancestor@),
{
    let mut s = String::new();
    push_str(&mut s, "note: this directory is also covered by parent index ");
    push_str(&mut s, ancestor);
    push_str(
        &mut s,
        " ; adding a local index costs extra disk and duplicate updates, and under the current brute-force search path it is not a recall fix",
    );
    s
}

/// The note for a new index above an existing one.
pub open spec fn child_note_text(descendant: Seq<char>) -> Seq<char> {
    "note: this directory already contains a nested index at "@ + descendant
        + " ; overlapping indexes cost extra disk and duplicate updates, and under the current brute-force search path they are not needed for recall"@
}

/// The note for a new index above an existing one.
pub fn overlap_child_note(descendant: &str) -> (r: String)
    ensures
        r@ == child_note_text(descendant@),
{
    let mut s = String::new();
    push_str(&mut s, "note: this directory already contains a nested index at ");
    push_str(&mut s, descendant);
    push_str(
        &mut s,
        " ; overlapping indexes cost extra disk and duplicate updates, and under the current brute-force search path they are not needed for recall",
    );
    s
}

/// The error for a search against an index whose schema must be rebuilt.
pub open spec fn rebuild_required_text(root: Seq<char>) -> Seq<char> {
    "zg: index schema/version mismatch at "@ + root + "\n    run `zg index rebuild \""@ + root
        + "\"` to rebuild this index"@
}

/// The error for a search against an index whose schema must be rebuilt.
pub fn schema_rebuild_required_error(root: &str) -> (r: String)
    ensures
        r@ == rebuild_required_text(root@),
{
    let mut s = String::new();
    push_str(&mut s, "zg: index schema/version mismatch at ");
    push_str(&mut s, root);
    push_str(&mut s, "\n    run `zg index rebuild \"");
    push_str(&mut s, root);
    push_str(&mut s, "\"` to rebuild this index");
    s
}

/// The dirty reason recorded for an index whose schema must be rebuilt.
pub open spec fn rebuild_reason_text(root: Seq<char>) -> Seq<char> {
    "index schema/version mismatch; run `zg index rebuild \""@ + root + "\"`"@
}

/// The dirty reason recorded for an index whose schema must be rebuilt.
pub fn schema_rebuild_dirty_reason(root: &str) -> (r: String)
    ensures
        r@ == rebuild_reason_text(root@),
{
    let mut s = String::new();
    push_str(&mut s, "index schema/version mismatch; run `zg index rebuild \"");
    push_str(&mut s, root);
    push_str(&mut s, "\"`");
    s
}

/// The error for an index creation whose size estimate is past the sanity limit.
pub open spec fn force_required_text(root: Seq<char>, level: IndexLevel, preflight: InitPreflight) -> Seq<char> {
    "zg: `"@ + level_name(level) + "` index init for "@ + root + " estimates "@ + decimal(
        preflight.estimated_chunks as nat,
    ) + " chunks (recommended up to "@ + decimal(preflight.recommended_chunk_limit as nat)
        + "); > "@ + decimal(preflight.force_threshold as nat) + " chunks ("@ + decimal(
        INIT_SANITY_CHECK_MULTIPLIER as nat,
    ) + "x) requires `--force`\n    run `zg index init --level "@ + level_name(level)
        + " --force \""@ + root + "\"` to build it anyway"@
}

/// Builds the error for an index creation that needs `--force`.
pub fn init_force_required_error(root: &str, index_level: IndexLevel, preflight: &InitPreflight) -> (r: String)
    ensures
        r@ == force_required_text(root@, index_level, *preflight),
{
    let mut s = String::new();
    push_str(&mut s, "zg: `");
    push_str(&mut s, index_level.as_str());
    push_str(&mut s, "` index init for ");
    push_str(&mut s, root);
    push_str(&mut s, " estimates ");
    push_str(&mut s, decimal_string(preflight.estimated_chunks as u64).as_str());
    push_str(&mut s, " chunks (recommended up to ");
    push_str(&mut s, decimal_string(preflight.recommended_chunk_limit as u64).as_str());
    push_str(&mut s, "); > ");
    push_str(&mut s, decimal_string(preflight.force_threshold as u64).as_str());
    push_str(&mut s, " chunks (");
    push_str(&mut s, decimal_string(INIT_SANITY_CHECK_MULTIPLIER as u64).as_str());
    push_str(&mut s, "x) requires `--force`\n    run `zg index init --level ");
    push_str(&mut s, index_level.as_str());
    push_str(&mut s, " --force \"");
    push_str(&mut s, root);
    push_str(&mut s, "\"` to build it anyway");
    s
}

} // verus!
