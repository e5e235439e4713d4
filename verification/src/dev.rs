//! Developer tooling around a fixed sample vault: where its checkout lives, whether an
//! existing checkout can be reused, and the benchmark and probe reports.
use vstd::prelude::*;

use crate::index::types::{level_name, IndexLevel};
use crate::paths::{join_path, joined, parent, parent_of};
use crate::index::evaluation::{
    debug_quoted, debug_text, ChunkProbeEntry, ChunkProbeReport, DbCacheProbeReport, DbCacheTotals,
    FileChunkCount, IndexRunProbe, KeyCount, SharedChunkCount,
};
use crate::render::{lines_text, maybe_line, push_line, push_text_line, yes_no, yes_no_text};
use crate::text::{decimal, decimal_string, push_str};
use crate::{other, ZgError};

verus! {

/// Where a sample vault comes from and where its checkout goes.
#[derive(Clone, Debug)]
pub struct SampleVaultManifest {
    pub id: String,
    pub description: String,
    pub repository: String,
    pub tag: String,
    pub commit: String,
    pub checkout_dir: String,
}

/// A sample vault checkout that is ready to use.
#[derive(Clone, Debug)]
pub struct EnsuredSampleVault {
    pub manifest_path: String,
    pub id: String,
    pub path: String,
    pub commit: String,
    pub status: String,
}

/// One timed query of a benchmark run.
#[derive(Clone, Debug)]
pub struct SampleVaultBenchmarkCaseReport {
    pub id: String,
    pub query: String,
    pub scope: Option<String>,
    pub repeat_index: usize,
    pub elapsed_ms: u64,
    pub exit_code: i32,
    pub stdout_lines: usize,
}

/// The benchmark results of one index level.
#[derive(Clone, Debug)]
pub struct SampleVaultBenchmarkLevelReport {
    pub level: IndexLevel,
    pub scratch_vault: String,
    pub init_elapsed_ms: u64,
    pub status_file_count: u64,
    pub status_chunk_count: u64,
    pub query_total_elapsed_ms: u64,
    pub query_mean_elapsed_ms: u64,
    pub query_p50_elapsed_ms: u64,
    pub query_p95_elapsed_ms: u64,
    pub cases: Vec<SampleVaultBenchmarkCaseReport>,
}

/// A benchmark run over the sample vault at both index levels.
#[derive(Clone, Debug)]
pub struct SampleVaultBenchmarkReport {
    pub fixture_path: String,
    pub source_vault: String,
    pub scratch_root: String,
    pub fake_embeddings: bool,
    pub repeat: usize,
    pub levels: Vec<SampleVaultBenchmarkLevelReport>,
}

/// A path named relative to the directory of `file`: `rel` itself when absolute, else `rel`
/// joined to the parent of `file` (or to `.` when it has none).
pub open spec fn beside(file: Seq<char>, rel: Seq<char>) -> Seq<char> {
    joined(
        match parent_of(file) {
            Some(p) => p,
            None => "."@,
        },
        rel,
    )
}

/// The checkout directory a manifest names, relative to the manifest's directory.
pub fn resolve_checkout_dir(manifest_path: &str, checkout_dir: &str) -> (r: String)
    ensures
        r@ == beside(manifest_path@, checkout_dir@),
{
    match parent(manifest_path) {
        Some(p) => join_path(p.as_str(), checkout_dir),
        None => join_path(".", checkout_dir),
    }
}

/// The sample vault manifest a fixture names, relative to the fixture's directory.
pub fn fixture_manifest_path(fixture_path: &str, manifest: &str) -> (r: String)
    ensures
        r@ == beside(fixture_path@, manifest@),
{
    resolve_checkout_dir(fixture_path, manifest)
}

/// The error for a checkout on another commit when replacing it was not asked for.
pub open spec fn checkout_mismatch_text(checkout: Seq<char>, head: Seq<char>, expected: Seq<char>) -> Seq<char> {
    "sample vault checkout at "@ + checkout + " is on commit "@ + head + ", expected "@ + expected
        + "; rerun with --force to replace it"@
}

/// Decides about an existing checkout on commit `head`: reuse it when it is on the expected
/// commit (`Ok(true)`), replace it when `force` asks for that (`Ok(false)`), else refuse.
pub fn existing_checkout(checkout: &str, head: &str, expected: &str, force: bool) -> (r: Result<bool, ZgError>)
    ensures
        head@ == expected@ ==> r == Ok::<bool, ZgError>(true),
        head@ != expected@ && force ==> r == Ok::<bool, ZgError>(false),
        head@ != expected@ && !force ==> (r matches Err(e) && e.message@ == checkout_mismatch_text(checkout@, head@, expected@)),
{
    if crate::text::same_text(head, expected) {
        return Ok(true);
    }
    if force {
        return Ok(false);
    }
    let mut s = String::new();
    push_str(&mut s, "sample vault checkout at ");
    push_str(&mut s, checkout);
    push_str(&mut s, " is on commit ");
    push_str(&mut s, head);
    push_str(&mut s, ", expected ");
    push_str(&mut s, expected);
    push_str(&mut s, "; rerun with --force to replace it");
    Err(other(s))
}

/// Checks that a fresh clone landed on the expected commit.
pub fn cloned_checkout(checkout: &str, head: &str, expected: &str) -> (r: Result<(), ZgError>)
    ensures
        r is Ok <==> head@ == expected@,
        r matches Err(e) ==> e.message@ == "sample vault cloned to "@ + checkout@ + ", but HEAD is "@ + head@
            + " instead of expected "@ + expected@,
{
    if crate::text::same_text(head, expected) {
        return Ok(());
    }
    let mut s = String::new();
    push_str(&mut s, "sample vault cloned to ");
    push_str(&mut s, checkout);
    push_str(&mut s, ", but HEAD is ");
    push_str(&mut s, head);
    push_str(&mut s, " instead of expected ");
    push_str(&mut s, expected);
    Err(other(s))
}

/// The error for a clone that failed.
pub fn clone_failed(repository: &str, tag: &str) -> (r: ZgError)
    ensures
        r.message@ == "failed to clone sample vault from "@ + repository@ + " tag "@ + tag@,
{
    let mut s = String::new();
    push_str(&mut s, "failed to clone sample vault from ");
    push_str(&mut s, repository);
    push_str(&mut s, " tag ");
    push_str(&mut s, tag);
    other(s)
}

/// The scratch directory name of a level: its name with `+` written as `-`.
pub fn scratch_dir_name(level: IndexLevel) -> (r: &'static str)
    ensures
        r@ == (match level {
            IndexLevel::Fts => "fts"@,
            IndexLevel::FtsVector => "fts-vector"@,
        }),
{
    match level {
        IndexLevel::Fts => "fts",
        IndexLevel::FtsVector => "fts-vector",
    }
}

/// How many times each benchmark query runs: at least once.
pub fn benchmark_repeats(repeat: usize) -> (r: usize)
    ensures
        r == (if repeat == 0 { 1 } else { repeat }),
{
    if repeat == 0 {
        1
    } else {
        repeat
    }
}

/// The lines that report one probed chunk.
pub open spec fn probe_entry_lines(e: ChunkProbeEntry) -> Seq<Seq<char>> {
    seq![
        Seq::empty(),
        "#"@ + decimal(e.chunk_index as nat) + " "@ + e.chunk_kind@ + " "@ + decimal(e.line_start as nat) + "-"@
            + decimal(e.line_end as nat),
    ] + maybe_line(match e.language {
        Some(l) => Some("language: "@ + l@),
        None => None,
    }) + maybe_line(match e.symbol_kind {
        Some(k) => Some("symbol kind: "@ + k@),
        None => None,
    }) + maybe_line(match e.container {
        Some(c) => Some("container: "@ + c@),
        None => None,
    }) + seq![
        "raw: "@ + debug_text(e.raw_text@),
        "normalized: "@ + debug_text(e.normalized_text@),
        "shared normalized: "@ + debug_text(e.shared_normalized_text@),
        "shared hash: "@ + e.shared_normalized_text_hash@,
    ]
}

/// The lines that report the first `n` probed chunks.
pub open spec fn probe_entries_lines(entries: Seq<ChunkProbeEntry>, n: int) -> Seq<Seq<char>>
    decreases n,
{
    if n <= 0 {
        Seq::empty()
    } else {
        probe_entries_lines(entries, n - 1) + probe_entry_lines(entries[n - 1])
    }
}

/// The text of a chunk probe report.
pub open spec fn chunk_probe_text(report: ChunkProbeReport) -> Seq<char> {
    lines_text(
        seq!["path: "@ + report.path@, "chunks: "@ + decimal(report.chunk_count as nat)]
            + probe_entries_lines(report.chunks@, report.chunks@.len() as int),
    )
}

fn push_optional_line(s: &mut String, name: &str, value: &Option<String>, Ghost(lines): Ghost<Seq<Seq<char>>>) -> (r: Ghost<
    Seq<Seq<char>>,
>)
    requires
        old(s)@ == lines_text(lines),
    ensures
        r@ == lines + maybe_line(match *value {
            Some(v) => Some(name@ + v@),
            None => None,
        }),
        final(s)@ == lines_text(r@),
{
    match value {
        Some(v) => {
            let g = push_line(s, name, v.as_str(), Ghost(lines));
            assert(g@ =~= lines + seq![name@ + v@]);
            g
        },
        None => {
            assert(lines + Seq::<Seq<char>>::empty() =~= lines);
            Ghost(lines)
        },
    }
}

#[verifier::rlimit(100)]
#[verifier::spinoff_prover]
fn push_probe_entry(s: &mut String, e: &ChunkProbeEntry, Ghost(lines): Ghost<Seq<Seq<char>>>) -> (r: Ghost<Seq<Seq<char>>>)
    requires
        old(s)@ == lines_text(lines),
    ensures
        r@ == lines + probe_entry_lines(*e),
        final(s)@ == lines_text(r@),
{
    let Ghost(h1) = push_text_line(s, "", Ghost(lines));
    let mut title = String::new();
    push_str(&mut title, "#");
    push_str(&mut title, decimal_string(e.chunk_index as u64).as_str());
    push_str(&mut title, " ");
    push_str(&mut title, e.chunk_kind.as_str());
    push_str(&mut title, " ");
    push_str(&mut title, decimal_string(e.line_start as u64).as_str());
    push_str(&mut title, "-");
    push_str(&mut title, decimal_string(e.line_end as u64).as_str());
    let Ghost(h2) = push_text_line(s, title.as_str(), Ghost(h1));
    let Ghost(h3) = push_optional_line(s, "language: ", &e.language, Ghost(h2));
    let Ghost(h4) = push_optional_line(s, "symbol kind: ", &e.symbol_kind, Ghost(h3));
    let Ghost(h5) = push_optional_line(s, "container: ", &e.container, Ghost(h4));
    let Ghost(h6) = push_line(s, "raw: ", debug_quoted(e.raw_text.as_str()).as_str(), Ghost(h5));
    let Ghost(h7) = push_line(s, "normalized: ", debug_quoted(e.normalized_text.as_str()).as_str(), Ghost(h6));
    let Ghost(h8) = push_line(s, "shared normalized: ", debug_quoted(e.shared_normalized_text.as_str()).as_str(), Ghost(h7));
    let Ghost(h9) = push_line(s, "shared hash: ", e.shared_normalized_text_hash.as_str(), Ghost(h8));
    proof {
        reveal_strlit("");
        assert(""@ =~= Seq::<char>::empty());
        assert(h9 =~= lines + probe_entry_lines(*e));
    }
    Ghost(h9)
}

/// Renders a chunk probe report.
pub fn format_chunk_probe(report: &ChunkProbeReport) -> (r: String)
    ensures
        r@ == chunk_probe_text(*report),
{
    let mut s = String::new();
    let ghost g0: Seq<Seq<char>> = Seq::empty();
    let Ghost(g1) = push_line(&mut s, "path: ", report.path.as_str(), Ghost(g0));
    let Ghost(g2) = push_line(&mut s, "chunks: ", decimal_string(report.chunk_count as u64).as_str(), Ghost(g1));
    let ghost head = g2;
    let ghost mut g = g2;
    let mut i: usize = 0;
    assert(head + probe_entries_lines(report.chunks@, 0) =~= head);
    while i < report.chunks.len()
        invariant
            i <= report.chunks@.len(),
            s@ == lines_text(g),
            g == head + probe_entries_lines(report.chunks@, i as int),
        decreases report.chunks@.len() - i,
    {
        let ghost start = g;
        let Ghost(h) = push_probe_entry(&mut s, &report.chunks[i], Ghost(g));
        proof {
            assert(head + probe_entries_lines(report.chunks@, i + 1) =~= start + probe_entry_lines(report.chunks@[i as int]));
            g = h;
        }
        i = i + 1;
    }
    assert(seq!["path: "@ + report.path@, "chunks: "@ + decimal(report.chunk_count as nat)] =~= head);
    s
}

/// The lines listing key counts, `  key count` each.
pub open spec fn key_count_lines(items: Seq<KeyCount>, n: int) -> Seq<Seq<char>>
    decreases n,
{
    if n <= 0 {
        Seq::empty()
    } else {
        key_count_lines(items, n - 1).push("  "@ + items[n - 1].key@ + " "@ + decimal(items[n - 1].count as nat))
    }
}

/// The lines listing files by chunk count, `  count path` each.
pub open spec fn file_count_lines(items: Seq<FileChunkCount>, n: int) -> Seq<Seq<char>>
    decreases n,
{
    if n <= 0 {
        Seq::empty()
    } else {
        file_count_lines(items, n - 1).push("  "@ + decimal(items[n - 1].chunk_count as nat) + " "@ + items[n - 1].rel_path@)
    }
}

/// The lines listing shared chunks, `  ref_count=N "preview"` each.
pub open spec fn shared_count_lines(items: Seq<SharedChunkCount>, n: int) -> Seq<Seq<char>>
    decreases n,
{
    if n <= 0 {
        Seq::empty()
    } else {
        shared_count_lines(items, n - 1).push(
            "  ref_count="@ + decimal(items[n - 1].ref_count as nat) + " "@ + debug_text(items[n - 1].normalized_text_preview@),
        )
    }
}

/// The lines about the latest index run, if there is one.
pub open spec fn last_run_lines(run: Option<IndexRunProbe>) -> Seq<Seq<char>> {
    match run {
        Some(r) => seq![
            "last index run: "@ + r.status@ + " ["@ + decimal(r.indexed_files as nat) + " indexed / "@ + decimal(
                r.scanned_files as nat,
            ) + " scanned / "@ + decimal(r.chunks_indexed as nat) + " chunks]"@,
        ] + maybe_line(match r.error {
            Some(e) => Some("last index run error: "@ + e@),
            None => None,
        }),
        None => Seq::empty(),
    }
}

/// The totals line of a database probe.
pub open spec fn totals_line(t: DbCacheTotals) -> Seq<char> {
    "totals: files="@ + decimal(t.files as nat) + " chunk_refs="@ + decimal(t.chunk_refs as nat)
        + " shared_chunks="@ + decimal(t.shared_chunks as nat) + " vec_chunks="@ + decimal(
        t.vec_chunks as nat,
    ) + " vec_index_rows="@ + decimal(t.vec_index_rows as nat) + " fts_rows="@ + decimal(
        t.fts_rows as nat,
    )
}

/// The lines of a database probe report.
pub open spec fn db_probe_lines(r: DbCacheProbeReport) -> Seq<Seq<char>> {
    seq![
        "requested path: "@ + r.requested_path@,
        "index root: "@ + r.index_root@,
        "indexed: "@ + yes_no_text(r.status.indexed),
        "dirty: "@ + yes_no_text(r.status.dirty),
        totals_line(r.totals),
        "chunk kinds:"@,
    ] + key_count_lines(r.chunk_kinds@, r.chunk_kinds@.len() as int) + seq!["symbol languages:"@]
        + key_count_lines(r.symbol_languages@, r.symbol_languages@.len() as int) + seq!["symbol kinds:"@]
        + key_count_lines(r.symbol_kinds@, r.symbol_kinds@.len() as int) + seq!["top files by chunks:"@]
        + file_count_lines(r.top_files_by_chunks@, r.top_files_by_chunks@.len() as int) + seq![
        "top shared chunks:"@,
    ] + shared_count_lines(r.top_shared_chunks@, r.top_shared_chunks@.len() as int) + last_run_lines(
        r.last_index_run,
    )
}

fn push_key_counts(s: &mut String, items: &Vec<KeyCount>, Ghost(lines): Ghost<Seq<Seq<char>>>) -> (r: Ghost<Seq<Seq<char>>>)
    requires
        old(s)@ == lines_text(lines),
    ensures
        r@ == lines + key_count_lines(items@, items@.len() as int),
        final(s)@ == lines_text(r@),
{
    let ghost mut g = lines;
    let mut i: usize = 0;
    assert(lines + key_count_lines(items@, 0) =~= lines);
    while i < items.len()
        invariant
            i <= items@.len(),
            s@ == lines_text(g),
            g == lines + key_count_lines(items@, i as int),
        decreases items@.len() - i,
    {
        let mut line = String::new();
        push_str(&mut line, "  ");
        push_str(&mut line, items[i].key.as_str());
        push_str(&mut line, " ");
        push_str(&mut line, decimal_string(items[i].count).as_str());
        let Ghost(h) = push_text_line(s, line.as_str(), Ghost(g));
        proof {
            assert(h =~= lines + key_count_lines(items@, i + 1));
            g = h;
        }
        i = i + 1;
    }
    Ghost(g)
}

fn push_file_counts(s: &mut String, items: &Vec<FileChunkCount>, Ghost(lines): Ghost<Seq<Seq<char>>>) -> (r: Ghost<Seq<Seq<char>>>)
    requires
        old(s)@ == lines_text(lines),
    ensures
        r@ == lines + file_count_lines(items@, items@.len() as int),
        final(s)@ == lines_text(r@),
{
    let ghost mut g = lines;
    let mut i: usize = 0;
    assert(lines + file_count_lines(items@, 0) =~= lines);
    while i < items.len()
        invariant
            i <= items@.len(),
            s@ == lines_text(g),
            g == lines + file_count_lines(items@, i as int),
        decreases items@.len() - i,
    {
        let mut line = String::new();
        push_str(&mut line, "  ");
        push_str(&mut line, decimal_string(items[i].chunk_count).as_str());
        push_str(&mut line, " ");
        push_str(&mut line, items[i].rel_path.as_str());
        let Ghost(h) = push_text_line(s, line.as_str(), Ghost(g));
        proof {
            assert(h =~= lines + file_count_lines(items@, i + 1));
            g = h;
        }
        i = i + 1;
    }
    Ghost(g)
}

fn push_shared_counts(s: &mut String, items: &Vec<SharedChunkCount>, Ghost(lines): Ghost<Seq<Seq<char>>>) -> (r: Ghost<Seq<Seq<char>>>)
    requires
        old(s)@ == lines_text(lines),
    ensures
        r@ == lines + shared_count_lines(items@, items@.len() as int),
        final(s)@ == lines_text(r@),
{
    let ghost mut g = lines;
    let mut i: usize = 0;
    assert(lines + shared_count_lines(items@, 0) =~= lines);
    while i < items.len()
        invariant
            i <= items@.len(),
            s@ == lines_text(g),
            g == lines + shared_count_lines(items@, i as int),
        decreases items@.len() - i,
    {
        let mut line = String::new();
        push_str(&mut line, "  ref_count=");
        push_str(&mut line, decimal_string(items[i].ref_count).as_str());
        push_str(&mut line, " ");
        push_str(&mut line, debug_quoted(items[i].normalized_text_preview.as_str()).as_str());
        let Ghost(h) = push_text_line(s, line.as_str(), Ghost(g));
        proof {
            assert(h =~= lines + shared_count_lines(items@, i + 1));
            g = h;
        }
        i = i + 1;
    }
    Ghost(g)
}

#[verifier::rlimit(100)]
#[verifier::spinoff_prover]
fn push_db_header(s: &mut String, r: &DbCacheProbeReport, Ghost(lines): Ghost<Seq<Seq<char>>>) -> (g: Ghost<Seq<Seq<char>>>)
    requires
        old(s)@ == lines_text(lines),
        lines.len() == 0,
    ensures
        g@ == db_probe_lines(*r).take(5),
        final(s)@ == lines_text(g@),
{
    let Ghost(g1) = push_line(s, "requested path: ", r.requested_path.as_str(), Ghost(lines));
    let Ghost(g2) = push_line(s, "index root: ", r.index_root.as_str(), Ghost(g1));
    let Ghost(g3) = push_line(s, "indexed: ", yes_no(r.status.indexed), Ghost(g2));
    let Ghost(g4) = push_line(s, "dirty: ", yes_no(r.status.dirty), Ghost(g3));
    let t = &r.totals;
    let mut line = String::new();
    push_str(&mut line, "totals: files=");
    push_str(&mut line, decimal_string(t.files).as_str());
    push_str(&mut line, " chunk_refs=");
    push_str(&mut line, decimal_string(t.chunk_refs).as_str());
    push_str(&mut line, " shared_chunks=");
    push_str(&mut line, decimal_string(t.shared_chunks).as_str());
    push_str(&mut line, " vec_chunks=");
    push_str(&mut line, decimal_string(t.vec_chunks).as_str());
    push_str(&mut line, " vec_index_rows=");
    push_str(&mut line, decimal_string(t.vec_index_rows).as_str());
    push_str(&mut line, " fts_rows=");
    push_str(&mut line, decimal_string(t.fts_rows).as_str());
    assert(line@ =~= totals_line(r.totals));
    let Ghost(g5) = push_text_line(s, line.as_str(), Ghost(g4));
    assert(g5 =~= db_probe_lines(*r).take(5));
    Ghost(g5)
}

#[verifier::rlimit(100)]
#[verifier::spinoff_prover]
fn push_last_run(s: &mut String, run: &Option<IndexRunProbe>, Ghost(lines): Ghost<Seq<Seq<char>>>) -> (g: Ghost<Seq<Seq<char>>>)
    requires
        old(s)@ == lines_text(lines),
    ensures
        g@ == lines + last_run_lines(*run),
        final(s)@ == lines_text(g@),
{
    match run {
        Some(r) => {
            let mut line = String::new();
            push_str(&mut line, "last index run: ");
            push_str(&mut line, r.status.as_str());
            push_str(&mut line, " [");
            push_str(&mut line, decimal_string(r.indexed_files).as_str());
            push_str(&mut line, " indexed / ");
            push_str(&mut line, decimal_string(r.scanned_files).as_str());
            push_str(&mut line, " scanned / ");
            push_str(&mut line, decimal_string(r.chunks_indexed).as_str());
            push_str(&mut line, " chunks]");
            let Ghost(g1) = push_text_line(s, line.as_str(), Ghost(lines));
            let Ghost(g2) = push_optional_line(s, "last index run error: ", &r.error, Ghost(g1));
            assert(g2 =~= lines + last_run_lines(*run));
            Ghost(g2)
        },
        None => {
            assert(lines + last_run_lines(*run) =~= lines);
            Ghost(lines)
        },
    }
}

/// Renders a database cache probe report.
#[verifier::rlimit(100)]
#[verifier::spinoff_prover]
pub fn format_db_cache_probe(report: &DbCacheProbeReport) -> (r: String)
    ensures
        r@ == lines_text(db_probe_lines(*report)),
{
    let mut s = String::new();
    let ghost all = db_probe_lines(*report);
    let Ghost(g5) = push_db_header(&mut s, report, Ghost(Seq::empty()));
    let Ghost(g6) = push_text_line(&mut s, "chunk kinds:", Ghost(g5));
    let Ghost(g7) = push_key_counts(&mut s, &report.chunk_kinds, Ghost(g6));
    let Ghost(g8) = push_text_line(&mut s, "symbol languages:", Ghost(g7));
    let Ghost(g9) = push_key_counts(&mut s, &report.symbol_languages, Ghost(g8));
    let Ghost(g10) = push_text_line(&mut s, "symbol kinds:", Ghost(g9));
    let Ghost(g11) = push_key_counts(&mut s, &report.symbol_kinds, Ghost(g10));
    let Ghost(g12) = push_text_line(&mut s, "top files by chunks:", Ghost(g11));
    let Ghost(g13) = push_file_counts(&mut s, &report.top_files_by_chunks, Ghost(g12));
    let Ghost(g14) = push_text_line(&mut s, "top shared chunks:", Ghost(g13));
    let Ghost(g15) = push_shared_counts(&mut s, &report.top_shared_chunks, Ghost(g14));
    let Ghost(g16) = push_last_run(&mut s, &report.last_index_run, Ghost(g15));
    assert(g16 =~= all);
    s
}

/// The line of one timed benchmark query.
pub open spec fn bench_case_line(c: SampleVaultBenchmarkCaseReport) -> Seq<char> {
    "  "@ + c.id@ + "#"@ + decimal(c.repeat_index as nat) + " "@ + decimal(c.elapsed_ms as nat) + "ms lines="@
        + decimal(c.stdout_lines as nat) + " "@ + c.query@
}

/// The lines of the first `n` timed queries.
pub open spec fn bench_case_lines(cases: Seq<SampleVaultBenchmarkCaseReport>, n: int) -> Seq<Seq<char>>
    decreases n,
{
    if n <= 0 {
        Seq::empty()
    } else {
        bench_case_lines(cases, n - 1).push(bench_case_line(cases[n - 1]))
    }
}

/// The lines of one level of a benchmark run.
pub open spec fn bench_level_lines(l: SampleVaultBenchmarkLevelReport) -> Seq<Seq<char>> {
    seq![
        Seq::empty(),
        "["@ + level_name(l.level) + "]"@,
        "init ms: "@ + decimal(l.init_elapsed_ms as nat),
        "status: files="@ + decimal(l.status_file_count as nat) + " chunks="@ + decimal(l.status_chunk_count as nat),
        "queries: total="@ + decimal(l.query_total_elapsed_ms as nat) + "ms mean="@ + decimal(
            l.query_mean_elapsed_ms as nat,
        ) + "ms p50="@ + decimal(l.query_p50_elapsed_ms as nat) + "ms p95="@ + decimal(
            l.query_p95_elapsed_ms as nat,
        ) + "ms"@,
    ] + bench_case_lines(l.cases@, l.cases@.len() as int)
}

/// The lines of the first `n` levels.
pub open spec fn bench_levels_lines(levels: Seq<SampleVaultBenchmarkLevelReport>, n: int) -> Seq<Seq<char>>
    decreases n,
{
    if n <= 0 {
        Seq::empty()
    } else {
        bench_levels_lines(levels, n - 1) + bench_level_lines(levels[n - 1])
    }
}

/// The lines of a benchmark report.
pub open spec fn bench_lines(r: SampleVaultBenchmarkReport) -> Seq<Seq<char>> {
    seq![
        "fixture: "@ + r.fixture_path@,
        "source vault: "@ + r.source_vault@,
        "fake embeddings: "@ + yes_no_text(r.fake_embeddings),
        "repeat: "@ + decimal(r.repeat as nat),
    ] + maybe_line(if r.scratch_root@.len() > 0 {
        Some("scratch root: "@ + r.scratch_root@)
    } else {
        None
    }) + bench_levels_lines(r.levels@, r.levels@.len() as int)
}

#[verifier::rlimit(100)]
#[verifier::spinoff_prover]
fn push_bench_level(s: &mut String, l: &SampleVaultBenchmarkLevelReport, Ghost(lines): Ghost<Seq<Seq<char>>>) -> (g: Ghost<
    Seq<Seq<char>>,
>)
    requires
        old(s)@ == lines_text(lines),
    ensures
        g@ == lines + bench_level_lines(*l),
        final(s)@ == lines_text(g@),
{
    let Ghost(g1) = push_text_line(s, "", Ghost(lines));
    let mut title = String::new();
    push_str(&mut title, "[");
    push_str(&mut title, l.level.as_str());
    push_str(&mut title, "]");
    let Ghost(g2) = push_text_line(s, title.as_str(), Ghost(g1));
    let Ghost(g3) = push_line(s, "init ms: ", decimal_string(l.init_elapsed_ms).as_str(), Ghost(g2));
    let mut status = String::new();
    push_str(&mut status, "status: files=");
    push_str(&mut status, decimal_string(l.status_file_count).as_str());
    push_str(&mut status, " chunks=");
    push_str(&mut status, decimal_string(l.status_chunk_count).as_str());
    let Ghost(g4) = push_text_line(s, status.as_str(), Ghost(g3));
    let mut queries = String::new();
    push_str(&mut queries, "queries: total=");
    push_str(&mut queries, decimal_string(l.query_total_elapsed_ms).as_str());
    push_str(&mut queries, "ms mean=");
    push_str(&mut queries, decimal_string(l.query_mean_elapsed_ms).as_str());
    push_str(&mut queries, "ms p50=");
    push_str(&mut queries, decimal_string(l.query_p50_elapsed_ms).as_str());
    push_str(&mut queries, "ms p95=");
    push_str(&mut queries, decimal_string(l.query_p95_elapsed_ms).as_str());
    push_str(&mut queries, "ms");
    let Ghost(g5) = push_text_line(s, queries.as_str(), Ghost(g4));
    proof {
        reveal_strlit("");
        assert(""@ =~= Seq::<char>::empty());
    }
    let ghost head = g5;
    assert(head =~= lines + bench_level_lines(*l).take(5));
    let ghost mut g = g5;
    let mut i: usize = 0;
    assert(head + bench_case_lines(l.cases@, 0) =~= head);
    while i < l.cases.len()
        invariant
            i <= l.cases@.len(),
            s@ == lines_text(g),
            g == head + bench_case_lines(l.cases@, i as int),
        decreases l.cases@.len() - i,
    {
        let c = &l.cases[i];
        let mut line = String::new();
        push_str(&mut line, "  ");
        push_str(&mut line, c.id.as_str());
        push_str(&mut line, "#");
        push_str(&mut line, decimal_string(c.repeat_index as u64).as_str());
        push_str(&mut line, " ");
        push_str(&mut line, decimal_string(c.elapsed_ms).as_str());
        push_str(&mut line, "ms lines=");
        push_str(&mut line, decimal_string(c.stdout_lines as u64).as_str());
        push_str(&mut line, " ");
        push_str(&mut line, c.query.as_str());
        assert(line@ =~= bench_case_line(*c));
        let Ghost(h) = push_text_line(s, line.as_str(), Ghost(g));
        proof {
            assert(h =~= head + bench_case_lines(l.cases@, i + 1));
            g = h;
        }
        i = i + 1;
    }
    assert(g =~= lines + bench_level_lines(*l));
    Ghost(g)
}

/// Renders a benchmark report.
#[verifier::rlimit(100)]
#[verifier::spinoff_prover]
pub fn format_sample_vault_benchmark(report: &SampleVaultBenchmarkReport) -> (r: String)
    ensures
        r@ == lines_text(bench_lines(*report)),
{
    let mut s = String::new();
    let ghost g0: Seq<Seq<char>> = Seq::empty();
    let Ghost(g1) = push_line(&mut s, "fixture: ", report.fixture_path.as_str(), Ghost(g0));
    let Ghost(g2) = push_line(&mut s, "source vault: ", report.source_vault.as_str(), Ghost(g1));
    let Ghost(g3) = push_line(&mut s, "fake embeddings: ", yes_no(report.fake_embeddings), Ghost(g2));
    let Ghost(g4) = push_line(&mut s, "repeat: ", decimal_string(report.repeat as u64).as_str(), Ghost(g3));
    let Ghost(g5) = if !report.scratch_root.as_str().is_empty() {
        push_line(&mut s, "scratch root: ", report.scratch_root.as_str(), Ghost(g4))
    } else {
        Ghost(g4)
    };
    let ghost head = g5;
    assert(head =~= bench_lines(*report).take(head.len() as int));
    let ghost mut g = g5;
    let mut i: usize = 0;
    assert(head + bench_levels_lines(report.levels@, 0) =~= head);
    while i < report.levels.len()
        invariant
            i <= report.levels@.len(),
            s@ == lines_text(g),
            g == head + bench_levels_lines(report.levels@, i as int),
        decreases report.levels@.len() - i,
    {
        let ghost start = g;
        let Ghost(h) = push_bench_level(&mut s, &report.levels[i], Ghost(g));
        proof {
            assert(head + bench_levels_lines(report.levels@, i + 1) =~= start + bench_level_lines(report.levels@[i as int]));
            g = h;
        }
        i = i + 1;
    }
    assert(g =~= bench_lines(*report));
    s
}

} // verus!
