//! The decisions that keep an index in step with the files on disk: size checks before
//! creation, which root answers a search, what a failed reconcile records, how status is
//! read back, and how long a writer waits for the database lock.
use vstd::prelude::*;

use crate::index::types::{
    level_name, recommended_limit, IndexLevel, IndexStatus, InitPreflight, RebuildStats, DEFAULT_CHUNK_MARKER,
    DEFAULT_CHUNK_MODE, DEFAULT_INDEX_LEVEL, DEFAULT_SCOPE_POLICY, DEFAULT_WALK_POLICY,
    FTS_PROMPT_MAX_CHUNKS, INIT_SANITY_CHECK_MULTIPLIER, VECTOR_PROMPT_MAX_CHUNKS,
};
use crate::messages::{
    explicit_index_required_error, index_required_text, is_schema_version_mismatch,
    overlap_child_note, overlap_parent_note, parent_note_text, child_note_text,
    rebuild_reason_text, rebuild_required_text, schema_rebuild_dirty_reason,
    schema_rebuild_required_error, INDEX_SCHEMA_VERSION_MISMATCH,
};
use crate::index::util::forward_slashes;
use crate::paths::{
    find_index_root, index_root_candidates, parent, parent_of, relative_to, root_candidates,
};
use crate::index::chunking::IndexedDocument;
use crate::text::opt_text;
use vstd::hash_map::StringHashMap;
use vstd::hash_set::StringHashSet;
use crate::{other, ZgError};

verus! {

/// Sizes a prospective index: the estimate, the level's recommended limit, and whether the
/// estimate is so far above it that creation needs `--force`.
pub fn preflight_init(index_level: IndexLevel, estimated_chunks: usize) -> (r: InitPreflight)
    ensures
        r.estimated_chunks == estimated_chunks,
        r.recommended_chunk_limit == recommended_limit(index_level),
        r.force_threshold == recommended_limit(index_level) * INIT_SANITY_CHECK_MULTIPLIER,
        r.requires_force == (estimated_chunks > recommended_limit(index_level)
            * INIT_SANITY_CHECK_MULTIPLIER),
{
    let recommended_chunk_limit = index_level.recommended_chunk_limit();
    let force_threshold = index_level.init_force_chunk_limit();
    InitPreflight {
        estimated_chunks,
        recommended_chunk_limit,
        force_threshold,
        requires_force: estimated_chunks > force_threshold,
    }
}

/// The first marked candidate, as `find_index_root` picks it.
pub open spec fn first_indexed(candidates: Seq<Seq<char>>, indexed: Seq<bool>) -> Option<Seq<char>>
    decreases candidates.len(),
{
    if candidates.len() == 0 || indexed.len() == 0 {
        None
    } else if indexed[0] {
        Some(candidates[0])
    } else {
        first_indexed(candidates.drop_first(), indexed.drop_first())
    }
}

proof fn lemma_first_indexed(candidates: Seq<Seq<char>>, indexed: Seq<bool>, i: int)
    requires
        candidates.len() == indexed.len(),
        0 <= i < indexed.len(),
        indexed[i],
        forall|j: int| 0 <= j < i ==> !indexed[j],
    ensures
        first_indexed(candidates, indexed) == Some(candidates[i]),
    decreases i,
{
    if i > 0 {
        lemma_first_indexed(candidates.drop_first(), indexed.drop_first(), i - 1);
    }
}

proof fn lemma_first_indexed_none(candidates: Seq<Seq<char>>, indexed: Seq<bool>)
    requires
        candidates.len() == indexed.len(),
        forall|j: int| 0 <= j < indexed.len() ==> !indexed[j],
    ensures
        first_indexed(candidates, indexed) is None,
    decreases candidates.len(),
{
    if candidates.len() > 0 {
        lemma_first_indexed_none(candidates.drop_first(), indexed.drop_first());
    }
}

/// The directory that would own an index for a search scope: the scope itself when it is a
/// directory, else its parent.
pub open spec fn search_dir(scope: Seq<char>, scope_is_dir: bool) -> Option<Seq<char>> {
    if scope_is_dir {
        Some(scope)
    } else {
        parent_of(scope)
    }
}

/// What a plain-text search over `scope` is answered with: the nearest index root, or the
/// error that asks for an index, with the chunk estimate of the directory that would own it.
pub open spec fn search_root_outcome(
    scope: Seq<char>,
    scope_is_dir: bool,
    indexed: Seq<bool>,
    estimated_chunks: usize,
) -> Result<Seq<char>, Seq<char>> {
    match first_indexed(root_candidates(scope, scope_is_dir), indexed) {
        Some(root) => Ok(root),
        None => match search_dir(scope, scope_is_dir) {
            Some(dir) => Err(
                index_required_text(
                    dir,
                    estimated_chunks,
                    estimated_chunks <= FTS_PROMPT_MAX_CHUNKS,
                    estimated_chunks <= VECTOR_PROMPT_MAX_CHUNKS,
                ),
            ),
            None => Err("cannot determine directory index root for search"@),
        },
    }
}

/// Finds the index root that answers a plain-text search over `scope`. `indexed` says, for
/// each candidate of `index_root_candidates(scope, scope_is_dir)`, whether it holds an index;
/// `estimated_chunks` is the estimate for the directory that would own a new index.
pub fn require_index_root_for_search(
    scope: &str,
    scope_is_dir: bool,
    indexed: &Vec<bool>,
    estimated_chunks: usize,
) -> (r: Result<String, ZgError>)
    requires
        indexed@.len() == root_candidates(scope@, scope_is_dir).len(),
    ensures
        r matches Ok(root) ==> search_root_outcome(scope@, scope_is_dir, indexed@, estimated_chunks)
            == Ok::<Seq<char>, Seq<char>>(root@),
        r matches Err(e) ==> search_root_outcome(scope@, scope_is_dir, indexed@, estimated_chunks)
            == Err::<Seq<char>, Seq<char>>(e.message@),
{
    let candidates = index_root_candidates(scope, scope_is_dir);
    let found = find_index_root(&candidates, indexed);
    let ghost cands = crate::string_views(candidates@);
    match found {
        Some(root) => {
            proof {
                let i = choose|i: int|
                    0 <= i < indexed@.len() && indexed@[i] && root@ == candidates@[i]@ && (forall|
                        j: int,
                    | 0 <= j < i ==> !indexed@[j]);
                lemma_first_indexed(cands, indexed@, i);
            }
            Ok(root)
        },
        None => {
            proof {
                lemma_first_indexed_none(cands, indexed@);
            }
            let dir = if scope_is_dir {
                Some(scope.to_owned())
            } else {
                parent(scope)
            };
            match dir {
                Some(dir) => {
                    let message = explicit_index_required_error(
                        dir.as_str(),
                        estimated_chunks,
                        estimated_chunks <= FTS_PROMPT_MAX_CHUNKS,
                        estimated_chunks <= VECTOR_PROMPT_MAX_CHUNKS,
                    );
                    Err(other(message))
                },
                None => {
                    proof {
                        reveal_strlit("cannot determine directory index root for search");
                    }
                    Err(other("cannot determine directory index root for search".to_owned()))
                },
            }
        },
    }
}

/// The dirty reason recorded for a root whose reconcile failed with `error`: a schema
/// mismatch asks for a rebuild; any other failure is recorded as it reads.
pub open spec fn failure_reason(root: Seq<char>, error: Seq<char>) -> Seq<char> {
    if error == INDEX_SCHEMA_VERSION_MISMATCH@ {
        rebuild_reason_text(root)
    } else {
        error
    }
}

/// What a failed reconcile of the covering root at position `index` records and reports.
pub struct RootFailure {
    /// The reason stored as the root's dirty state.
    pub dirty_reason: String,
    /// The error that ends the search, for the nearest root; farther roots only go dirty.
    pub stop: Option<ZgError>,
}

/// Decides what a failed reconcile of covering root number `index` (nearest first) leads
/// to: the root is marked dirty with `failure_reason`; the nearest root's failure also ends
/// the search, with a rebuild instruction for a schema mismatch and the error otherwise.
pub fn covering_root_failure(index: usize, root: &str, error: &str) -> (r: RootFailure)
    ensures
        r.dirty_reason@ == failure_reason(root@, error@),
        r.stop is Some <==> index == 0,
        r.stop matches Some(e) ==> e.message@ == (if error@ == INDEX_SCHEMA_VERSION_MISMATCH@ {
            rebuild_required_text(root@)
        } else {
            error@
        }),
{
    let mismatch = is_schema_version_mismatch(error);
    let dirty_reason = if mismatch {
        schema_rebuild_dirty_reason(root)
    } else {
        error.to_owned()
    };
    let stop = if index == 0 {
        if mismatch {
            Some(other(schema_rebuild_required_error(root)))
        } else {
            Some(other(error.to_owned()))
        }
    } else {
        None
    };
    RootFailure { dirty_reason, stop }
}

/// The overlap note printed after `zg index init`: a covering parent index wins over a
/// nested child index; with neither there is no note.
pub fn best_effort_overlap_note(ancestor: Option<&str>, descendant: Option<&str>) -> (r: Option<
    String,
>)
    ensures
        ancestor matches Some(a) ==> opt_text(r) == Some(parent_note_text(a@)),
        ancestor is None ==> (descendant matches Some(d) ==> opt_text(r) == Some(child_note_text(d@))),
        ancestor is None && descendant is None ==> r is None,
{
    match ancestor {
        Some(a) => Some(overlap_parent_note(a)),
        None => match descendant {
            Some(d) => Some(overlap_child_note(d)),
            None => None,
        },
    }
}

/// The dirty flag, its reason, and the last sync time kept in an index's state row.
#[derive(Clone, Debug)]
pub struct StateRow {
    pub dirty: bool,
    pub dirty_reason: Option<String>,
    pub last_sync_unix_ms: Option<u64>,
}

/// Row counts read from an index database.
#[derive(Clone, Copy, Debug)]
pub struct IndexCounts {
    pub files: u64,
    pub chunk_refs: u64,
    pub shared_chunks: u64,
    pub fts_rows: u64,
    pub vec_chunks: u64,
    pub vec_index_rows: u64,
}

/// The latest recorded index run: its status and its start and finish times.
#[derive(Clone, Debug)]
pub struct LastRun {
    pub status: String,
    pub started_at_unix_ms: u64,
    pub finished_at_unix_ms: u64,
}

/// Whether `s` carries the fixed policy texts of this build.
pub open spec fn has_default_policies(s: IndexStatus) -> bool {
    &&& s.chunk_mode@ == DEFAULT_CHUNK_MODE@
    &&& s.chunk_marker@ == DEFAULT_CHUNK_MARKER@
    &&& s.scope_policy@ == DEFAULT_SCOPE_POLICY@
    &&& s.walk_policy@ == DEFAULT_WALK_POLICY@
}

/// Whether `s` is the status of a path that no readable index covers.
pub open spec fn is_unindexed_status(s: IndexStatus, requested: Seq<char>, root: Option<Seq<char>>) -> bool {
    &&& s.requested_path@ == requested
    &&& opt_text(s.index_root) == root
    &&& !s.indexed
    &&& s.index_level == DEFAULT_INDEX_LEVEL
    &&& !s.index_level_known
    &&& has_default_policies(s)
    &&& s.dirty_reason is None ==> !s.dirty
    &&& s.last_sync_unix_ms is None
    &&& s.file_count == 0
    &&& s.chunk_count == 0
    &&& !s.fts_ready
    &&& !s.vector_ready
    &&& s.last_index_run_status is None
    &&& s.last_index_run_duration_ms is None
}

/// The status of a path that no readable index covers.
pub fn unindexed_status(requested_path: &str, index_root: Option<String>) -> (r: IndexStatus)
    ensures
        is_unindexed_status(r, requested_path@, opt_text(index_root)),
        !r.dirty,
        r.dirty_reason is None,
{
    IndexStatus {
        requested_path: requested_path.to_owned(),
        index_root,
        indexed: false,
        index_level: DEFAULT_INDEX_LEVEL,
        index_level_known: false,
        chunk_mode: DEFAULT_CHUNK_MODE.to_owned(),
        chunk_marker: DEFAULT_CHUNK_MARKER.to_owned(),
        scope_policy: DEFAULT_SCOPE_POLICY.to_owned(),
        walk_policy: DEFAULT_WALK_POLICY.to_owned(),
        dirty: false,
        dirty_reason: None,
        last_sync_unix_ms: None,
        file_count: 0,
        chunk_count: 0,
        fts_ready: false,
        vector_ready: false,
        last_index_run_status: None,
        last_index_run_duration_ms: None,
    }
}

/// Whether the lexical index is complete: one full-text row per chunk reference.
pub open spec fn fts_ready(counts: IndexCounts) -> bool {
    counts.fts_rows == counts.chunk_refs
}

/// Whether the vector index is complete: the level keeps vectors, and every shared chunk
/// has one stored vector and one vector-index row.
pub open spec fn vector_ready(level: IndexLevel, counts: IndexCounts) -> bool {
    &&& counts.vec_chunks == counts.shared_chunks
    &&& counts.vec_index_rows == counts.shared_chunks
    &&& level == IndexLevel::FtsVector
}

/// How long a run took; a finish before its start counts as zero.
pub open spec fn run_duration(run: LastRun) -> u64 {
    if run.finished_at_unix_ms >= run.started_at_unix_ms {
        (run.finished_at_unix_ms - run.started_at_unix_ms) as u64
    } else {
        0
    }
}

/// Assembles the status of an index root from what its database holds; a missing state row
/// reads as clean and never synced.
pub fn status_for_index_root(
    root: &str,
    index_level: IndexLevel,
    counts: IndexCounts,
    state: Option<StateRow>,
    last_run: Option<LastRun>,
) -> (r: IndexStatus)
    ensures
        r.requested_path@ == root@,
        opt_text(r.index_root) == Some(root@),
        r.indexed,
        r.index_level == index_level,
        r.index_level_known,
        has_default_policies(r),
        r.dirty == (state matches Some(st) && st.dirty),
        opt_text(r.dirty_reason) == (match state {
            Some(st) => opt_text(st.dirty_reason),
            None => None,
        }),
        r.last_sync_unix_ms == (match state {
            Some(st) => st.last_sync_unix_ms,
            None => None,
        }),
        r.file_count == counts.files,
        r.chunk_count == counts.chunk_refs,
        r.fts_ready == fts_ready(counts),
        r.vector_ready == vector_ready(index_level, counts),
        opt_text(r.last_index_run_status) == (match last_run {
            Some(run) => Some(run.status@),
            None => None,
        }),
        r.last_index_run_duration_ms == (match last_run {
            Some(run) => Some(run_duration(run)),
            None => None,
        }),
{
    let (dirty, dirty_reason, last_sync_unix_ms) = match state {
        Some(st) => (st.dirty, st.dirty_reason, st.last_sync_unix_ms),
        None => (false, None, None),
    };
    let (last_index_run_status, last_index_run_duration_ms) = match last_run {
        Some(run) => {
            let duration = if run.finished_at_unix_ms >= run.started_at_unix_ms {
                run.finished_at_unix_ms - run.started_at_unix_ms
            } else {
                0
            };
            (Some(run.status), Some(duration))
        },
        None => (None, None),
    };
    IndexStatus {
        requested_path: root.to_owned(),
        index_root: Some(root.to_owned()),
        indexed: true,
        index_level,
        index_level_known: true,
        chunk_mode: DEFAULT_CHUNK_MODE.to_owned(),
        chunk_marker: DEFAULT_CHUNK_MARKER.to_owned(),
        scope_policy: DEFAULT_SCOPE_POLICY.to_owned(),
        walk_policy: DEFAULT_WALK_POLICY.to_owned(),
        dirty,
        dirty_reason,
        last_sync_unix_ms,
        file_count: counts.files,
        chunk_count: counts.chunk_refs,
        fts_ready: counts.fts_rows == counts.chunk_refs,
        vector_ready: counts.vec_chunks == counts.shared_chunks && counts.vec_index_rows
            == counts.shared_chunks && index_level.vectors_enabled(),
        last_index_run_status,
        last_index_run_duration_ms,
    }
}

/// What `zg index status` reports for `requested_path`. `found` is the nearest index root
/// with the outcome of reading its status, or `None` when no index covers the path. A root
/// whose status cannot be read is reported dirty, and the second result is the reason that
/// the caller records in that index.
pub fn load_status(requested_path: &str, found: Option<(String, Result<IndexStatus, String>)>) -> (r: (
    IndexStatus,
    Option<String>,
))
    ensures
        found is None ==> is_unindexed_status(r.0, requested_path@, None) && !r.0.dirty && r.1 is None,
        found matches Some((root, Ok(st))) ==> r.1 is None && r.0.requested_path@ == requested_path@
            && r.0 == (IndexStatus { requested_path: r.0.requested_path, ..st }),
        found matches Some((root, Err(e))) ==> is_unindexed_status(r.0, requested_path@, Some(root@))
            && r.0.dirty && opt_text(r.0.dirty_reason) == Some(failure_reason(root@, e@)) && opt_text(r.1)
            == Some(failure_reason(root@, e@)),
{
    match found {
        None => (unindexed_status(requested_path, None), None),
        Some((root, Ok(st))) => {
            let mut st = st;
            st.requested_path = requested_path.to_owned();
            (st, None)
        },
        Some((root, Err(error))) => {
            let reason = if is_schema_version_mismatch(error.as_str()) {
                schema_rebuild_dirty_reason(root.as_str())
            } else {
                error
            };
            let mut st = unindexed_status(requested_path, Some(root));
            st.dirty = true;
            st.dirty_reason = Some(reason.clone());
            (st, Some(reason))
        },
    }
}

/// How long a writer keeps retrying a locked database, in milliseconds.
pub const WRITE_TX_MAX_WAIT_MS: u64 = 900_000;
/// The longest single pause between write attempts, in milliseconds.
pub const WRITE_TX_RETRY_DELAY_CAP_MS: u64 = 5_000;

/// The back-off before write attempt `attempt + 1`: 200 ms doubled per attempt, doubling at
/// most five times.
pub open spec fn backoff_ms(attempt: u32) -> u64 {
    if attempt == 0 {
        200
    } else if attempt == 1 {
        400
    } else if attempt == 2 {
        800
    } else if attempt == 3 {
        1600
    } else if attempt == 4 {
        3200
    } else {
        6400
    }
}

/// The pause before retrying a write that found the database locked, after `elapsed_ms` of
/// trying: the back-off, capped at five seconds and at the time left of the fifteen-minute
/// budget; `None` once the budget is spent.
pub open spec fn retry_delay(elapsed_ms: u64, attempt: u32) -> Option<u64> {
    if elapsed_ms > WRITE_TX_MAX_WAIT_MS {
        None
    } else {
        let capped = if backoff_ms(attempt) < WRITE_TX_RETRY_DELAY_CAP_MS {
            backoff_ms(attempt)
        } else {
            WRITE_TX_RETRY_DELAY_CAP_MS
        };
        let remaining = (WRITE_TX_MAX_WAIT_MS - elapsed_ms) as u64;
        Some(if capped < remaining { capped } else { remaining })
    }
}

/// Computes the pause before the next write attempt, or `None` when the wait budget is spent.
pub fn retry_delay_ms(elapsed_ms: u64, attempt: u32) -> (r: Option<u64>)
    ensures
        r == retry_delay(elapsed_ms, attempt),
{
    if elapsed_ms > WRITE_TX_MAX_WAIT_MS {
        return None;
    }
    let backoff: u64 = if attempt == 0 {
        200
    } else if attempt == 1 {
        400
    } else if attempt == 2 {
        800
    } else if attempt == 3 {
        1600
    } else if attempt == 4 {
        3200
    } else {
        6400
    };
    let capped = if backoff < WRITE_TX_RETRY_DELAY_CAP_MS {
        backoff
    } else {
        WRITE_TX_RETRY_DELAY_CAP_MS
    };
    let remaining = WRITE_TX_MAX_WAIT_MS - elapsed_ms;
    Some(if capped < remaining { capped } else { remaining })
}

/// The error for a write whose lock never came free within the budget.
pub open spec fn lock_exhausted_text(root: Seq<char>, operation: Seq<char>, error: Seq<char>) -> Seq<char> {
    "sqlite write lock persisted while "@ + operation + " "@ + root + " for up to 900 seconds: "@
        + error
}

/// Builds the error for a write whose lock never came free within the budget.
pub fn write_lock_retry_exhausted(root: &str, operation: &str, error: &str) -> (r: ZgError)
    ensures
        r.message@ == lock_exhausted_text(root@, operation@, error@),
{
    let mut s = String::new();
    crate::text::push_str(&mut s, "sqlite write lock persisted while ");
    crate::text::push_str(&mut s, operation);
    crate::text::push_str(&mut s, " ");
    crate::text::push_str(&mut s, root);
    crate::text::push_str(&mut s, " for up to 900 seconds: ");
    crate::text::push_str(&mut s, error);
    other(s)
}

/// The tables an index database must hold, in the order they are checked.
pub open spec fn required_table(i: int) -> Seq<char> {
    if i == 0 {
        "settings"@
    } else if i == 1 {
        "state"@
    } else if i == 2 {
        "files"@
    } else if i == 3 {
        "shared_chunks"@
    } else if i == 4 {
        "chunk_refs"@
    } else if i == 5 {
        "fts_chunks"@
    } else if i == 6 {
        "vec_chunks"@
    } else if i == 7 {
        "vec_index"@
    } else {
        "index_runs"@
    }
}

/// How many tables an index database must hold.
pub const REQUIRED_TABLE_COUNT: usize = 9;

/// The name of required table number `i`.
pub fn required_table_name(i: usize) -> (r: &'static str)
    requires
        i < REQUIRED_TABLE_COUNT,
    ensures
        r@ == required_table(i as int),
{
    if i == 0 {
        "settings"
    } else if i == 1 {
        "state"
    } else if i == 2 {
        "files"
    } else if i == 3 {
        "shared_chunks"
    } else if i == 4 {
        "chunk_refs"
    } else if i == 5 {
        "fts_chunks"
    } else if i == 6 {
        "vec_chunks"
    } else if i == 7 {
        "vec_index"
    } else {
        "index_runs"
    }
}

/// The index of the first table that is absent, if any.
pub open spec fn first_missing(present: Seq<bool>) -> Option<int>
    decreases present.len(),
{
    if present.len() == 0 {
        None
    } else {
        match first_missing(present.drop_last()) {
            Some(i) => Some(i),
            None => if !present.last() {
                Some(present.len() - 1)
            } else {
                None
            },
        }
    }
}

/// The outcome of checking an index's schema: the first absent table is reported; with all
/// tables present, the stored schema version must be the one this build writes.
pub open spec fn schema_check(present: Seq<bool>, schema_version: Option<Seq<char>>) -> Result<(), Seq<char>> {
    match first_missing(present) {
        Some(i) => Err("index schema is missing required table `"@ + required_table(i) + "`"@),
        None => if schema_version == Some(crate::text::decimal(10)) {
            Ok(())
        } else {
            Err(INDEX_SCHEMA_VERSION_MISMATCH@)
        },
    }
}

/// Checks an index's schema from which required tables exist and the stored schema version.
pub fn validate_schema(present: &Vec<bool>, schema_version: Option<&str>) -> (r: Result<(), ZgError>)
    requires
        present@.len() == REQUIRED_TABLE_COUNT,
    ensures
        r is Ok <==> schema_check(present@, opt_str(schema_version)) is Ok,
        r matches Err(e) ==> schema_check(present@, opt_str(schema_version)) == Err::<(), Seq<char>>(e.message@),
{
    let mut i: usize = 0;
    assert(present@.take(0) =~= Seq::<bool>::empty());
    while i < present.len()
        invariant
            i <= present@.len(),
            present@.len() == REQUIRED_TABLE_COUNT,
            first_missing(present@.take(i as int)) is None,
        decreases present@.len() - i,
    {
        assert(present@.take(i + 1).drop_last() =~= present@.take(i as int));
        if !present[i] {
            let mut s = String::new();
            crate::text::push_str(&mut s, "index schema is missing required table `");
            crate::text::push_str(&mut s, required_table_name(i));
            crate::text::push_str(&mut s, "`");
            proof {
                lemma_first_missing_prefix(present@, i as int + 1);
            }
            return Err(other(s));
        }
        i = i + 1;
    }
    assert(present@.take(present@.len() as int) =~= present@);
    let expected = crate::text::decimal_string(10);
    match schema_version {
        Some(v) => {
            if crate::text::same_text(v, expected.as_str()) {
                Ok(())
            } else {
                Err(other(crate::messages::INDEX_SCHEMA_VERSION_MISMATCH.to_owned()))
            }
        },
        None => Err(other(crate::messages::INDEX_SCHEMA_VERSION_MISMATCH.to_owned())),
    }
}

/// An optional text's characters.
pub open spec fn opt_str(o: Option<&str>) -> Option<Seq<char>> {
    match o {
        Some(s) => Some(s@),
        None => None,
    }
}

proof fn lemma_first_missing_prefix(present: Seq<bool>, k: int)
    requires
        0 < k <= present.len(),
        first_missing(present.take(k - 1)) is None,
        !present[k - 1],
    ensures
        first_missing(present) == Some(k - 1),
    decreases present.len(),
{
    assert(present.take(k).drop_last() =~= present.take(k - 1));
    if k < present.len() {
        assert(present.drop_last().take(k - 1) =~= present.take(k - 1));
        lemma_first_missing_prefix(present.drop_last(), k);
    } else {
        assert(present.take(k) =~= present);
    }
}

/// The index level stored in an index's settings: the default when none is stored, and an
/// error naming the stored text when it is not a level.
pub open spec fn stored_level(value: Option<Seq<char>>) -> Result<IndexLevel, Seq<char>> {
    match value {
        None => Ok(DEFAULT_INDEX_LEVEL),
        Some(v) => if v == "fts"@ {
            Ok(IndexLevel::Fts)
        } else if v == "fts+vector"@ {
            Ok(IndexLevel::FtsVector)
        } else {
            Err("invalid index level setting `"@ + v + "`: expected `fts` or `fts+vector`"@)
        },
    }
}

/// Reads the index level from its stored setting.
pub fn load_index_level(value: Option<&str>) -> (r: Result<IndexLevel, ZgError>)
    ensures
        r matches Ok(level) ==> stored_level(opt_str(value)) == Ok::<IndexLevel, Seq<char>>(level),
        r matches Err(e) ==> stored_level(opt_str(value)) == Err::<IndexLevel, Seq<char>>(e.message@),
{
    match value {
        None => {
            assert(opt_str(value) is None);
            Ok(DEFAULT_INDEX_LEVEL)
        },
        Some(v) => match crate::index::types::parse_index_level(v) {
            Ok(level) => {
                proof {
                    reveal_strlit("fts");
                    reveal_strlit("fts+vector");
                    assert(opt_str(value) == Some(v@));
                    assert("fts"@.len() != "fts+vector"@.len());
                    assert(stored_level(opt_str(value)) == Ok::<IndexLevel, Seq<char>>(level));
                }
                Ok(level)
            },
            Err(message) => {
                let mut s = String::new();
                crate::text::push_str(&mut s, "invalid index level setting `");
                crate::text::push_str(&mut s, v);
                crate::text::push_str(&mut s, "`: ");
                crate::text::push_str(&mut s, message);
                proof {
                    reveal_strlit("`: ");
                    reveal_strlit("`: expected `fts` or `fts+vector`");
                    reveal_strlit("expected `fts` or `fts+vector`");
                    assert("`: "@ + "expected `fts` or `fts+vector`"@ =~= "`: expected `fts` or `fts+vector`"@);
                    assert(s@ =~= "invalid index level setting `"@ + v@ + "`: expected `fts` or `fts+vector`"@);
                }
                Err(other(s))
            },
        },
    }
}

/// The level a rebuild leaves an index at: the one asked for, else the one it had, else the
/// default.
pub open spec fn rebuild_level_of(requested: Option<IndexLevel>, retained: Option<IndexLevel>) -> IndexLevel {
    match requested {
        Some(level) => level,
        None => match retained {
            Some(level) => level,
            None => DEFAULT_INDEX_LEVEL,
        },
    }
}

/// Chooses the level a rebuild leaves an index at; `retained` is the level read from the
/// index before the rebuild, when it could be read.
pub fn rebuild_level(requested: Option<IndexLevel>, retained: Option<IndexLevel>) -> (r: IndexLevel)
    ensures
        r == rebuild_level_of(requested, retained),
{
    match requested {
        Some(level) => level,
        None => match retained {
            Some(level) => level,
            None => DEFAULT_INDEX_LEVEL,
        },
    }
}

/// The level a rebuild of `root` announces before it starts: the one asked for, else the
/// level of the index whose root `root` itself is, when its status could be read.
pub fn effective_rebuild_level(root: &str, requested: Option<IndexLevel>, status: Option<&IndexStatus>) -> (r:
    Option<IndexLevel>)
    ensures
        requested matches Some(level) ==> r == Some(level),
        requested is None ==> (r == (match status {
            Some(st) => if opt_text(st.index_root) == Some(root@) {
                Some(st.index_level)
            } else {
                None
            },
            None => None,
        })),
{
    match requested {
        Some(level) => Some(level),
        None => match status {
            Some(st) => match &st.index_root {
                Some(index_root) => if crate::text::same_text(index_root.as_str(), root) {
                    Some(st.index_level)
                } else {
                    None
                },
                None => None,
            },
            None => None,
        },
    }
}

/// A file's path relative to its index root, with its size and modification time.
#[derive(Clone, Debug)]
pub struct FileRecord {
    pub rel_path: String,
    pub size_bytes: u64,
    pub modified_unix_ms: u64,
}

/// The position of the last of the first `n` stored rows with path `rel`: the row a map
/// keyed by path keeps.
pub open spec fn last_row(existing: Seq<FileRecord>, rel: Seq<char>, n: int) -> Option<int>
    decreases n,
{
    if n <= 0 {
        None
    } else if existing[n - 1].rel_path@ == rel {
        Some(n - 1)
    } else {
        last_row(existing, rel, n - 1)
    }
}

proof fn lemma_last_row_bound(existing: Seq<FileRecord>, rel: Seq<char>, n: int)
    ensures
        last_row(existing, rel, n) matches Some(j) ==> 0 <= j < n && existing[j].rel_path@ == rel,
    decreases n,
{
    if n > 0 && existing[n - 1].rel_path@ != rel {
        lemma_last_row_bound(existing, rel, n - 1);
    }
}

/// Whether a candidate file is unchanged since it was indexed: the stored row of its path
/// records its size and modification time.
pub open spec fn is_unchanged(existing: Seq<FileRecord>, c: FileRecord) -> bool {
    match last_row(existing, c.rel_path@, existing.len() as int) {
        Some(j) => existing[j].size_bytes == c.size_bytes && existing[j].modified_unix_ms
            == c.modified_unix_ms,
        None => false,
    }
}

/// The positions, in order, of the first `n` candidates that changed since they were indexed.
pub open spec fn dirty_indices(existing: Seq<FileRecord>, candidates: Seq<FileRecord>, n: int) -> Seq<int>
    decreases n,
{
    if n <= 0 {
        Seq::empty()
    } else if is_unchanged(existing, candidates[n - 1]) {
        dirty_indices(existing, candidates, n - 1)
    } else {
        dirty_indices(existing, candidates, n - 1).push(n - 1)
    }
}

/// Indexes stored rows by path; a later row of the same path replaces an earlier one.
fn rows_by_path(existing: &Vec<FileRecord>) -> (m: StringHashMap<usize>)
    ensures
        forall|rel: Seq<char>| #[trigger] m@.contains_key(rel) <==> last_row(existing@, rel, existing@.len() as int) is Some,
        forall|rel: Seq<char>| #[trigger] m@.contains_key(rel) ==> last_row(existing@, rel, existing@.len() as int) == Some(m@[rel] as int),
{
    let mut m: StringHashMap<usize> = StringHashMap::new();
    let mut i: usize = 0;
    while i < existing.len()
        invariant
            i <= existing@.len(),
            forall|rel: Seq<char>| #[trigger] m@.contains_key(rel) <==> last_row(existing@, rel, i as int) is Some,
            forall|rel: Seq<char>| #[trigger] m@.contains_key(rel) ==> last_row(existing@, rel, i as int) == Some(m@[rel] as int),
        decreases existing@.len() - i,
    {
        let key = existing[i].rel_path.clone();
        m.insert(key, i);
        i = i + 1;
    }
    m
}

/// Picks the candidate files that must be read again: those whose stored row does not
/// record their size and modification time, or that have no stored row.
pub fn dirty_candidates(existing: &Vec<FileRecord>, candidates: &Vec<FileRecord>) -> (r: Vec<usize>)
    ensures
        r@.map_values(|k: usize| k as int) == dirty_indices(existing@, candidates@, candidates@.len() as int),
        forall|i: int|
            #![trigger candidates@[i]]
            0 <= i < candidates@.len() ==> ((exists|t: int| 0 <= t < r@.len() && r@[t] as int == i) <==> !(exists|j: int|
                0 <= j < existing@.len() && #[trigger] existing@[j].rel_path@ == candidates@[i].rel_path@ && (forall|k: int|
                    j < k < existing@.len() ==> (#[trigger] existing@[k]).rel_path@ != candidates@[i].rel_path@)
                    && existing@[j].size_bytes == candidates@[i].size_bytes && existing@[j].modified_unix_ms
                    == candidates@[i].modified_unix_ms)),
{
    let r = dirty_candidates_by_row(existing, candidates);
    proof {
        let d = dirty_indices(existing@, candidates@, candidates@.len() as int);
        assert forall|i: int| #![trigger candidates@[i]] 0 <= i < candidates@.len() implies ((exists|t: int|
            0 <= t < r@.len() && r@[t] as int == i) <==> !(exists|j: int|
            0 <= j < existing@.len() && #[trigger] existing@[j].rel_path@ == candidates@[i].rel_path@ && (forall|k: int|
                j < k < existing@.len() ==> (#[trigger] existing@[k]).rel_path@ != candidates@[i].rel_path@)
                && existing@[j].size_bytes == candidates@[i].size_bytes && existing@[j].modified_unix_ms
                == candidates@[i].modified_unix_ms)) by {
            lemma_dirty_on_fields(existing@, candidates@, i);
            if d.contains(i) {
                let t = choose|t: int| 0 <= t < d.len() && d[t] == i;
                assert(r@[t] as int == d[t]);
            }
            if exists|t: int| 0 <= t < r@.len() && r@[t] as int == i {
                let t = choose|t: int| 0 <= t < r@.len() && r@[t] as int == i;
                assert(d[t] == r@[t] as int);
            }
        }
    }
    r
}

fn dirty_candidates_by_row(existing: &Vec<FileRecord>, candidates: &Vec<FileRecord>) -> (r: Vec<usize>)
    ensures
        r@.map_values(|k: usize| k as int) == dirty_indices(existing@, candidates@, candidates@.len() as int),
{
    let rows = rows_by_path(existing);
    let mut out: Vec<usize> = Vec::new();
    let mut i: usize = 0;
    assert(out@.map_values(|k: usize| k as int) =~= Seq::<int>::empty());
    while i < candidates.len()
        invariant
            i <= candidates@.len(),
            forall|rel: Seq<char>| #[trigger] rows@.contains_key(rel) <==> last_row(existing@, rel, existing@.len() as int) is Some,
            forall|rel: Seq<char>| #[trigger] rows@.contains_key(rel) ==> last_row(existing@, rel, existing@.len() as int) == Some(rows@[rel] as int),
            out@.map_values(|k: usize| k as int) == dirty_indices(existing@, candidates@, i as int),
        decreases candidates@.len() - i,
    {
        let c = &candidates[i];
        proof {
            lemma_last_row_bound(existing@, c.rel_path@, existing@.len() as int);
        }
        let unchanged = match rows.get(c.rel_path.as_str()) {
            Some(j) => {
                let row = &existing[*j];
                row.size_bytes == c.size_bytes && row.modified_unix_ms == c.modified_unix_ms
            },
            None => false,
        };
        if !unchanged {
            let ghost before = out@.map_values(|k: usize| k as int);
            out.push(i);
            assert(out@.map_values(|k: usize| k as int) =~= before.push(i as int));
        }
        i = i + 1;
    }
    out
}

/// The documents that a reconcile writes: for each re-read candidate that yielded one, its
/// path and document, in candidate order.
pub open spec fn planned_upserts(
    candidates: Seq<FileRecord>,
    dirty: Seq<usize>,
    documents: Seq<Option<IndexedDocument>>,
    n: int,
) -> Seq<(Seq<char>, IndexedDocument)>
    decreases n,
{
    if n <= 0 {
        Seq::empty()
    } else {
        let prev = planned_upserts(candidates, dirty, documents, n - 1);
        match documents[n - 1] {
            Some(d) => prev.push((candidates[dirty[n - 1] as int].rel_path@, d)),
            None => prev,
        }
    }
}

/// The re-read candidates that yielded no document, as (path, displayed path), in order.
pub open spec fn skipped_files(
    candidates: Seq<FileRecord>,
    shown: Seq<Seq<char>>,
    dirty: Seq<usize>,
    documents: Seq<Option<IndexedDocument>>,
    n: int,
) -> Seq<(Seq<char>, Seq<char>)>
    decreases n,
{
    if n <= 0 {
        Seq::empty()
    } else {
        let prev = skipped_files(candidates, shown, dirty, documents, n - 1);
        match documents[n - 1] {
            Some(d) => prev,
            None => prev.push((candidates[dirty[n - 1] as int].rel_path@, shown[dirty[n - 1] as int])),
        }
    }
}

/// Whether some candidate has the path `rel`.
pub open spec fn is_candidate_path(candidates: Seq<FileRecord>, rel: Seq<char>) -> bool {
    exists|k: int| 0 <= k < candidates.len() && (#[trigger] candidates[k]).rel_path@ == rel
}

/// The stored paths, in order, of the first `n` rows that no candidate has any more.
pub open spec fn vanished_paths(existing: Seq<FileRecord>, candidates: Seq<FileRecord>, n: int) -> Seq<Seq<char>>
    decreases n,
{
    if n <= 0 {
        Seq::empty()
    } else if is_candidate_path(candidates, existing[n - 1].rel_path@) {
        vanished_paths(existing, candidates, n - 1)
    } else {
        vanished_paths(existing, candidates, n - 1).push(existing[n - 1].rel_path@)
    }
}

proof fn lemma_dirty_indices_bound(existing: Seq<FileRecord>, candidates: Seq<FileRecord>, n: int)
    ensures
        forall|t: int| 0 <= t < dirty_indices(existing, candidates, n).len() ==> 0 <= #[trigger] dirty_indices(existing, candidates, n)[t] < n,
    decreases n,
{
    if n > 0 {
        lemma_dirty_indices_bound(existing, candidates, n - 1);
        let prev = dirty_indices(existing, candidates, n - 1);
        if !is_unchanged(existing, candidates[n - 1]) {
            assert forall|t: int| 0 <= t < prev.push(n - 1).len() implies 0 <= #[trigger] prev.push(n - 1)[t] < n by {
                if t < prev.len() {
                    assert(prev.push(n - 1)[t] == prev[t]);
                }
            }
        }
    }
}

/// A candidate file is read again exactly when it changed since it was indexed: its stored
/// row is missing or records another size or modification time.
pub proof fn lemma_dirty_iff_changed(existing: Seq<FileRecord>, candidates: Seq<FileRecord>, n: int, i: int)
    requires
        0 <= i < n <= candidates.len(),
    ensures
        dirty_indices(existing, candidates, n).contains(i) <==> !is_unchanged(existing, candidates[i]),
    decreases n,
{
    let prev = dirty_indices(existing, candidates, n - 1);
    lemma_dirty_indices_bound(existing, candidates, n - 1);
    if i == n - 1 {
        if is_unchanged(existing, candidates[n - 1]) {
            assert(!prev.contains(n - 1));
        } else {
            assert(dirty_indices(existing, candidates, n)[prev.len() as int] == n - 1);
        }
    } else {
        lemma_dirty_iff_changed(existing, candidates, n - 1, i);
        if !is_unchanged(existing, candidates[n - 1]) {
            let cur = prev.push(n - 1);
            assert(cur.contains(i) ==> prev.contains(i)) by {
                if cur.contains(i) {
                    let t = choose|t: int| 0 <= t < cur.len() && cur[t] == i;
                    assert(t < prev.len());
                    assert(prev[t] == i);
                }
            }
            assert(prev.contains(i) ==> cur.contains(i)) by {
                if prev.contains(i) {
                    let t = choose|t: int| 0 <= t < prev.len() && prev[t] == i;
                    assert(cur[t] == i);
                }
            }
        }
    }
}

proof fn lemma_last_row_is_last(existing: Seq<FileRecord>, rel: Seq<char>, n: int)
    requires
        0 <= n <= existing.len(),
    ensures
        last_row(existing, rel, n) matches Some(j) ==> forall|k: int| j < k < n ==> (#[trigger] existing[k]).rel_path@ != rel,
        last_row(existing, rel, n) is None ==> forall|k: int| 0 <= k < n ==> (#[trigger] existing[k]).rel_path@ != rel,
    decreases n,
{
    if n > 0 && existing[n - 1].rel_path@ != rel {
        lemma_last_row_is_last(existing, rel, n - 1);
    }
}

/// A candidate file is picked to be read again exactly when no stored row has its path, or
/// the last stored row with its path records another size or another modification time.
pub proof fn lemma_dirty_on_fields(existing: Seq<FileRecord>, candidates: Seq<FileRecord>, i: int)
    requires
        0 <= i < candidates.len(),
    ensures
        dirty_indices(existing, candidates, candidates.len() as int).contains(i) <==> !(exists|j: int|
            0 <= j < existing.len() && #[trigger] existing[j].rel_path@ == candidates[i].rel_path@ && (forall|k: int|
                j < k < existing.len() ==> (#[trigger] existing[k]).rel_path@ != candidates[i].rel_path@)
                && existing[j].size_bytes == candidates[i].size_bytes && existing[j].modified_unix_ms
                == candidates[i].modified_unix_ms),
{
    let c = candidates[i];
    let n = existing.len() as int;
    lemma_dirty_iff_changed(existing, candidates, candidates.len() as int, i);
    lemma_last_row_bound(existing, c.rel_path@, n);
    lemma_last_row_is_last(existing, c.rel_path@, n);
    let same = exists|j: int|
        0 <= j < existing.len() && #[trigger] existing[j].rel_path@ == c.rel_path@ && (forall|k: int|
            j < k < existing.len() ==> (#[trigger] existing[k]).rel_path@ != c.rel_path@)
            && existing[j].size_bytes == c.size_bytes && existing[j].modified_unix_ms == c.modified_unix_ms;
    match last_row(existing, c.rel_path@, n) {
        Some(j) => {
            if same {
                let j2 = choose|j2: int|
                    0 <= j2 < existing.len() && #[trigger] existing[j2].rel_path@ == c.rel_path@ && (forall|k: int|
                        j2 < k < existing.len() ==> (#[trigger] existing[k]).rel_path@ != c.rel_path@)
                        && existing[j2].size_bytes == c.size_bytes && existing[j2].modified_unix_ms == c.modified_unix_ms;
                if j2 < j {
                    assert(existing[j].rel_path@ == c.rel_path@);
                } else if j2 > j {
                    assert(existing[j2].rel_path@ == c.rel_path@);
                }
                assert(j2 == j);
            }
            if is_unchanged(existing, c) {
                assert(existing[j].rel_path@ == c.rel_path@);
            }
        },
        None => {
            if same {
                let j2 = choose|j2: int|
                    0 <= j2 < existing.len() && #[trigger] existing[j2].rel_path@ == c.rel_path@ && (forall|k: int|
                        j2 < k < existing.len() ==> (#[trigger] existing[k]).rel_path@ != c.rel_path@)
                        && existing[j2].size_bytes == c.size_bytes && existing[j2].modified_unix_ms == c.modified_unix_ms;
                assert(existing[j2].rel_path@ != c.rel_path@);
            }
        },
    }
}

/// A reconcile of a scope where nothing changed re-reads no file and deletes no row: every
/// candidate is unchanged and every stored row still has its candidate.
pub proof fn lemma_unchanged_scope_touches_nothing(existing: Seq<FileRecord>, candidates: Seq<FileRecord>)
    requires
        forall|i: int| 0 <= i < candidates.len() ==> is_unchanged(existing, #[trigger] candidates[i]),
        forall|j: int| 0 <= j < existing.len() ==> is_candidate_path(candidates, #[trigger] existing[j].rel_path@),
    ensures
        dirty_indices(existing, candidates, candidates.len() as int).len() == 0,
        vanished_paths(existing, candidates, existing.len() as int).len() == 0,
{
    lemma_no_dirty(existing, candidates, candidates.len() as int);
    lemma_no_vanished(existing, candidates, existing.len() as int);
}

proof fn lemma_no_dirty(existing: Seq<FileRecord>, candidates: Seq<FileRecord>, n: int)
    requires
        n <= candidates.len(),
        forall|i: int| 0 <= i < candidates.len() ==> is_unchanged(existing, #[trigger] candidates[i]),
    ensures
        dirty_indices(existing, candidates, n).len() == 0,
    decreases n,
{
    if n > 0 {
        assert(is_unchanged(existing, candidates[n - 1]));
        lemma_no_dirty(existing, candidates, n - 1);
    }
}

proof fn lemma_no_vanished(existing: Seq<FileRecord>, candidates: Seq<FileRecord>, n: int)
    requires
        n <= existing.len(),
        forall|j: int| 0 <= j < existing.len() ==> is_candidate_path(candidates, #[trigger] existing[j].rel_path@),
    ensures
        vanished_paths(existing, candidates, n).len() == 0,
    decreases n,
{
    if n > 0 {
        assert(is_candidate_path(candidates, existing[n - 1].rel_path@));
        lemma_no_vanished(existing, candidates, n - 1);
    }
}

proof fn lemma_upsert_paths(candidates: Seq<FileRecord>, dirty: Seq<usize>, documents: Seq<Option<IndexedDocument>>, n: int)
    ensures
        forall|t: int| 0 <= t < planned_upserts(candidates, dirty, documents, n).len() ==> exists|m: int|
            0 <= m < n && (#[trigger] planned_upserts(candidates, dirty, documents, n)[t]).0 == candidates[dirty[m] as int].rel_path@,
    decreases n,
{
    if n > 0 {
        lemma_upsert_paths(candidates, dirty, documents, n - 1);
        let prev = planned_upserts(candidates, dirty, documents, n - 1);
        match documents[n - 1] {
            Some(d) => {
                let cur = prev.push((candidates[dirty[n - 1] as int].rel_path@, d));
                assert(planned_upserts(candidates, dirty, documents, n) == cur);
                assert forall|t: int| 0 <= t < cur.len() implies exists|m: int|
                    0 <= m < n && (#[trigger] cur[t]).0 == candidates[dirty[m] as int].rel_path@ by {
                    if t < prev.len() {
                        assert(cur[t] == prev[t]);
                        let m = choose|m: int| 0 <= m < n - 1 && (#[trigger] prev[t]).0 == candidates[dirty[m] as int].rel_path@;
                        assert(cur[t].0 == candidates[dirty[m] as int].rel_path@);
                    } else {
                        assert(cur[t].0 == candidates[dirty[n - 1] as int].rel_path@);
                    }
                }
            },
            None => {
                assert(planned_upserts(candidates, dirty, documents, n) == prev);
                assert forall|t: int| 0 <= t < prev.len() implies exists|m: int|
                    0 <= m < n && (#[trigger] prev[t]).0 == candidates[dirty[m] as int].rel_path@ by {
                    let m = choose|m: int| 0 <= m < n - 1 && (#[trigger] prev[t]).0 == candidates[dirty[m] as int].rel_path@;
                    assert(prev[t].0 == candidates[dirty[m] as int].rel_path@);
                }
            },
        }
    }
}

proof fn lemma_skipped_paths(
    candidates: Seq<FileRecord>,
    shown: Seq<Seq<char>>,
    dirty: Seq<usize>,
    documents: Seq<Option<IndexedDocument>>,
    n: int,
)
    ensures
        forall|t: int| 0 <= t < skipped_files(candidates, shown, dirty, documents, n).len() ==> exists|m: int|
            0 <= m < n && (#[trigger] skipped_files(candidates, shown, dirty, documents, n)[t]).0 == candidates[dirty[m] as int].rel_path@,
    decreases n,
{
    if n > 0 {
        lemma_skipped_paths(candidates, shown, dirty, documents, n - 1);
        let prev = skipped_files(candidates, shown, dirty, documents, n - 1);
        let cur = skipped_files(candidates, shown, dirty, documents, n);
        assert forall|t: int| 0 <= t < cur.len() implies exists|m: int|
            0 <= m < n && (#[trigger] cur[t]).0 == candidates[dirty[m] as int].rel_path@ by {
            if t < prev.len() {
                assert(cur[t] == prev[t]);
                let m = choose|m: int| 0 <= m < n - 1 && (#[trigger] prev[t]).0 == candidates[dirty[m] as int].rel_path@;
            } else {
                assert(cur[t].0 == candidates[dirty[n - 1] as int].rel_path@);
            }
        }
    }
}

proof fn lemma_vanished_not_candidates(existing: Seq<FileRecord>, candidates: Seq<FileRecord>, n: int)
    ensures
        forall|t: int| 0 <= t < vanished_paths(existing, candidates, n).len() ==> !is_candidate_path(
            candidates,
            #[trigger] vanished_paths(existing, candidates, n)[t],
        ),
    decreases n,
{
    if n > 0 {
        lemma_vanished_not_candidates(existing, candidates, n - 1);
        let prev = vanished_paths(existing, candidates, n - 1);
        let cur = vanished_paths(existing, candidates, n);
        assert forall|t: int| 0 <= t < cur.len() implies !is_candidate_path(candidates, #[trigger] cur[t]) by {
            if t < prev.len() {
                assert(cur[t] == prev[t]);
            }
        }
    }
}

/// Reconcile touches only what changed: a candidate file whose stored row still records its
/// size and modification time is neither rewritten nor deleted (candidate paths being
/// distinct, as a directory walk gives them).
pub proof fn lemma_clean_file_untouched(
    existing: Seq<FileRecord>,
    candidates: Seq<FileRecord>,
    shown: Seq<Seq<char>>,
    dirty: Seq<usize>,
    documents: Seq<Option<IndexedDocument>>,
    i: int,
)
    requires
        dirty.map_values(|k: usize| k as int) == dirty_indices(existing, candidates, candidates.len() as int),
        documents.len() == dirty.len(),
        forall|a: int, b: int| 0 <= a < b < candidates.len() ==> candidates[a].rel_path@ != candidates[b].rel_path@,
        0 <= i < candidates.len(),
        is_unchanged(existing, candidates[i]),
    ensures
        forall|t: int| 0 <= t < planned_upserts(candidates, dirty, documents, documents.len() as int).len() ==>
            (#[trigger] planned_upserts(candidates, dirty, documents, documents.len() as int)[t]).0 != candidates[i].rel_path@,
        forall|t: int| 0 <= t < skipped_files(candidates, shown, dirty, documents, documents.len() as int).len() ==>
            (#[trigger] skipped_files(candidates, shown, dirty, documents, documents.len() as int)[t]).0 != candidates[i].rel_path@,
        !vanished_paths(existing, candidates, existing.len() as int).contains(candidates[i].rel_path@),
{
    let n = documents.len() as int;
    let di = dirty_indices(existing, candidates, candidates.len() as int);
    lemma_dirty_indices_bound(existing, candidates, candidates.len() as int);
    assert forall|m: int| 0 <= m < n implies (dirty[m] as int) != i && 0 <= (dirty[m] as int) < candidates.len()
        && #[trigger] candidates[dirty[m] as int].rel_path@ != candidates[i].rel_path@ by {
        assert(di[m] == dirty[m] as int);
        assert(di.contains(dirty[m] as int));
        lemma_dirty_iff_changed(existing, candidates, candidates.len() as int, dirty[m] as int);
        let d = dirty[m] as int;
        if d < i {
            assert(candidates[d].rel_path@ != candidates[i].rel_path@);
        } else {
            assert(candidates[i].rel_path@ != candidates[d].rel_path@);
        }
    }
    lemma_upsert_paths(candidates, dirty, documents, n);
    lemma_skipped_paths(candidates, shown, dirty, documents, n);
    lemma_vanished_not_candidates(existing, candidates, existing.len() as int);
    assert(is_candidate_path(candidates, candidates[i].rel_path@));
    let v = vanished_paths(existing, candidates, existing.len() as int);
    if v.contains(candidates[i].rel_path@) {
        let t = choose|t: int| 0 <= t < v.len() && v[t] == candidates[i].rel_path@;
        assert(!is_candidate_path(candidates, v[t]));
    }
}

/// The most threads that prepare documents by default.
pub const MAX_INDEX_THREADS: usize = 8;

/// How many threads prepare documents: the configured positive number (`ZG_INDEX_THREADS`),
/// else the smallest of the candidate count, the available parallelism and eight.
pub open spec fn worker_count(candidates: usize, available: usize, configured: Option<Seq<char>>) -> usize {
    let default = if candidates <= available && candidates <= MAX_INDEX_THREADS {
        candidates
    } else if available <= MAX_INDEX_THREADS {
        available
    } else {
        MAX_INDEX_THREADS
    };
    match configured {
        Some(v) => match crate::index::embedding::parsed_u64(v) {
            Some(n) => if 0 < n && n <= usize::MAX { n as usize } else { default },
            None => default,
        },
        None => default,
    }
}

/// Chooses how many threads prepare documents.
pub fn index_worker_count(candidates: usize, available: usize, configured: Option<&str>) -> (r: usize)
    ensures
        r == worker_count(candidates, available, opt_str(configured)),
{
    let default = if candidates <= available && candidates <= MAX_INDEX_THREADS {
        candidates
    } else if available <= MAX_INDEX_THREADS {
        available
    } else {
        MAX_INDEX_THREADS
    };
    match configured {
        Some(v) => match crate::index::embedding::parse_u64(v) {
            Some(n) => if 0 < n && n <= usize::MAX as u64 { n as usize } else { default },
            None => default,
        },
        None => default,
    }
}

/// The number of chunks of the documents among the first `n`.
pub open spec fn chunk_total(documents: Seq<Option<IndexedDocument>>, n: int) -> int
    decreases n,
{
    if n <= 0 {
        0
    } else {
        chunk_total(documents, n - 1) + match documents[n - 1] {
            Some(d) => d.chunks@.len() as int,
            None => 0int,
        }
    }
}

/// The warning recorded for a file that could not be indexed.
pub open spec fn skipped_warning(shown: Seq<char>) -> Seq<char> {
    "skipped unreadable or disallowed file "@ + shown
}

/// What a reconcile of one index scope writes.
#[derive(Debug)]
pub struct ReconcilePlan {
    /// Documents to store, with their paths.
    pub upserts: Vec<(String, IndexedDocument)>,
    /// Paths whose rows are removed.
    pub deletes: Vec<String>,
    /// One warning per file that could not be indexed.
    pub warnings: Vec<String>,
    pub indexed_files: usize,
    pub chunks_indexed: usize,
    /// The dirty flag and reason the index is left with.
    pub desired_dirty: bool,
    pub desired_reason: Option<String>,
    /// Whether anything must be written at all.
    pub needs_write: bool,
    /// Whether shared chunks that lost their last reference must be collected.
    pub collect_garbage: bool,
}

/// The views of a sequence of (path, document) pairs.
pub open spec fn upsert_views(v: Seq<(String, IndexedDocument)>) -> Seq<(Seq<char>, IndexedDocument)> {
    v.map_values(|p: (String, IndexedDocument)| (p.0@, p.1))
}

/// Plans a reconcile of one scope. `existing` are the stored rows of the scope, `candidates`
/// the files found in it now (`shown` is how each is displayed), `dirty` the positions that
/// `dirty_candidates` picked, and `documents` what re-reading each of them yielded.
pub fn reconcile_plan(
    existing: &Vec<FileRecord>,
    candidates: &Vec<FileRecord>,
    shown: &Vec<String>,
    dirty: &Vec<usize>,
    documents: Vec<Option<IndexedDocument>>,
    current: Option<StateRow>,
) -> (r: ReconcilePlan)
    requires
        shown@.len() == candidates@.len(),
        documents@.len() == dirty@.len(),
        forall|k: int| 0 <= k < dirty@.len() ==> (dirty@[k] as int) < candidates@.len(),
        chunk_total(documents@, documents@.len() as int) <= usize::MAX,
    ensures
        upsert_views(r.upserts@) == planned_upserts(candidates@, dirty@, documents@, documents@.len() as int),
        crate::string_views(r.deletes@) == skipped_files(candidates@, crate::string_views(shown@), dirty@, documents@, documents@.len() as int).map_values(|p: (Seq<char>, Seq<char>)| p.0)
            + vanished_paths(existing@, candidates@, existing@.len() as int),
        crate::string_views(r.warnings@) == skipped_files(candidates@, crate::string_views(shown@), dirty@, documents@, documents@.len() as int).map_values(|p: (Seq<char>, Seq<char>)| skipped_warning(p.1)),
        r.indexed_files == r.upserts@.len(),
        r.chunks_indexed == chunk_total(documents@, documents@.len() as int),
        r.desired_dirty == (r.warnings@.len() > 0),
        opt_text(r.desired_reason) == (if r.warnings@.len() > 0 { Some(r.warnings@[0]@) } else { None }),
        r.needs_write == (r.upserts@.len() > 0 || r.deletes@.len() > 0 || (match current {
            Some(st) => st.dirty != r.desired_dirty || opt_text(st.dirty_reason) != opt_text(r.desired_reason),
            None => r.desired_dirty || r.desired_reason is Some,
        })),
        r.collect_garbage == (r.upserts@.len() > 0 || r.deletes@.len() > 0),
{
    let ghost cands = candidates@;
    let ghost shown_v = crate::string_views(shown@);
    let ghost docs = documents@;
    let mut upserts: Vec<(String, IndexedDocument)> = Vec::new();
    let mut deletes: Vec<String> = Vec::new();
    let mut warnings: Vec<String> = Vec::new();
    let mut chunks_indexed: usize = 0;
    let mut documents = documents;
    let mut k: usize = 0;
    assert(documents@ =~= docs.skip(0));
    assert(upsert_views(upserts@) =~= Seq::<(Seq<char>, IndexedDocument)>::empty());
    assert(crate::string_views(deletes@) =~= Seq::<Seq<char>>::empty());
    assert(crate::string_views(warnings@) =~= Seq::<Seq<char>>::empty());
    while k < dirty.len()
        invariant
            k <= dirty@.len(),
            docs.len() == dirty@.len(),
            shown@.len() == candidates@.len(),
            cands == candidates@,
            shown_v == crate::string_views(shown@),
            documents@ == docs.skip(k as int),
            forall|j: int| 0 <= j < dirty@.len() ==> (dirty@[j] as int) < candidates@.len(),
            chunk_total(docs, docs.len() as int) <= usize::MAX,
            upsert_views(upserts@) == planned_upserts(cands, dirty@, docs, k as int),
            crate::string_views(deletes@) == skipped_files(cands, shown_v, dirty@, docs, k as int).map_values(|p: (Seq<char>, Seq<char>)| p.0),
            crate::string_views(warnings@) == skipped_files(cands, shown_v, dirty@, docs, k as int).map_values(|p: (Seq<char>, Seq<char>)| skipped_warning(p.1)),
            chunks_indexed == chunk_total(docs, k as int),
        decreases dirty@.len() - k,
    {
        proof {
            lemma_chunk_total_mono(docs, k as int + 1, docs.len() as int);
        }
        let c = dirty[k];
        let taken = documents.remove(0);
        assert(taken == docs[k as int]);
        assert(documents@ =~= docs.skip(k as int + 1));
        let rel = candidates[c].rel_path.clone();
        match taken {
            Some(d) => {
                chunks_indexed = chunks_indexed + d.chunks.len();
                let ghost before = upsert_views(upserts@);
                let ghost dv = d;
                upserts.push((rel, d));
                assert(upsert_views(upserts@) =~= before.push((cands[c as int].rel_path@, dv)));
            },
            None => {
                let ghost before_d = crate::string_views(deletes@);
                let ghost before_w = crate::string_views(warnings@);
                let ghost sk = skipped_files(cands, shown_v, dirty@, docs, k as int);
                let mut w = String::new();
                crate::text::push_str(&mut w, "skipped unreadable or disallowed file ");
                crate::text::push_str(&mut w, shown[c].as_str());
                deletes.push(rel);
                warnings.push(w);
                let ghost item = (cands[c as int].rel_path@, shown_v[c as int]);
                assert(skipped_files(cands, shown_v, dirty@, docs, k as int + 1) == sk.push(item));
                assert(crate::string_views(deletes@) =~= before_d.push(item.0));
                assert(sk.push(item).map_values(|p: (Seq<char>, Seq<char>)| p.0) =~= sk.map_values(|p: (Seq<char>, Seq<char>)| p.0).push(item.0));
                assert(crate::string_views(warnings@) =~= before_w.push(skipped_warning(item.1)));
                assert(sk.push(item).map_values(|p: (Seq<char>, Seq<char>)| skipped_warning(p.1)) =~= sk.map_values(|p: (Seq<char>, Seq<char>)| skipped_warning(p.1)).push(skipped_warning(item.1)));
            },
        }
        k = k + 1;
    }
    let ghost skipped_deletes = crate::string_views(deletes@);
    let candidate_paths = path_set(candidates);
    let mut i: usize = 0;
    assert(skipped_deletes + vanished_paths(existing@, candidates@, 0) =~= skipped_deletes);
    while i < existing.len()
        invariant
            i <= existing@.len(),
            crate::string_views(deletes@) == skipped_deletes + vanished_paths(existing@, candidates@, i as int),
            forall|rel: Seq<char>| #[trigger] candidate_paths@.contains(rel) <==> is_candidate_path(candidates@, rel),
        decreases existing@.len() - i,
    {
        let seen = candidate_paths.contains(existing[i].rel_path.as_str());
        if !seen {
            let ghost before = crate::string_views(deletes@);
            let rel = existing[i].rel_path.clone();
            deletes.push(rel);
            assert(crate::string_views(deletes@) =~= before.push(existing@[i as int].rel_path@));
        }
        i = i + 1;
    }
    let desired_dirty = warnings.len() > 0;
    let desired_reason = if warnings.len() > 0 {
        Some(warnings[0].clone())
    } else {
        None
    };
    let needs_state_write = match &current {
        Some(st) => st.dirty != desired_dirty || !same_opt_text(&st.dirty_reason, &desired_reason),
        None => desired_dirty || desired_reason.is_some(),
    };
    let changes = upserts.len() > 0 || deletes.len() > 0;
    let indexed_files = upserts.len();
    ReconcilePlan {
        upserts,
        deletes,
        warnings,
        indexed_files,
        chunks_indexed,
        desired_dirty,
        desired_reason,
        needs_write: changes || needs_state_write,
        collect_garbage: changes,
    }
}

proof fn lemma_chunk_total_mono(documents: Seq<Option<IndexedDocument>>, a: int, b: int)
    requires
        a <= b,
    ensures
        chunk_total(documents, a) <= chunk_total(documents, b),
    decreases b - a,
{
    if a < b {
        lemma_chunk_total_mono(documents, a, b - 1);
    }
}

/// The set of the candidates' paths.
fn path_set(candidates: &Vec<FileRecord>) -> (r: StringHashSet)
    ensures
        forall|rel: Seq<char>| #[trigger] r@.contains(rel) <==> is_candidate_path(candidates@, rel),
{
    let mut set = StringHashSet::new();
    let mut j: usize = 0;
    while j < candidates.len()
        invariant
            j <= candidates@.len(),
            forall|rel: Seq<char>| #[trigger] set@.contains(rel) <==> (exists|t: int| 0 <= t < j && (#[trigger] candidates@[t]).rel_path@ == rel),
        decreases candidates@.len() - j,
    {
        let key = candidates[j].rel_path.clone();
        set.insert(key);
        assert forall|rel: Seq<char>| #[trigger] set@.contains(rel) <==> (exists|t: int| 0 <= t < j + 1 && (#[trigger] candidates@[t]).rel_path@ == rel) by {
            if rel == candidates@[j as int].rel_path@ {
                assert(candidates@[j as int].rel_path@ == rel);
            }
        }
        j = j + 1;
    }
    set
}

/// Compares two optional texts.
pub fn same_opt_text(a: &Option<String>, b: &Option<String>) -> (r: bool)
    ensures
        r == (opt_text(*a) == opt_text(*b)),
{
    match (a, b) {
        (Some(x), Some(y)) => crate::text::same_text(x.as_str(), y.as_str()),
        (None, None) => true,
        _ => false,
    }
}

/// What a full rebuild stores for the first `n` candidate files: the documents with their
/// paths relative to `root`, a warning per skipped file, and the number of chunks; or the
/// error for the first indexable file that is not under `root`.
pub open spec fn rebuild_fold(
    root: Seq<char>,
    paths: Seq<Seq<char>>,
    documents: Seq<Option<IndexedDocument>>,
    n: int,
) -> Result<(Seq<(Seq<char>, IndexedDocument)>, Seq<Seq<char>>, int), Seq<char>>
    decreases n,
{
    if n <= 0 {
        Ok((Seq::empty(), Seq::empty(), 0))
    } else {
        match rebuild_fold(root, paths, documents, n - 1) {
            Err(e) => Err(e),
            Ok(acc) => match documents[n - 1] {
                Some(d) => match relative_to(root, paths[n - 1]) {
                    Some(t) => Ok(
                        (acc.0.push((forward_slashes(t), d)), acc.1, acc.2 + d.chunks@.len()),
                    ),
                    None => Err(paths[n - 1] + " is not under "@ + root),
                },
                None => Ok((acc.0, acc.1.push("skipped "@ + paths[n - 1]), acc.2)),
            },
        }
    }
}

/// How many of the first `n` candidates yielded a document.
pub open spec fn loaded_count(documents: Seq<Option<IndexedDocument>>, n: int) -> int
    decreases n,
{
    if n <= 0 {
        0
    } else {
        loaded_count(documents, n - 1) + if documents[n - 1] is Some { 1int } else { 0int }
    }
}

/// A successful rebuild indexes exactly the candidates that yielded a document, warns once
/// for each that did not, and counts the chunks of the documents it indexes: so the scanned
/// files are the indexed ones plus the warned ones, and the run is `completed` exactly when
/// every candidate was indexed.
pub proof fn lemma_rebuild_counts(root: Seq<char>, paths: Seq<Seq<char>>, documents: Seq<Option<IndexedDocument>>, n: int)
    requires
        0 <= n,
        rebuild_fold(root, paths, documents, n) is Ok,
    ensures
        ({
            let folded = rebuild_fold(root, paths, documents, n)->Ok_0;
            &&& folded.0.len() == loaded_count(documents, n)
            &&& folded.0.len() + folded.1.len() == n
            &&& folded.2 == chunk_total(documents, n)
        }),
    decreases n,
{
    if n > 0 {
        lemma_rebuild_counts(root, paths, documents, n - 1);
    }
}

/// The status recorded for a finished run.
pub open spec fn run_status_text(had_warnings: bool) -> Seq<char> {
    if had_warnings {
        "completed_with_warnings"@
    } else {
        "completed"@
    }
}

/// What a full rebuild stores and records.
#[derive(Debug)]
pub struct RebuildPlan {
    /// Documents to store, with their paths relative to the root.
    pub upserts: Vec<(String, IndexedDocument)>,
    /// One warning per candidate file that could not be indexed.
    pub warnings: Vec<String>,
    pub stats: RebuildStats,
    /// The status recorded for the run.
    pub run_status: String,
}

/// Plans a full rebuild of `root` from its candidate files (`paths`, as found on disk) and
/// what reading each of them yielded.
pub fn rebuild_plan(root: &str, paths: &Vec<String>, documents: Vec<Option<IndexedDocument>>) -> (r:
    Result<RebuildPlan, ZgError>)
    requires
        documents@.len() == paths@.len(),
        chunk_total(documents@, documents@.len() as int) <= usize::MAX,
    ensures
        r is Err <==> rebuild_fold(root@, crate::string_views(paths@), documents@, paths@.len() as int) is Err,
        r matches Err(e) ==> rebuild_fold(root@, crate::string_views(paths@), documents@, paths@.len() as int)
            == Err::<(Seq<(Seq<char>, IndexedDocument)>, Seq<Seq<char>>, int), Seq<char>>(e.message@),
        r matches Ok(plan) ==> {
            let folded = rebuild_fold(root@, crate::string_views(paths@), documents@, paths@.len() as int)->Ok_0;
            &&& upsert_views(plan.upserts@) == folded.0
            &&& crate::string_views(plan.warnings@) == folded.1
            &&& plan.stats.scanned_files == paths@.len()
            &&& plan.stats.indexed_files == plan.upserts@.len()
            &&& plan.stats.chunks_indexed == folded.2
            &&& plan.run_status@ == run_status_text(plan.warnings@.len() > 0)
        },
{
    let ghost pv = crate::string_views(paths@);
    let ghost docs = documents@;
    let mut upserts: Vec<(String, IndexedDocument)> = Vec::new();
    let mut warnings: Vec<String> = Vec::new();
    let mut chunks_indexed: usize = 0;
    let mut pending = documents;
    let mut k: usize = 0;
    assert(pending@ =~= docs.skip(0));
    assert(upsert_views(upserts@) =~= Seq::<(Seq<char>, IndexedDocument)>::empty());
    assert(crate::string_views(warnings@) =~= Seq::<Seq<char>>::empty());
    while k < paths.len()
        invariant
            k <= paths@.len(),
            docs.len() == paths@.len(),
            pv == crate::string_views(paths@),
            pending@ == docs.skip(k as int),
            docs == documents@,
            chunk_total(docs, docs.len() as int) <= usize::MAX,
            rebuild_fold(root@, pv, docs, k as int) matches Ok(acc) && upsert_views(upserts@) == acc.0
                && crate::string_views(warnings@) == acc.1 && chunks_indexed == acc.2,
            chunks_indexed == chunk_total(docs, k as int),
        decreases paths@.len() - k,
    {
        proof {
            lemma_chunk_total_mono(docs, k as int + 1, docs.len() as int);
        }
        let taken = pending.remove(0);
        assert(taken == docs[k as int]);
        assert(pending@ =~= docs.skip(k as int + 1));
        match taken {
            Some(d) => match crate::index::util::relative_path_string(root, paths[k].as_str()) {
                Ok(rel) => {
                    chunks_indexed = chunks_indexed + d.chunks.len();
                    let ghost before = upsert_views(upserts@);
                    let ghost dv = d;
                    let ghost relv = rel@;
                    upserts.push((rel, d));
                    assert(upsert_views(upserts@) =~= before.push((relv, dv)));
                },
                Err(e) => {
                    proof {
                        assert(pv[k as int] == paths@[k as int]@);
                        assert(docs[k as int] is Some);
                        assert(relative_to(root@, pv[k as int]) is None);
                        assert(rebuild_fold(root@, pv, docs, k as int + 1) == Err::<(Seq<(Seq<char>, IndexedDocument)>, Seq<Seq<char>>, int), Seq<char>>(e.message@));
                        lemma_rebuild_fold_err(root@, pv, docs, k as int + 1, docs.len() as int);
                    }
                    return Err(e);
                },
            },
            None => {
                let ghost before = crate::string_views(warnings@);
                let mut w = String::new();
                crate::text::push_str(&mut w, "skipped ");
                crate::text::push_str(&mut w, paths[k].as_str());
                warnings.push(w);
                assert(crate::string_views(warnings@) =~= before.push("skipped "@ + pv[k as int]));
            },
        }
        k = k + 1;
    }
    let run_status = if warnings.len() == 0 {
        "completed".to_owned()
    } else {
        "completed_with_warnings".to_owned()
    };
    let indexed_files = upserts.len();
    Ok(RebuildPlan {
        upserts,
        warnings,
        stats: RebuildStats { scanned_files: paths.len(), indexed_files, chunks_indexed },
        run_status,
    })
}

proof fn lemma_rebuild_fold_err(
    root: Seq<char>,
    paths: Seq<Seq<char>>,
    documents: Seq<Option<IndexedDocument>>,
    a: int,
    b: int,
)
    requires
        a <= b,
        rebuild_fold(root, paths, documents, a) is Err,
    ensures
        rebuild_fold(root, paths, documents, b) == rebuild_fold(root, paths, documents, a),
    decreases b - a,
{
    if a < b {
        lemma_rebuild_fold_err(root, paths, documents, a, b - 1);
    }
}

} // verus!
