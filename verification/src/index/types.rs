//! Index levels, status records and the limits that steer index creation.
use vstd::prelude::*;

use crate::text::same_text;

verus! {

/// The schema version an index database must carry to be searched.
pub const SCHEMA_VERSION: u32 = 10;
/// Files larger than this many bytes are not indexed.
pub const DEFAULT_MAX_FILE_BYTES: u64 = 2 * 1024 * 1024;
/// Files with more lines than this are not indexed.
pub const DEFAULT_MAX_FILE_LINES: usize = 100_000;
/// The inline marker that splits a line into separate chunks.
pub const DEFAULT_CHUNK_MARKER: &'static str = " :: ";
/// The chunking mode recorded in the index settings.
pub const DEFAULT_CHUNK_MODE: &'static str = "line+short-merge";
/// Chunks shorter than this many characters are merged with their neighbours.
pub const DEFAULT_SHORT_CHUNK_MERGE_MAX_CHARS: usize = 48;
/// The content policy recorded in the index settings.
pub const DEFAULT_SCOPE_POLICY: &'static str =
    "document suffix + supported code language whitelist + encoding/character whitelist";
/// The traversal policy recorded in the index settings.
pub const DEFAULT_WALK_POLICY: &'static str =
    "ripgrep-style: parent ignore + hidden + .ignore/.gitignore/git excludes + .zgignore; .zg/ always skipped";
/// The embedding provider recorded in the index settings.
pub const DEFAULT_VECTOR_PROVIDER: &'static str = "fastembed-ParaphraseMLMiniLML12V2Q";
/// A fresh index whose size exceeds the recommendation by this factor needs `--force`.
pub const INIT_SANITY_CHECK_MULTIPLIER: usize = 10;
/// Up to this many chunks, a lexical index is recommended without hesitation.
pub const FTS_PROMPT_MAX_CHUNKS: usize = 3_000;
/// Up to this many chunks, a hybrid lexical and vector index is recommended.
pub const VECTOR_PROMPT_MAX_CHUNKS: usize = 1_024;
/// The dimension of stored embedding vectors.
pub const VECTOR_DIMENSIONS: usize = 384;
/// How many lexical candidates one query asks the full-text index for.
pub const FTS_CANDIDATE_LIMIT: usize = 96;
/// How many nearest neighbours one query asks the vector index for.
pub const VECTOR_CANDIDATE_LIMIT: usize = 96;
/// How many purely semantic hits may accompany lexical hits.
pub const MAX_SEMANTIC_ONLY_HITS_WITH_LEXICAL: usize = 5;

/// The two index levels: lexical only, or lexical plus vectors.
#[derive(Clone, Copy, Debug, PartialEq, Eq, Structural)]
pub enum IndexLevel {
    Fts,
    FtsVector,
}

/// The name of a level as users type it.
pub open spec fn level_name(level: IndexLevel) -> Seq<char> {
    match level {
        IndexLevel::Fts => "fts"@,
        IndexLevel::FtsVector => "fts+vector"@,
    }
}

/// The chunk count up to which a level is recommended.
pub open spec fn recommended_limit(level: IndexLevel) -> int {
    match level {
        IndexLevel::Fts => FTS_PROMPT_MAX_CHUNKS as int,
        IndexLevel::FtsVector => VECTOR_PROMPT_MAX_CHUNKS as int,
    }
}

/// The level a fresh index gets when none is asked for.
pub const DEFAULT_INDEX_LEVEL: IndexLevel = IndexLevel::Fts;

impl IndexLevel {
    /// The level's name as users type it.
    pub fn as_str(self) -> (r: &'static str)
        ensures
            r@ == level_name(self),
    {
        match self {
            IndexLevel::Fts => "fts",
            IndexLevel::FtsVector => "fts+vector",
        }
    }

    /// Whether the level keeps embedding vectors.
    pub fn vectors_enabled(self) -> (r: bool)
        ensures
            r == (self == IndexLevel::FtsVector),
    {
        match self {
            IndexLevel::Fts => false,
            IndexLevel::FtsVector => true,
        }
    }

    /// The chunk count up to which the level is recommended.
    pub fn recommended_chunk_limit(self) -> (r: usize)
        ensures
            r == recommended_limit(self),
    {
        match self {
            IndexLevel::Fts => FTS_PROMPT_MAX_CHUNKS,
            IndexLevel::FtsVector => VECTOR_PROMPT_MAX_CHUNKS,
        }
    }

    /// The chunk count above which creating an index of this level needs `--force`.
    pub fn init_force_chunk_limit(self) -> (r: usize)
        ensures
            r == recommended_limit(self) * INIT_SANITY_CHECK_MULTIPLIER,
    {
        self.recommended_chunk_limit() * INIT_SANITY_CHECK_MULTIPLIER
    }
}

/// Reads a level from its name; any other text is refused with the accepted names.
pub fn parse_index_level(value: &str) -> (r: Result<IndexLevel, &'static str>)
    ensures
        r matches Ok(level) ==> level_name(level) == value@,
        r is Err <==> (value@ != "fts"@ && value@ != "fts+vector"@),
        r matches Err(message) ==> message@ == "expected `fts` or `fts+vector`"@,
{
    if same_text(value, "fts") {
        Ok(IndexLevel::Fts)
    } else if same_text(value, "fts+vector") {
        Ok(IndexLevel::FtsVector)
    } else {
        Err("expected `fts` or `fts+vector`")
    }
}

/// What a full rebuild scanned and indexed.
#[derive(Clone, Debug, PartialEq, Eq, Structural)]
pub struct RebuildStats {
    pub scanned_files: usize,
    pub indexed_files: usize,
    pub chunks_indexed: usize,
}

/// The size check made before an index is created.
#[derive(Clone, Debug, PartialEq, Eq, Structural)]
pub struct InitPreflight {
    pub estimated_chunks: usize,
    pub recommended_chunk_limit: usize,
    pub force_threshold: usize,
    pub requires_force: bool,
}

/// The state of the index that covers a requested path.
#[derive(Clone, Debug)]
pub struct IndexStatus {
    pub requested_path: String,
    pub index_root: Option<String>,
    pub indexed: bool,
    pub index_level: IndexLevel,
    pub index_level_known: bool,
    pub chunk_mode: String,
    pub chunk_marker: String,
    pub scope_policy: String,
    pub walk_policy: String,
    pub dirty: bool,
    pub dirty_reason: Option<String>,
    pub last_sync_unix_ms: Option<u64>,
    pub file_count: u64,
    pub chunk_count: u64,
    pub fts_ready: bool,
    pub vector_ready: bool,
    pub last_index_run_status: Option<String>,
    pub last_index_run_duration_ms: Option<u64>,
}

impl IndexStatus {
    /// Whether the index level was read from an index rather than assumed.
    pub fn index_level_known(&self) -> (r: bool)
        ensures
            r == self.index_level_known,
    {
        self.index_level_known
    }
}

} // verus!
