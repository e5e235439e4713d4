//! The local `.zg/` index: its levels and status, chunking, rank fusion, and the plans that
//! keep it in step with the files on disk.
pub mod chunking;
pub mod code_symbols;
pub mod embedding;
pub mod evaluation;
pub mod natural;
pub mod ranking;
pub mod snippets;
pub mod store;
pub mod sync;
pub mod types;
pub mod util;

pub use types::{
    IndexLevel, IndexStatus, InitPreflight, RebuildStats, FTS_PROMPT_MAX_CHUNKS,
    VECTOR_PROMPT_MAX_CHUNKS,
};
