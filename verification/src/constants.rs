//! Tunables of ranking and the default file locations.

use vstd::prelude::*;

verus! {

/// How many of the best candidates take part in semantic re-ranking.
pub const SEMANTIC_RERANK_N: usize = 50;

/// Shortest token, in bytes, for which prefix expansion is attempted.
pub const PREFIX_MIN_LEN: usize = 4;

/// Shortest token, in bytes, for which fuzzy matching is attempted.
pub const FUZZY_MIN_LEN: usize = 4;

/// Where the crawler streams its per-document records.
pub const TEMP_INDEX_PATH: &'static str = "temp_index.bin";

/// Where the finished index is saved.
pub const FINAL_INDEX_PATH: &'static str = "man.idx";

} // verus!
