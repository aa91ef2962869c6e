//! Chunked, resumable identification of orphan path entries.
//!
//! The library walks a table of discovered filesystem nodes ("path
//! entries"), finds those without a content link, and, batch by batch,
//! either links each one to an existing content record with the same
//! content identity or creates a new record for it.  Pagination is
//! cursor-based over immutable, ascending ids, which makes the batches
//! of one run a partition of the orphan set.

use vstd::prelude::*;

pub mod engine;
pub mod job;
pub mod laws;
pub mod model;
pub mod scanner;

verus! {

/// Number of orphan entries processed in one step of a run.
pub const CHUNK_SIZE: usize = 100;

} // verus!
