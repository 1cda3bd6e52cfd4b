//! Script-indexed blockchain history with a descriptor "waterfall" query engine.
//!
//! The library keeps a script-hash → transaction-history index synchronized
//! with a chain of blocks, survives chain reorganizations by rolling the index
//! back to the fork point, and answers paginated per-branch history queries.
//! All I/O (chain source, HTTP transport, persistence) lives outside; the
//! logic here works on plain values and is verified.

use vstd::prelude::*;

pub mod index;
pub mod query;
pub mod script_hash;
pub mod state;
pub mod sync;
pub mod types;

verus! {

/// Command-line arguments of the indexing server. The transport layer carries
/// a mirrored copy with the argument-parser derives.
pub struct Arguments {}

/// Errors the library reports to its callers.
#[derive(Clone, Copy, PartialEq, Eq, Structural, Debug)]
pub enum Error {
    /// The requested page times the batch size does not fit a 32-bit
    /// derivation index: the descriptor cannot have addresses that far out.
    PageOverflow,
}

} // verus!
