//! The indexer's decision kernel. The perpetual task around it performs
//! the chain-source calls and hands the observations back; every decision —
//! divergence detection, the next action, the phase — is taken here.

use vstd::prelude::*;

use crate::types::{BlockRef, Hash256};

verus! {

/// The synchronization phases of the indexer's perpetual loop.
#[derive(Clone, Copy, PartialEq, Eq, Structural, Debug)]
pub enum SyncPhase {
    /// The index tip is below the source tip.
    Behind,
    /// A block is being fetched and applied.
    Syncing,
    /// The index tip equals the source tip; the mempool is polled.
    Synced,
    /// Divergence was detected; the index is being rolled back.
    RollingBack,
}

/// What the indexing loop should do next.
#[derive(Clone, Copy, PartialEq, Eq, Structural, Debug)]
pub enum SyncAction {
    /// Search downward for the fork point and roll back to it.
    Rollback,
    /// Fetch the block at this height and apply it.
    ApplyBlock(u32),
    /// Poll the mempool, then sleep for the poll interval.
    PollMempool,
}

/// Divergence, spec form: the source either fell below the index tip or
/// reports a different block id at the tip's height.
pub open spec fn spec_diverged(
    tip: BlockRef,
    source_height: u32,
    source_id_at_tip: Option<Hash256>,
) -> bool {
    source_height < tip.height || source_id_at_tip != Some(tip.block_id)
}

/// Compare the index tip with what the source reports at the same height.
pub fn diverged(tip: &BlockRef, source_height: u32, source_id_at_tip: &Option<Hash256>) -> (r:
    bool)
    ensures
        r == spec_diverged(*tip, source_height, *source_id_at_tip),
{
    if source_height < tip.height {
        true
    } else {
        match source_id_at_tip {
            Some(id) => *id != tip.block_id,
            None => true,
        }
    }
}

/// Decide the next action from one observation of the source: roll back on
/// divergence, apply the next block while behind, otherwise poll the
/// mempool.
pub fn next_action(tip_height: u32, source_height: u32, is_diverged: bool) -> (r: SyncAction)
    ensures
        r == if is_diverged {
            SyncAction::Rollback
        } else if tip_height < source_height {
            SyncAction::ApplyBlock((tip_height + 1) as u32)
        } else {
            SyncAction::PollMempool
        },
{
    if is_diverged {
        SyncAction::Rollback
    } else if tip_height < source_height {
        SyncAction::ApplyBlock(tip_height + 1)
    } else {
        SyncAction::PollMempool
    }
}

/// Classify the loop's phase from the same observation. `Syncing` is the
/// transient phase while an `ApplyBlock` action runs.
pub fn next_phase(tip_height: u32, source_height: u32, is_diverged: bool) -> (r: SyncPhase)
    ensures
        r == if is_diverged {
            SyncPhase::RollingBack
        } else if tip_height < source_height {
            SyncPhase::Behind
        } else {
            SyncPhase::Synced
        },
{
    if is_diverged {
        SyncPhase::RollingBack
    } else if tip_height < source_height {
        SyncPhase::Behind
    } else {
        SyncPhase::Synced
    }
}

} // verus!
