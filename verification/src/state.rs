//! The process-wide shared state: created once at startup, read by every
//! query, written only by the indexing task.

use vstd::prelude::*;

use crate::index::ScriptIndex;
use crate::types::{BlockRef, Hash256, TxEntry};

verus! {

/// The genesis identifier, the script index, and the source tip height
/// observed at boot (it seeds the `Behind` phase before the first cycle).
pub struct State {
    pub genesis_id: Hash256,
    pub index: ScriptIndex,
    pub boot_source_height: u32,
}

impl State {
    /// The index is well formed and its chain starts at this genesis.
    pub open spec fn wf(self) -> bool {
        &&& self.index.wf()
        &&& self.index.chain_spec().len() >= 1
        &&& self.index.chain_spec()[0].block_id == self.genesis_id
    }

    /// Fresh state: an empty index whose chain holds only the genesis.
    pub fn new(genesis_id: Hash256, boot_source_height: u32) -> (r: State)
        ensures
            r.wf(),
            r.genesis_id == genesis_id,
            r.boot_source_height == boot_source_height,
            r.index.histories() == Map::<u64, Seq<TxEntry>>::empty(),
            r.index.chain_spec().len() == 1,
            r.index.tip_spec().height == 0,
    {
        let genesis = BlockRef { height: 0, block_id: genesis_id, timestamp: 0 };
        State { genesis_id, index: ScriptIndex::new(genesis), boot_source_height }
    }
}

} // verus!
