//! What consensus asks of the engine.

use vstd::prelude::*;

use crate::primitives::{BlockId, SeqNum};
use crate::types::ConsensusFullBlock;

verus! {

/// A request of consensus.
#[derive(Clone, Debug)]
pub enum ExecutionCommand {
    Propose { block_id: BlockId, block: ConsensusFullBlock },
    Finalize { seq_num: SeqNum, block_id: BlockId, block: ConsensusFullBlock },
    Shutdown,
}

} // verus!
