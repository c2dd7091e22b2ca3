//! A call handler that executes nothing.

use vstd::prelude::*;

use crate::ethcall::{
    CallResult, EthCallHandler, MonadTracer, StateOverrideSet, SuccessCallResult,
};
use crate::primitives::{Address, BlockId, SeqNum};

verus! {

/// A call handler that executes nothing.
pub struct MockEthCallHandler;

/// Whether a call succeeded, used this much gas and gave nothing.
pub open spec fn succeeded_with(r: CallResult, gas: u64) -> bool {
    r matches CallResult::Success(s) && s.gas_used == gas && s.gas_refund == 0 && s.output_data@
        == Seq::<u8>::empty()
}

impl MockEthCallHandler {
    pub fn new() -> (r: Self)
        ensures
            r == MockEthCallHandler,
    {
        MockEthCallHandler
    }
}

impl Default for MockEthCallHandler {
    fn default() -> (r: Self)
        ensures
            r == MockEthCallHandler,
    {
        Self::new()
    }
}

impl EthCallHandler for MockEthCallHandler {
    fn eth_call(
        &self,
        chain_id: u64,
        transaction: Vec<u8>,
        block_header: Vec<u8>,
        sender: Address,
        seq_num: SeqNum,
        block_id: Option<BlockId>,
        state_override_set: &StateOverrideSet,
        tracer: MonadTracer,
        gas_specified: bool,
    ) -> (r: CallResult)
        ensures
            succeeded_with(r, 21000),
    {
        CallResult::Success(
            SuccessCallResult { gas_used: 21000, gas_refund: 0, output_data: Vec::new() },
        )
    }

    fn eth_trace_block_or_transaction(
        &self,
        chain_id: u64,
        block_header: Vec<u8>,
        seq_num: SeqNum,
        block_id: Option<BlockId>,
        parent_id: Option<BlockId>,
        grandparent_id: Option<BlockId>,
        transaction_index: i64,
        tracer: MonadTracer,
    ) -> (r: CallResult)
        ensures
            succeeded_with(r, 0),
    {
        CallResult::Success(
            SuccessCallResult { gas_used: 0, gas_refund: 0, output_data: Vec::new() },
        )
    }
}

} // verus!
