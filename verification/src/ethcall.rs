//! Calls that are executed without changing the chain.

use vstd::prelude::*;

use crate::keymap::KeyMap;
use crate::primitives::{Address, BlockId, SeqNum, B256, U256};

verus! {

/// What is recorded while a call is executed.
#[derive(Clone, Copy, Debug, Eq, PartialEq, Structural)]
pub enum MonadTracer {
    NoopTracer,
    CallTracer,
    PreStateTracer,
    StateDiffTracer,
    AccessListTracer,
}

impl MonadTracer {
    /// The number of the tracer.
    pub fn code(&self) -> (r: u32)
        ensures
            r == match *self {
                MonadTracer::NoopTracer => 0u32,
                MonadTracer::CallTracer => 1u32,
                MonadTracer::PreStateTracer => 2u32,
                MonadTracer::StateDiffTracer => 3u32,
                MonadTracer::AccessListTracer => 4u32,
            },
    {
        match self {
            MonadTracer::NoopTracer => 0,
            MonadTracer::CallTracer => 1,
            MonadTracer::PreStateTracer => 2,
            MonadTracer::StateDiffTracer => 3,
            MonadTracer::AccessListTracer => 4,
        }
    }
}

/// How a call ended.
#[derive(Clone, Copy, Debug, PartialEq, Eq, Structural)]
pub enum EthCallResult {
    Success,
    OutOfGas,
    OtherError,
}

impl Default for EthCallResult {
    fn default() -> (r: Self)
        ensures
            r == EthCallResult::OtherError,
    {
        EthCallResult::OtherError
    }
}

/// What a call gave.
#[derive(Clone, Debug, PartialEq, Eq)]
pub enum CallResult {
    Success(SuccessCallResult),
    Failure(FailureCallResult),
    Revert(RevertCallResult),
}

#[derive(Clone, Debug, PartialEq, Eq)]
pub struct SuccessCallResult {
    pub gas_used: u64,
    pub gas_refund: u64,
    pub output_data: Vec<u8>,
}

impl Default for SuccessCallResult {
    fn default() -> (r: Self)
        ensures
            r.gas_used == 0,
            r.gas_refund == 0,
            r.output_data@ == Seq::<u8>::empty(),
    {
        SuccessCallResult { gas_used: 0, gas_refund: 0, output_data: Vec::new() }
    }
}

#[derive(Clone, Debug, PartialEq, Eq)]
pub struct FailureCallResult {
    pub error_code: EthCallResult,
    pub message: String,
    pub data: Option<String>,
}

impl Default for FailureCallResult {
    fn default() -> (r: Self)
        ensures
            r.error_code == EthCallResult::OtherError,
            r.message@ == Seq::<char>::empty(),
            r.data is None,
    {
        FailureCallResult {
            error_code: EthCallResult::OtherError,
            message: String::new(),
            data: None,
        }
    }
}

#[derive(Clone, Debug, PartialEq, Eq)]
pub struct RevertCallResult {
    pub trace: Vec<u8>,
}

impl Default for RevertCallResult {
    fn default() -> (r: Self)
        ensures
            r.trace@ == Seq::<u8>::empty(),
    {
        RevertCallResult { trace: Vec::new() }
    }
}

/// Storage that is put in place of an account's own: all of it, or some slots.
pub enum StorageOverride {
    State(KeyMap<B256, B256>),
    StateDiff(KeyMap<B256, B256>),
}

/// What is put in place of an account's own state.
pub struct StateOverrideObject {
    pub balance: Option<U256>,
    pub nonce: Option<u64>,
    pub code: Option<Vec<u8>>,
    pub storage_override: Option<StorageOverride>,
}

/// What is put in place of state, by account.
pub type StateOverrideSet = KeyMap<Address, StateOverrideObject>;

/// What executes calls.
pub trait EthCallHandler {
    fn eth_call(
        &self,
        chain_id: u64,
        transaction: Vec<u8>,
        block_header: Vec<u8>,
        sender: Address,
        seq_num: SeqNum,
        block_id: Option<BlockId>,
        state_override_set: &StateOverrideSet,
        tracer: MonadTracer,
        gas_specified: bool,
    ) -> CallResult;

    fn eth_trace_block_or_transaction(
        &self,
        chain_id: u64,
        block_header: Vec<u8>,
        seq_num: SeqNum,
        block_id: Option<BlockId>,
        parent_id: Option<BlockId>,
        grandparent_id: Option<BlockId>,
        transaction_index: i64,
        tracer: MonadTracer,
    ) -> CallResult;
}

} // verus!
