//! Keeping track of the transactions that users sent.

pub mod bridge;
pub mod input;
pub mod maps;

use vstd::prelude::*;

use crate::keymap::KeyMap;
use crate::primitives::{Address, TxHash, U256};
use crate::transactions::TxEnvelope;

verus! {

/// The priority of a transaction whose sender asks for none.
pub const DEFAULT_TX_PRIORITY_VALUE: u64 = 0xFFFF;

/// The priority of a transaction whose sender asks for none.
pub fn default_tx_priority() -> (r: U256)
    ensures
        r == U256::spec_from_u64(DEFAULT_TX_PRIORITY_VALUE),
{
    U256::from_u64(DEFAULT_TX_PRIORITY_VALUE)
}

/// Why a transaction cannot be valid, whatever the state is.
#[derive(Copy, Clone, Debug, PartialEq, Eq, Structural)]
pub enum StaticValidationError {
    InvalidChainId,
    MaxPriorityOverMaxFee,
    InitCodeLimitExceeded,
    EncodedLengthLimitExceeded,
    GasLimitUnderFloorDataGas,
    GasLimitUnderIntrinsicGas,
    GasLimitOverTFMGasLimit,
    GasLimitOverProposalGasLimit,
    InvalidSignature,
    UnsupportedTransactionType,
    AuthorizationListEmpty,
    AuthorizationListLengthLimitExceeded,
}

/// What went wrong within the pool.
#[derive(Copy, Clone, Debug, PartialEq, Eq, Structural)]
pub enum EthTxPoolInternalDropReason {
    StateBackendError,
    NotReady,
}

/// Why a transaction was dropped.
#[derive(Copy, Clone, Debug, PartialEq, Eq)]
pub enum EthTxPoolDropReason {
    NotWellFormed(StaticValidationError),
    InvalidSignature,
    NonceTooLow,
    FeeTooLow,
    InsufficientBalance,
    ExistingHigherPriority,
    ReplacedByHigherPriority { replacement: TxHash },
    PoolFull,
    PoolNotReady,
    Internal(EthTxPoolInternalDropReason),
}

impl StaticValidationError {
    /// What users are told.
    pub open spec fn user_text(self) -> Seq<char> {
        match self {
            StaticValidationError::InvalidChainId => "Invalid chain ID"@,
            StaticValidationError::MaxPriorityOverMaxFee => "Max priority fee too high"@,
            StaticValidationError::InitCodeLimitExceeded => "Init code size limit exceeded"@,
            StaticValidationError::EncodedLengthLimitExceeded => "Encoded length limit exceeded"@,
            StaticValidationError::GasLimitUnderFloorDataGas => "Gas limit too low"@,
            StaticValidationError::GasLimitUnderIntrinsicGas => "Gas limit too low"@,
            StaticValidationError::GasLimitOverTFMGasLimit => "Exceeds transaction gas limit"@,
            StaticValidationError::GasLimitOverProposalGasLimit => "Exceeds transaction gas limit"@,
            StaticValidationError::InvalidSignature => "Invalid transaction signature"@,
            StaticValidationError::UnsupportedTransactionType => "Unsupported transaction type"@,
            StaticValidationError::AuthorizationListEmpty => "EIP7702 authorization list empty"@,
            StaticValidationError::AuthorizationListLengthLimitExceeded =>
                "EIP7702 authorization list length limit exceeded"@,
        }
    }

    fn as_user_str(&self) -> (r: &'static str)
        ensures
            r@ == self.user_text(),
    {
        match self {
            StaticValidationError::InvalidChainId => "Invalid chain ID",
            StaticValidationError::MaxPriorityOverMaxFee => "Max priority fee too high",
            StaticValidationError::InitCodeLimitExceeded => "Init code size limit exceeded",
            StaticValidationError::EncodedLengthLimitExceeded => "Encoded length limit exceeded",
            StaticValidationError::GasLimitUnderFloorDataGas => "Gas limit too low",
            StaticValidationError::GasLimitUnderIntrinsicGas => "Gas limit too low",
            StaticValidationError::GasLimitOverTFMGasLimit => "Exceeds transaction gas limit",
            StaticValidationError::GasLimitOverProposalGasLimit => "Exceeds transaction gas limit",
            StaticValidationError::InvalidSignature => "Invalid transaction signature",
            StaticValidationError::UnsupportedTransactionType => "Unsupported transaction type",
            StaticValidationError::AuthorizationListEmpty => "EIP7702 authorization list empty",
            StaticValidationError::AuthorizationListLengthLimitExceeded =>
                "EIP7702 authorization list length limit exceeded",
        }
    }
}

impl EthTxPoolDropReason {
    /// What users are told.
    pub open spec fn user_text(self) -> Seq<char> {
        match self {
            EthTxPoolDropReason::NotWellFormed(err) => err.user_text(),
            EthTxPoolDropReason::InvalidSignature => "Transaction signature is invalid"@,
            EthTxPoolDropReason::NonceTooLow => "Transaction nonce too low"@,
            EthTxPoolDropReason::FeeTooLow => "Transaction fee too low"@,
            EthTxPoolDropReason::InsufficientBalance => "Signer had insufficient balance"@,
            EthTxPoolDropReason::PoolFull => "Transaction pool is full"@,
            EthTxPoolDropReason::ExistingHigherPriority =>
                "An existing transaction had higher priority"@,
            EthTxPoolDropReason::ReplacedByHigherPriority { .. } =>
                "A newer transaction had higher priority"@,
            EthTxPoolDropReason::PoolNotReady => "Transaction pool is not ready"@,
            EthTxPoolDropReason::Internal(_) => "Internal error"@,
        }
    }

    /// What users are told.
    pub fn as_user_string(&self) -> (r: String)
        ensures
            r@ == self.user_text(),
    {
        let text = match self {
            EthTxPoolDropReason::NotWellFormed(err) => err.as_user_str(),
            EthTxPoolDropReason::InvalidSignature => "Transaction signature is invalid",
            EthTxPoolDropReason::NonceTooLow => "Transaction nonce too low",
            EthTxPoolDropReason::FeeTooLow => "Transaction fee too low",
            EthTxPoolDropReason::InsufficientBalance => "Signer had insufficient balance",
            EthTxPoolDropReason::PoolFull => "Transaction pool is full",
            EthTxPoolDropReason::ExistingHigherPriority =>
                "An existing transaction had higher priority",
            EthTxPoolDropReason::ReplacedByHigherPriority { .. } =>
                "A newer transaction had higher priority",
            EthTxPoolDropReason::PoolNotReady => "Transaction pool is not ready",
            EthTxPoolDropReason::Internal(_) => "Internal error",
        };
        String::from_str(text)
    }
}

/// Why a transaction was evicted.
#[derive(Copy, Clone, Debug, PartialEq, Eq, Structural)]
pub enum EthTxPoolEvictReason {
    Expired,
}

/// What happened to a transaction.
#[derive(Clone, Debug)]
pub enum EthTxPoolEventType {
    /// It was inserted into the pool.
    Insert { address: Address, owned: bool, tx: TxEnvelope },
    /// It was committed, and is final.
    Commit,
    /// It was dropped.
    Drop { reason: EthTxPoolDropReason },
    /// It timed out and was evicted.
    Evict { reason: EthTxPoolEvictReason },
}

/// What happened to which transaction.
#[derive(Clone, Debug)]
pub struct EthTxPoolEvent {
    pub tx_hash: TxHash,
    pub action: EthTxPoolEventType,
}

/// The transactions that are in the pool.
pub struct EthTxPoolSnapshot {
    pub txs: KeyMap<TxHash, ()>,
}

/// A transaction on its way into the pool.
#[derive(Clone, Debug)]
pub struct EthTxPoolIpcTx {
    pub tx: TxEnvelope,
    pub priority: U256,
    pub extra_data: Vec<u8>,
}

impl EthTxPoolIpcTx {
    /// A transaction whose sender asks for no priority.
    pub fn new_with_default_priority(tx: TxEnvelope, extra_data: Vec<u8>) -> (r: Self)
        ensures
            r.tx == tx,
            r.extra_data == extra_data,
            r.priority == U256::spec_from_u64(DEFAULT_TX_PRIORITY_VALUE),
    {
        EthTxPoolIpcTx { tx, priority: default_tx_priority(), extra_data }
    }
}

/// How far a transaction has come.
#[derive(Copy, Clone, Debug, PartialEq, Eq)]
pub enum TxStatus {
    Unknown,
    /// It is in the pool.
    Pooled,
    Dropped { reason: EthTxPoolDropReason },
    Evicted { reason: EthTxPoolEvictReason },
    Committed,
}

/// Users are told why a transaction cannot be valid, in the words for just that reason, also where this
/// is why it was dropped.
pub proof fn lemma_users_are_told_what_is_wrong(e: StaticValidationError)
    ensures
        EthTxPoolDropReason::NotWellFormed(e).user_text() == e.user_text(),
        e is InvalidChainId ==> e.user_text() == "Invalid chain ID"@,
        e is MaxPriorityOverMaxFee ==> e.user_text() == "Max priority fee too high"@,
        e is InitCodeLimitExceeded ==> e.user_text() == "Init code size limit exceeded"@,
        e is EncodedLengthLimitExceeded ==> e.user_text() == "Encoded length limit exceeded"@,
        e is GasLimitUnderFloorDataGas || e is GasLimitUnderIntrinsicGas ==> e.user_text()
            == "Gas limit too low"@,
        e is GasLimitOverTFMGasLimit || e is GasLimitOverProposalGasLimit ==> e.user_text()
            == "Exceeds transaction gas limit"@,
        e is InvalidSignature ==> e.user_text() == "Invalid transaction signature"@,
        e is UnsupportedTransactionType ==> e.user_text() == "Unsupported transaction type"@,
        e is AuthorizationListEmpty ==> e.user_text() == "EIP7702 authorization list empty"@,
        e is AuthorizationListLengthLimitExceeded ==> e.user_text()
            == "EIP7702 authorization list length limit exceeded"@,
{
}

} // verus!
