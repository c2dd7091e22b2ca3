//! The state that executing a block reads and changes.

use vstd::prelude::*;

use crate::bundle::Bundle;
use crate::header::{BlockHeader, ProposedEthHeader};
use crate::keymap::KeyMap;
use crate::primitives::{Address, BlockId, FixedBytes, SeqNum, B256, U256};
use crate::transactions::{Ommer, ReceiptEnvelope, TxEnvelope, Withdrawal};

verus! {

/// The Keccak-256 hash of no bytes at all.
pub const KECCAK_EMPTY_BYTES: [u8; 32] = [
    0xc5, 0xd2, 0x46, 0x01, 0x86, 0xf7, 0x23, 0x3c, 0x92, 0x7e, 0x7d, 0xb2, 0xdc, 0xc7, 0x03, 0xc0,
    0xe5, 0x00, 0xb6, 0x53, 0xca, 0x82, 0x27, 0x3b, 0x7b, 0xfa, 0xd8, 0x04, 0x5d, 0x85, 0xa4, 0x70,
];

/// The code hash of an account without code.
pub open spec fn spec_keccak_empty() -> B256 {
    FixedBytes(KECCAK_EMPTY_BYTES)
}

/// The code hash of an account without code.
pub fn keccak_empty() -> (r: B256)
    ensures
        r == spec_keccak_empty(),
{
    FixedBytes(KECCAK_EMPTY_BYTES)
}

/// An account.
#[derive(Clone, Copy, Debug, PartialEq, Eq)]
pub struct EthAccount {
    pub nonce: u64,
    pub balance: U256,
    pub code_hash: Option<B256>,
    pub is_delegated: bool,
}

/// How a block changes one storage slot.
#[derive(Clone, Copy, Debug, PartialEq, Eq)]
pub struct StorageDelta {
    pub old_value: B256,
    pub new_value: B256,
}

/// How a block changes one account.
pub struct AccountDelta {
    pub old_account: Option<EthAccount>,
    pub new_account: Option<EthAccount>,
    pub storage: KeyMap<B256, StorageDelta>,
    /// Whether the account was deleted and created again, so that its old storage is gone.
    pub incarnation_changed: bool,
}

/// How a block changes the accounts.
pub type StateDeltas = KeyMap<Address, AccountDelta>;

/// Code by its hash.
pub type CodeMap = KeyMap<B256, Vec<u8>>;

/// A block as it is executed.
pub struct Block {
    pub header: ProposedEthHeader,
    pub transactions: Vec<TxEnvelope>,
    pub ommers: Vec<Ommer>,
    pub withdrawals: Vec<Withdrawal>,
}

/// What executing a block gives.
pub struct BlockExecOutput {
    pub eth_header: BlockHeader,
    pub eth_block_hash: B256,
    pub transactions: Vec<TxEnvelope>,
    pub receipts: Vec<ReceiptEnvelope>,
    pub bundle: Bundle,
}

/// A transaction by its hash, with its bytes.
#[derive(Clone, Debug, PartialEq, Eq)]
pub struct Transaction {
    pub hash: B256,
    pub data: Vec<u8>,
}

/// A block that consensus agreed on: what is to be executed, and the headers of earlier blocks
/// whose execution it vouches for.
#[derive(Clone, Debug)]
pub struct ConsensusFullBlock {
    pub id: BlockId,
    pub parent_id: BlockId,
    pub seq_num: SeqNum,
    pub execution_inputs: ProposedEthHeader,
    pub execution_results: Vec<BlockHeader>,
    pub transactions: Vec<TxEnvelope>,
    pub ommers: Vec<Ommer>,
    pub withdrawals: Vec<Withdrawal>,
}

/// How long a block took to execute.
#[derive(Clone, Copy, Debug, PartialEq, Eq, Structural)]
pub struct BlockMetrics {
    pub num_retries: u64,
    pub tx_exec_time_us: u64,
}

impl Default for BlockMetrics {
    fn default() -> (r: Self)
        ensures
            r.num_retries == 0,
            r.tx_exec_time_us == 0,
    {
        BlockMetrics { num_retries: 0, tx_exec_time_us: 0 }
    }
}

impl AccountDelta {
    /// No change to an account that does not exist.
    pub fn new() -> (r: Self)
        ensures
            r.old_account is None,
            r.new_account is None,
            r.storage@ == Map::<B256, StorageDelta>::empty(),
            !r.incarnation_changed,
    {
        AccountDelta {
            old_account: None,
            new_account: None,
            storage: KeyMap::new(),
            incarnation_changed: false,
        }
    }
}

impl Default for AccountDelta {
    fn default() -> (r: Self)
        ensures
            r.old_account is None,
            r.new_account is None,
            r.storage@ == Map::<B256, StorageDelta>::empty(),
            !r.incarnation_changed,
    {
        Self::new()
    }
}

} // verus!
