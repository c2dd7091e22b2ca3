//! An executor that executes nothing.

use vstd::prelude::*;

use crate::bundle::{empty_bundle, Bundle};
use crate::header::{default_header, header_hash, BlockHeader, HeaderView, ProposedEthHeader};
use crate::primitives::{SeqNum, B256, U256};
use crate::traits::{
    reached, BlockExecutor, BlockHashBuffer, DbOp, ExecutionDb, ExecutionError,
};
use crate::types::{Block, BlockExecOutput};
use crate::validation::compute_block_hash;

verus! {

/// An executor that executes nothing.
pub struct MockBlockExecutor;

/// The gas that each transaction is said to use.
pub const MOCK_GAS_PER_TX: u64 = 21000;

/// The header that is said to come of a block with `n` transactions.
pub open spec fn mock_header(proposed: ProposedEthHeader, n: nat) -> HeaderView {
    HeaderView {
        number: proposed.number,
        gas_limit: proposed.gas_limit,
        gas_used: (n * MOCK_GAS_PER_TX) as u64,
        timestamp: proposed.timestamp,
        beneficiary: proposed.beneficiary,
        difficulty: U256::spec_from_u64(proposed.difficulty),
        ommers_hash: proposed.ommers_hash,
        transactions_root: proposed.transactions_root,
        extra_data: proposed.extra_data@,
        mix_hash: proposed.mix_hash,
        nonce: proposed.nonce,
        base_fee_per_gas: Some(proposed.base_fee_per_gas),
        withdrawals_root: Some(proposed.withdrawals_root),
        blob_gas_used: Some(proposed.blob_gas_used),
        excess_blob_gas: Some(proposed.excess_blob_gas),
        parent_beacon_block_root: Some(proposed.parent_beacon_block_root),
        state_root: B256::spec_repeat(0xAA),
        receipts_root: B256::spec_repeat(0xBB),
        ..default_header()
    }
}

impl MockBlockExecutor {
    pub fn new() -> (r: Self)
        ensures
            r == MockBlockExecutor,
    {
        MockBlockExecutor
    }

    /// What is said to come of a block.
    pub fn output(&self, block: &Block) -> (r: BlockExecOutput)
        requires
            block.transactions@.len() * MOCK_GAS_PER_TX <= u64::MAX,
        ensures
            r.eth_header@ == mock_header(block.header, block.transactions@.len()),
            r.eth_block_hash == header_hash(r.eth_header@),
            r.transactions@.len() == 0,
            r.receipts@.len() == 0,
            r.bundle@ == empty_bundle(),
    {
        let proposed = &block.header;
        let eth_header = BlockHeader {
            number: proposed.number,
            gas_limit: proposed.gas_limit,
            gas_used: block.transactions.len() as u64 * MOCK_GAS_PER_TX,
            timestamp: proposed.timestamp,
            beneficiary: proposed.beneficiary,
            difficulty: U256::from_u64(proposed.difficulty),
            ommers_hash: proposed.ommers_hash,
            transactions_root: proposed.transactions_root,
            extra_data: vstd::slice::slice_to_vec(proposed.extra_data.as_slice()),
            mix_hash: proposed.mix_hash,
            nonce: proposed.nonce,
            base_fee_per_gas: Some(proposed.base_fee_per_gas),
            withdrawals_root: Some(proposed.withdrawals_root),
            blob_gas_used: Some(proposed.blob_gas_used),
            excess_blob_gas: Some(proposed.excess_blob_gas),
            parent_beacon_block_root: Some(proposed.parent_beacon_block_root),
            state_root: B256::repeat(0xAA),
            receipts_root: B256::repeat(0xBB),
            ..BlockHeader::empty()
        };
        let eth_block_hash = compute_block_hash(&eth_header);
        assert(eth_header@ =~= mock_header(block.header, block.transactions@.len()));
        BlockExecOutput {
            eth_header,
            eth_block_hash,
            transactions: Vec::new(),
            receipts: Vec::new(),
            bundle: Bundle::empty(),
        }
    }
}

impl Default for MockBlockExecutor {
    fn default() -> (r: Self)
        ensures
            r == MockBlockExecutor,
    {
        Self::new()
    }
}

/// Whether `r` is what is said to come of a block. A block with more transactions than gas can be
/// counted for is an internal error.
pub open spec fn mock_result(block: Block, r: Result<BlockExecOutput, ExecutionError>) -> bool {
    match r {
        Ok(output) => {
            &&& block.transactions@.len() * MOCK_GAS_PER_TX <= u64::MAX
            &&& output.eth_header@ == mock_header(block.header, block.transactions@.len())
            &&& output.eth_block_hash == header_hash(output.eth_header@)
            &&& output.transactions@.len() == 0
            &&& output.receipts@.len() == 0
            &&& output.bundle@ == empty_bundle()
        },
        Err(e) => block.transactions@.len() * MOCK_GAS_PER_TX > u64::MAX && e is InternalError,
    }
}

impl BlockExecutor for MockBlockExecutor {
    open spec fn runs(
        &self,
        block: Block,
        hashes: spec_fn(SeqNum) -> B256,
        before: Seq<DbOp>,
        after: Seq<DbOp>,
        r: Result<BlockExecOutput, ExecutionError>,
    ) -> bool {
        after == before && mock_result(block, r)
    }

    /// Says what comes of a block, and leaves the database as it is.
    fn execute_block<D: ExecutionDb, B: BlockHashBuffer>(
        &self,
        block: &Block,
        db: &mut D,
        block_hash_buffer: &B,
    ) -> (r: Result<BlockExecOutput, ExecutionError>)
        ensures
            *final(db) == *old(db),
            mock_result(*block, r),
    {
        assert(reached(*db, Seq::<DbOp>::empty(), *db));
        if block.transactions.len() as u128 * MOCK_GAS_PER_TX as u128 > u64::MAX as u128 {
            return Err(
                ExecutionError::InternalError(String::from_str("gas used does not fit")),
            );
        }
        Ok(self.output(block))
    }
}

/// The header that is said to come of a block has what consensus fixed of the block, and uses 21000 gas
/// for each transaction.
pub proof fn lemma_mock_header_keeps_what_was_fixed(proposed: ProposedEthHeader, n: nat)
    requires
        n * 21000 <= u64::MAX,
    ensures
        mock_header(proposed, n).number == proposed.number,
        mock_header(proposed, n).timestamp == proposed.timestamp,
        mock_header(proposed, n).gas_limit == proposed.gas_limit,
        mock_header(proposed, n).gas_used == n * 21000,
        mock_header(proposed, n).beneficiary == proposed.beneficiary,
        mock_header(proposed, n).ommers_hash == proposed.ommers_hash,
        mock_header(proposed, n).transactions_root == proposed.transactions_root,
        mock_header(proposed, n).withdrawals_root == Some(proposed.withdrawals_root),
        mock_header(proposed, n).base_fee_per_gas == Some(proposed.base_fee_per_gas),
        mock_header(proposed, n).extra_data == proposed.extra_data@,
        mock_header(proposed, n).mix_hash == proposed.mix_hash,
{
}

} // verus!
