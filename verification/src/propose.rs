//! Executing a proposed block.

use vstd::prelude::*;

use crate::block_hash::{BlockHashChain, ChainView};
use crate::bundle::{empty_bundle, Bundle};
use crate::header::{header_hash, BlockHeader};
use crate::primitives::{BlockId, SeqNum, B256};
use crate::traits::{
    gives_header, hashes_of, reached, BlockExecutor, DbOp, ExecutionDb, ExecutionError,
};
use crate::transactions::{copy_ommers, copy_txs, receipts_view, txs_view, ReceiptEnvelope};
use crate::types::{Block, BlockExecOutput, ConsensusFullBlock};
use crate::validation::{
    compute_block_hash, lemma_output_is_what_consensus_fixed, output_fault,
    validate_live_execution_outputs,
};

verus! {

/// The id of the block before the first one.
pub fn genesis_block_id() -> (r: BlockId)
    ensures
        r == BlockId(B256::spec_zero()),
{
    BlockId(B256::zero())
}

/// Checks a block by itself: block 0 is not proposed.
pub fn static_validate_consensus(block: &ConsensusFullBlock) -> (r: Result<(), ExecutionError>)
    ensures
        match r {
            Ok(()) => block.seq_num.0 != 0,
            Err(ExecutionError::ValidationError(m)) => block.seq_num.0 == 0 && m@
                == "seq_num must be > 0"@,
            Err(_) => false,
        },
{
    if block.seq_num.0 == 0 {
        return Err(ExecutionError::ValidationError(String::from_str("seq_num must be > 0")));
    }
    Ok(())
}

/// Whether `b` is the block that consensus agreed on, as it is executed.
pub open spec fn is_execution_block(block: ConsensusFullBlock, b: Block) -> bool {
    &&& b.header == block.execution_inputs
    &&& txs_view(b.transactions@) == txs_view(block.transactions@)
    &&& b.ommers@.len() == block.ommers@.len()
    &&& forall|i: int|
        0 <= i < b.ommers@.len() ==> (#[trigger] b.ommers@[i]).rlp@ == block.ommers@[i].rlp@
    &&& b.withdrawals@ == block.withdrawals@
}

/// The block that consensus agreed on, as it is executed.
pub fn execution_block(block: &ConsensusFullBlock) -> (r: Block)
    ensures
        is_execution_block(*block, r),
{
    Block {
        header: block.execution_inputs,
        transactions: copy_txs(&block.transactions),
        ommers: copy_ommers(&block.ommers),
        withdrawals: vstd::slice::slice_to_vec(block.withdrawals.as_slice()),
    }
}

/// Whether `r` and `chain_after` are what becomes of a block whose execution gave `header` and
/// `receipts`: it is proposed if the header is what consensus agreed on.
pub open spec fn finishes_proposal(
    block: ConsensusFullBlock,
    chain: ChainView,
    header: BlockHeader,
    receipts: Vec<ReceiptEnvelope>,
    chain_after: ChainView,
    r: Result<BlockExecOutput, ExecutionError>,
) -> bool {
    match r {
        Ok(output) => {
            &&& output_fault(block.execution_inputs, header) is None
            &&& output.eth_header == header
            &&& output.eth_block_hash == header_hash(header@)
            &&& txs_view(output.transactions@) == txs_view(block.transactions@)
            &&& output.receipts == receipts
            &&& output.bundle@ == empty_bundle()
            &&& chain_after == chain.propose(
                header_hash(header@),
                block.seq_num,
                block.id,
                block.parent_id,
            )
        },
        Err(e) => {
            &&& output_fault(block.execution_inputs, header) == Some(e)
            &&& chain_after == chain
        },
    }
}

/// Takes a block whose execution gave `header` and `receipts` as proposed, if the header is what
/// consensus agreed on.
pub fn finish_proposal(
    block: &ConsensusFullBlock,
    block_hash_chain: &mut BlockHashChain,
    header: BlockHeader,
    receipts: Vec<ReceiptEnvelope>,
) -> (r: Result<BlockExecOutput, ExecutionError>)
    requires
        old(block_hash_chain)@.next(block.parent_id) < u64::MAX,
    ensures
        finishes_proposal(
            *block,
            old(block_hash_chain)@,
            header,
            receipts,
            final(block_hash_chain)@,
            r,
        ),
{
    match validate_live_execution_outputs(&block.execution_inputs, &header) {
        Ok(()) => {},
        Err(e) => {
            return Err(e);
        },
    }
    let eth_block_hash = compute_block_hash(&header);
    block_hash_chain.propose(eth_block_hash, block.seq_num, block.id, block.parent_id);
    Ok(
        BlockExecOutput {
            eth_header: header,
            eth_block_hash,
            transactions: copy_txs(&block.transactions),
            receipts,
            bundle: Bundle::empty(),
        },
    )
}

/// The call that selects the parent of a block. The first block that is executed has the block
/// before the first one for its parent.
pub open spec fn parent_op(block: ConsensusFullBlock, is_first_block: bool) -> DbOp {
    DbOp::SetBlock {
        seq_num: SeqNum((block.seq_num.0 - 1) as u64),
        block_id: if is_first_block {
            BlockId(B256::spec_zero())
        } else {
            block.parent_id
        },
    }
}

/// The call that commits a block whose execution gave `output`.
pub open spec fn commit_op(block: ConsensusFullBlock, output: BlockExecOutput) -> DbOp {
    DbOp::Commit {
        block_id: block.id,
        header: output.eth_header@,
        bundle: output.bundle@,
        receipts: receipts_view(output.receipts@),
        transactions: txs_view(block.transactions@),
    }
}

/// Whether a block whose execution gave `result` is taken: it is committed, and its hash joins the
/// chain of its parent if the header that the database then has is what consensus agreed on. A
/// block that could not be executed changes nothing.
pub open spec fn takes_execution<D: ExecutionDb>(
    block: ConsensusFullBlock,
    chain: ChainView,
    db: D,
    result: Result<BlockExecOutput, ExecutionError>,
    chain_after: ChainView,
    db_after: D,
    r: Result<BlockExecOutput, ExecutionError>,
) -> bool {
    match result {
        Err(e) => {
            &&& r is Err
            &&& r->Err_0 == e
            &&& db_after == db
            &&& chain_after == chain
        },
        Ok(output) => {
            &&& db.becomes(commit_op(block, output), &db_after)
            &&& db_after.history() == db.history().push(commit_op(block, output))
            &&& exists|header: BlockHeader| #[trigger]
                gives_header(db_after, header) && finishes_proposal(
                    block,
                    chain,
                    header,
                    output.receipts,
                    chain_after,
                    r,
                )
        },
    }
}

/// Takes a block whose execution gave `result`.
pub fn take_execution<D: ExecutionDb>(
    block: &ConsensusFullBlock,
    block_hash_chain: &mut BlockHashChain,
    db: &mut D,
    result: Result<BlockExecOutput, ExecutionError>,
) -> (r: Result<BlockExecOutput, ExecutionError>)
    requires
        old(db).wf(),
        old(block_hash_chain)@.next(block.parent_id) < u64::MAX,
    ensures
        final(db).wf(),
        takes_execution(
            *block,
            old(block_hash_chain)@,
            *old(db),
            result,
            final(block_hash_chain)@,
            *final(db),
            r,
        ),
{
    match result {
        Ok(output) => {
            let BlockExecOutput {
                eth_header,
                eth_block_hash: _,
                transactions: _,
                receipts,
                bundle,
            } = output;
            db.commit(block.id, &eth_header, bundle, &receipts, &block.transactions);
            let header = db.read_eth_header();
            assert(gives_header(*db, header));
            finish_proposal(block, block_hash_chain, header, receipts)
        },
        Err(e) => Err(e),
    }
}

/// The hashes that a block on top of `parent_id` sees.
pub open spec fn hashes_seen(chain: ChainView, parent_id: BlockId) -> spec_fn(SeqNum) -> B256 {
    |s: SeqNum| chain.get(parent_id, s.0)
}

/// Whether executing a block on `parent`, which has its parent selected, gives `result` and leads
/// to `executed`: the executor is handed the block that consensus agreed on and the hashes that its
/// parent's chain has.
pub open spec fn executes_on<D: ExecutionDb, E: BlockExecutor>(
    executor: E,
    block: ConsensusFullBlock,
    chain: ChainView,
    parent: D,
    executed: D,
    result: Result<BlockExecOutput, ExecutionError>,
) -> bool {
    &&& exists|ops: Seq<DbOp>| #[trigger] reached(parent, ops, executed)
    &&& exists|b: Block|
        is_execution_block(block, b) && #[trigger] executor.runs(
            b,
            hashes_seen(chain, block.parent_id),
            parent.history(),
            executed.history(),
            result,
        )
}

/// Whether a block is executed on top of its parent and taken: the parent is selected first, the
/// block is executed next, and `r` is what becomes of what that gave. Block 0 is refused.
pub open spec fn proposes<D: ExecutionDb, E: BlockExecutor>(
    executor: E,
    block: ConsensusFullBlock,
    is_first_block: bool,
    chain: ChainView,
    db: D,
    chain_after: ChainView,
    db_after: D,
    r: Result<BlockExecOutput, ExecutionError>,
) -> bool {
    if block.seq_num.0 == 0 {
        &&& r is Err
        &&& r->Err_0 is ValidationError
        &&& r->Err_0->ValidationError_0@ == "seq_num must be > 0"@
        &&& db_after == db
        &&& chain_after == chain
    } else {
        let op = parent_op(block, is_first_block);
        exists|parent: D, executed: D, result: Result<BlockExecOutput, ExecutionError>|
            #![trigger executes_on(executor, block, chain, parent, executed, result)]
            {
                &&& db.becomes(op, &parent)
                &&& parent.history() == db.history().push(op)
                &&& executes_on(executor, block, chain, parent, executed, result)
                &&& takes_execution(block, chain, executed, result, chain_after, db_after, r)
            }
    }
}

/// Executes a block on top of its parent and commits it. Its hash joins the chain of its parent
/// once the header that the database then has is what consensus agreed on.
pub fn propose_block<D: ExecutionDb, E: BlockExecutor>(
    block: &ConsensusFullBlock,
    block_hash_chain: &mut BlockHashChain,
    db: &mut D,
    executor: &E,
    is_first_block: bool,
) -> (r: Result<BlockExecOutput, ExecutionError>)
    requires
        old(db).wf(),
        old(block_hash_chain)@.next(block.parent_id) < u64::MAX,
    ensures
        final(db).wf(),
        proposes(
            *executor,
            *block,
            is_first_block,
            old(block_hash_chain)@,
            *old(db),
            final(block_hash_chain)@,
            *final(db),
            r,
        ),
{
    match static_validate_consensus(block) {
        Ok(()) => {},
        Err(e) => {
            return Err(e);
        },
    }
    let parent_block_id = if is_first_block {
        genesis_block_id()
    } else {
        block.parent_id
    };
    db.set_block_and_prefix(SeqNum(block.seq_num.0 - 1), parent_block_id);
    let ghost parent = *db;
    let eth_block = execution_block(block);
    let result = {
        let block_hash_buffer = block_hash_chain.find_chain(&block.parent_id);
        assert(hashes_of(block_hash_buffer) =~= hashes_seen(block_hash_chain@, block.parent_id));
        executor.execute_block(&eth_block, db, &block_hash_buffer)
    };
    assert(executes_on(*executor, *block, block_hash_chain@, parent, *db, result));
    take_execution(block, block_hash_chain, db, result)
}

/// Whatever becomes of a block that can be proposed, its parent is selected before it is executed:
/// the block one below it, under the id of its parent; for the first block, under the id of the block
/// before the first one.
pub proof fn lemma_parent_is_selected_first<D: ExecutionDb, E: BlockExecutor>(
    executor: E,
    block: ConsensusFullBlock,
    is_first_block: bool,
    chain: ChainView,
    db: D,
    chain_after: ChainView,
    db_after: D,
    r: Result<BlockExecOutput, ExecutionError>,
)
    requires
        block.seq_num.0 > 0,
        proposes(executor, block, is_first_block, chain, db, chain_after, db_after, r),
    ensures
        exists|parent: D, op: DbOp|
            {
                &&& #[trigger] db.becomes(op, &parent)
                &&& op is SetBlock
                &&& op->SetBlock_seq_num.0 + 1 == block.seq_num.0
                &&& !is_first_block ==> op->SetBlock_block_id == block.parent_id
                &&& is_first_block ==> op->SetBlock_block_id == BlockId(B256::spec_zero())
            },
{
    let (parent, executed, result) = choose|
        parent: D,
        executed: D,
        result: Result<BlockExecOutput, ExecutionError>,
    |
        #![trigger executes_on(executor, block, chain, parent, executed, result)]
        {
            &&& db.becomes(parent_op(block, is_first_block), &parent)
            &&& executes_on(executor, block, chain, parent, executed, result)
        };
    assert(db.becomes(parent_op(block, is_first_block), &parent));
}

/// A block that is proposed was executed as consensus agreed on it and committed under its id, with
/// the header, the change of state and the receipts that execution gave and the transactions of the
/// block. What is handed back is the header that the database then has, its hash, and the receipts;
/// the hash joins the chain under the id of the block, on top of its parent.
pub proof fn lemma_proposed_block_is_committed<D: ExecutionDb, E: BlockExecutor>(
    executor: E,
    block: ConsensusFullBlock,
    is_first_block: bool,
    chain: ChainView,
    db: D,
    chain_after: ChainView,
    db_after: D,
    out: BlockExecOutput,
)
    requires
        proposes(
            executor,
            block,
            is_first_block,
            chain,
            db,
            chain_after,
            db_after,
            Ok::<BlockExecOutput, ExecutionError>(out),
        ),
    ensures
        block.seq_num.0 > 0,
        gives_header(db_after, out.eth_header),
        out.eth_block_hash == header_hash(out.eth_header@),
        txs_view(out.transactions@) == txs_view(block.transactions@),
        out.eth_header.ommers_hash == block.execution_inputs.ommers_hash,
        out.eth_header.transactions_root == block.execution_inputs.transactions_root,
        out.eth_header.withdrawals_root == Some(block.execution_inputs.withdrawals_root),
        out.eth_header.gas_used <= out.eth_header.gas_limit,
        exists|executed: D, op: DbOp|
            {
                &&& #[trigger] executed.becomes(op, &db_after)
                &&& op is Commit
                &&& op->Commit_block_id == block.id
                &&& op->Commit_receipts == receipts_view(out.receipts@)
                &&& op->Commit_transactions == txs_view(block.transactions@)
                &&& db_after.history() == executed.history().push(op)
            },
        chain_after.finalized == chain.finalized,
        chain_after.proposals.len() == chain.proposals.len() + 1,
        chain_after.proposals.last().block_id == block.id,
        chain_after.proposals.last().parent_id == block.parent_id,
        chain_after.proposals.last().seq_num == block.seq_num,
        chain_after.proposals.last().buf.hashes.last() == header_hash(out.eth_header@),
{
    let r = Ok::<BlockExecOutput, ExecutionError>(out);
    let (parent, executed, result) = choose|
        parent: D,
        executed: D,
        result: Result<BlockExecOutput, ExecutionError>,
    |
        #![trigger executes_on(executor, block, chain, parent, executed, result)]
        {
            &&& executes_on(executor, block, chain, parent, executed, result)
            &&& takes_execution(block, chain, executed, result, chain_after, db_after, r)
        };
    let given = result->Ok_0;
    let header = choose|header: BlockHeader| #[trigger]
        gives_header(db_after, header) && finishes_proposal(
            block,
            chain,
            header,
            given.receipts,
            chain_after,
            r,
        );
    assert(executed.becomes(commit_op(block, given), &db_after));
    lemma_output_is_what_consensus_fixed(block.execution_inputs, header);
}

/// What execution gave is what is committed: its header and its change of state.
pub proof fn lemma_commit_takes_what_execution_gave(
    block: ConsensusFullBlock,
    output: BlockExecOutput,
)
    ensures
        commit_op(block, output) is Commit,
        commit_op(block, output)->Commit_block_id == block.id,
        commit_op(block, output)->Commit_header == output.eth_header@,
        commit_op(block, output)->Commit_bundle == output.bundle@,
        commit_op(block, output)->Commit_receipts == receipts_view(output.receipts@),
        commit_op(block, output)->Commit_transactions == txs_view(block.transactions@),
{
}

/// A block whose execution fails is not committed, and its hash joins no chain; the error is the one
/// that execution gave.
pub proof fn lemma_failed_execution_is_not_taken<D: ExecutionDb>(
    block: ConsensusFullBlock,
    chain: ChainView,
    db: D,
    e: ExecutionError,
    chain_after: ChainView,
    db_after: D,
    r: Result<BlockExecOutput, ExecutionError>,
)
    requires
        takes_execution(
            block,
            chain,
            db,
            Err::<BlockExecOutput, ExecutionError>(e),
            chain_after,
            db_after,
            r,
        ),
    ensures
        r == Err::<BlockExecOutput, ExecutionError>(e),
        db_after == db,
        chain_after == chain,
{
}

/// A block is executed with the transactions that consensus agreed on, and sees the hashes of its
/// parent's chain.
pub proof fn lemma_block_is_executed_as_agreed<D: ExecutionDb, E: BlockExecutor>(
    executor: E,
    block: ConsensusFullBlock,
    chain: ChainView,
    parent: D,
    executed: D,
    result: Result<BlockExecOutput, ExecutionError>,
) -> (b: Block)
    requires
        executes_on(executor, block, chain, parent, executed, result),
    ensures
        b.header == block.execution_inputs,
        txs_view(b.transactions@) == txs_view(block.transactions@),
        b.withdrawals@ == block.withdrawals@,
        b.ommers@.len() == block.ommers@.len(),
        exists|hashes: spec_fn(SeqNum) -> B256|
            {
                &&& #[trigger] executor.runs(
                    b,
                    hashes,
                    parent.history(),
                    executed.history(),
                    result,
                )
                &&& forall|s: SeqNum| #[trigger] hashes(s) == chain.get(block.parent_id, s.0)
            },
{
    let b = choose|b: Block|
        is_execution_block(block, b) && #[trigger] executor.runs(
            b,
            hashes_seen(chain, block.parent_id),
            parent.history(),
            executed.history(),
            result,
        );
    assert(executor.runs(
        b,
        hashes_seen(chain, block.parent_id),
        parent.history(),
        executed.history(),
        result,
    ));
    b
}

} // verus!
