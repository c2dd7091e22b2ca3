//! What an engine on a database in memory, with an executor that executes nothing, tells of a block
//! and loads when it starts.

use vstd::prelude::*;

use crate::block_hash::{
    header_read, headers_read, lemma_has_all_slots, lemma_loaded_hashes_are_read, load_op,
    load_start, loaded_hash, BlockHashBufferFinalized, ChainView,
};
use crate::command::ExecutionCommand;
use crate::events::{events_view, EventView, ExecutionEvent};
use crate::header::{default_header, header_hash, BlockHeader, HeaderView};
use crate::keymap::BlockKey;
use crate::mock::db::{InMemoryExecutionDb, MemoryView};
use crate::mock::executor::{mock_header, MockBlockExecutor, MOCK_GAS_PER_TX};
use crate::primitives::{BlockId, SeqNum, B256};
use crate::propose::{
    commit_op, executes_on, finishes_proposal, hashes_seen, is_execution_block, parent_op, proposes,
    takes_execution,
};
use crate::runloop::{
    after_execution, all_finalization_events, executions, finalization_events, finalization_ops,
    finalizations, is_voted, proposal_told, proposed_op, results_match, vote_told, vouched,
    BatchOutcome, ExecuteStatus, Finalization, RunLoop, RunStatus, ToExecute,
};
use crate::traits::{
    gives_header, lemma_reached_is_recorded, reached, BlockExecutor, DbOp, ExecutionDb,
    ExecutionError,
};
use crate::transactions::{receipts_view, txs_view};
use crate::types::{Block, BlockExecOutput, ConsensusFullBlock};

verus! {

/// Whether a block is one that can be executed: its number is that of its header, and the gas of
/// its transactions is within its limit.
pub open spec fn is_executable(block: ConsensusFullBlock) -> bool {
    &&& block.seq_num.0 > 0
    &&& block.execution_inputs.number == block.seq_num.0
    &&& block.transactions@.len() * MOCK_GAS_PER_TX <= block.execution_inputs.gas_limit
}

/// The block that was executed, as the database knows it.
pub open spec fn key_of(block: ConsensusFullBlock) -> BlockKey {
    BlockKey { seq: block.seq_num, id: block.id }
}

/// What is told of a block that is executed.
pub open spec fn told_of(block: ConsensusFullBlock) -> EventView {
    let header = mock_header(block.execution_inputs, block.transactions@.len());
    EventView::Proposed {
        seq_num: block.seq_num,
        block_id: block.id,
        parent_id: block.parent_id,
        header,
        transactions: txs_view(block.transactions@),
        receipts: Seq::empty(),
        eth_block_hash: header_hash(header),
    }
}

/// The hashes once a block is executed.
pub open spec fn chain_with(chain: ChainView, block: ConsensusFullBlock) -> ChainView {
    chain.propose(
        header_hash(mock_header(block.execution_inputs, block.transactions@.len())),
        block.seq_num,
        block.id,
        block.parent_id,
    )
}

proof fn lemma_proposal(
    block: ConsensusFullBlock,
    is_first: bool,
    chain: ChainView,
    db: InMemoryExecutionDb,
    chain_after: ChainView,
    db_after: InMemoryExecutionDb,
    r: Result<BlockExecOutput, ExecutionError>,
)
    requires
        is_executable(block),
        proposes(MockBlockExecutor, block, is_first, chain, db, chain_after, db_after, r),
    ensures
        r is Ok,
        r->Ok_0.eth_header@ == mock_header(block.execution_inputs, block.transactions@.len()),
        r->Ok_0.eth_block_hash == header_hash(r->Ok_0.eth_header@),
        txs_view(r->Ok_0.transactions@) == txs_view(block.transactions@),
        r->Ok_0.receipts@.len() == 0,
        chain_after == chain_with(chain, block),
        db_after@.executed_blocks == db@.executed_blocks.insert(key_of(block)),
{
    let executor = MockBlockExecutor;
    let op = parent_op(block, is_first);
    let (parent, executed, result) = choose|
        parent: InMemoryExecutionDb,
        executed: InMemoryExecutionDb,
        result: Result<BlockExecOutput, ExecutionError>,
    |
        #![trigger executes_on(executor, block, chain, parent, executed, result)]
        {
            &&& db.becomes(op, &parent)
            &&& executes_on(executor, block, chain, parent, executed, result)
            &&& takes_execution(block, chain, executed, result, chain_after, db_after, r)
        };
    let b = choose|b: Block|
        is_execution_block(block, b) && #[trigger] executor.runs(
            b,
            hashes_seen(chain, block.parent_id),
            parent.history(),
            executed.history(),
            result,
        );
    assert(txs_view(b.transactions@).len() == b.transactions@.len());
    assert(txs_view(block.transactions@).len() == block.transactions@.len());
    let ops = choose|ops: Seq<DbOp>| #[trigger] reached(parent, ops, executed);
    lemma_reached_is_recorded(parent, ops, executed);
    assert(ops.len() == 0) by {
        assert((parent.history() + ops).len() == parent.history().len() + ops.len());
    }
    assert(executed == parent);
    assert(result is Ok);
    let output = result->Ok_0;
    assert(executed.becomes(commit_op(block, output), &db_after));
    let header = choose|header: BlockHeader| #[trigger]
        gives_header(db_after, header) && finishes_proposal(
            block,
            chain,
            header,
            output.receipts,
            chain_after,
            r,
        );
    assert(header@ == output.eth_header@);

}

/// A block that can be executed, was not, and vouches for nothing that its chain does not have is
/// executed, and that is told, after the vote for its parent. Its hash joins the chain of its parent,
/// and the database knows that it was executed.
pub proof fn lemma_executable_block_is_proposed(
    s: RunLoop<InMemoryExecutionDb, MockBlockExecutor>,
    block: ConsensusFullBlock,
    t: RunLoop<InMemoryExecutionDb, MockBlockExecutor>,
    r: BatchOutcome,
)
    requires
        is_executable(block),
        !s.db@.executed_blocks.contains(key_of(block)),
        results_match(block, s.block_hash_chain@),
        s.block_hash_chain@.next(block.parent_id) < u64::MAX,
        RunLoop::ran(s, seq![ExecutionCommand::Propose { block_id: block.id, block }], t, r),
    ensures
        r.status is Running,
        events_view(r.events@) == events_view(vote_told(block, s.last_finalized_seq_num)).push(
            told_of(block),
        ),
        t.db@.executed_blocks == s.db@.executed_blocks.insert(key_of(block)),
        t.block_hash_chain@ == chain_with(s.block_hash_chain@, block),
        t.last_finalized_seq_num == s.last_finalized_seq_num,
        t.start_seq_num == s.start_seq_num,
{
    let cmds = seq![ExecutionCommand::Propose { block_id: block.id, block }];
    let item = ToExecute { block_id: block.id, block };
    let (executed, mid, told, status, m) = choose|
        executed: Seq<bool>,
        mid: RunLoop<InMemoryExecutionDb, MockBlockExecutor>,
        told: Seq<ExecutionEvent>,
        status: RunStatus,
        m: int,
    | #[trigger]
        RunLoop::runs(s, cmds, executed, mid, told, status, m, t, r);
    assert(cmds[0] is Propose);
    assert(!executed[0]);
    assert(cmds.drop_last().len() == 0);
    assert(executed.last() == executed[0]);
    assert(executions(cmds.drop_last(), executed.drop_last()).len() == 0);
    assert(executions(cmds, executed) =~= seq![item]);
    assert(finalizations(cmds.drop_last()).len() == 0);
    assert(finalizations(cmds).len() == 0);
    lemma_one_execution(s, item, mid, told, status);
    assert(finalizations(cmds).take(m).len() == 0);
    assert(t == mid);
    assert(events_view(r.events@) =~= events_view(told));
}

/// Executing one block that can be executed tells of it.
proof fn lemma_one_execution(
    s: RunLoop<InMemoryExecutionDb, MockBlockExecutor>,
    item: ToExecute,
    t: RunLoop<InMemoryExecutionDb, MockBlockExecutor>,
    told: Seq<ExecutionEvent>,
    status: RunStatus,
)
    requires
        is_executable(item.block),
        item.block_id == item.block.id,
        results_match(item.block, s.block_hash_chain@),
        s.block_hash_chain@.next(item.block.parent_id) < u64::MAX,
        RunLoop::executes_all(s, seq![item], t, told, status),
    ensures
        status is Running,
        events_view(told) == events_view(
            vote_told(item.block, s.last_finalized_seq_num),
        ).push(told_of(item.block)),
        t.db@.executed_blocks == s.db@.executed_blocks.insert(key_of(item.block)),
        t.block_hash_chain@ == chain_with(s.block_hash_chain@, item.block),
        t.last_finalized_seq_num == s.last_finalized_seq_num,
        t.start_seq_num == s.start_seq_num,
{
    let items = seq![item];
    let block = item.block;
    let (start, told_start, start_status, last, r) = choose|
        start: RunLoop<InMemoryExecutionDb, MockBlockExecutor>,
        told_start: Seq<ExecutionEvent>,
        start_status: RunStatus,
        last: Seq<ExecutionEvent>,
        r: ExecuteStatus,
    |
        #![trigger RunLoop::continues(start, told_start, start_status, last, r)]
        {
            &&& RunLoop::continues(start, told_start, start_status, last, r)
            &&& RunLoop::executes_all(s, items.drop_last(), start, told_start, start_status)
            &&& if start_status is Running {
                &&& RunLoop::executes(start, items.last(), t, last, r)
                &&& told == told_start + last
                &&& status == after_execution(r)
            } else {
                t == start && told == told_start && status == start_status
            }
        };
    assert(items.drop_last().len() == 0);
    assert(start == s && start_status is Running);
    assert(told =~= last);
    assert(RunLoop::executes(s, item, t, told, r));
    let chain = s.block_hash_chain@;
    let is_first = block.seq_num == s.start_seq_num;
    let votes = vote_told(block, s.last_finalized_seq_num);
    assert(s.executor == MockBlockExecutor);
    match r {
        ExecuteStatus::Skipped | ExecuteStatus::OutOfTurn => {},
        ExecuteStatus::Failed(e) => {
            let voted = choose|voted: InMemoryExecutionDb| #[trigger]
                is_voted(s.db, block, voted) && exists|out: Result<BlockExecOutput, ExecutionError>|
                    #[trigger] proposes(
                        s.executor,
                        block,
                        is_first,
                        chain,
                        voted,
                        t.block_hash_chain@,
                        t.db,
                        out,
                    ) && out is Err && out->Err_0 == e;
            let out = choose|out: Result<BlockExecOutput, ExecutionError>|
                #[trigger] proposes(
                    s.executor,
                    block,
                    is_first,
                    chain,
                    voted,
                    t.block_hash_chain@,
                    t.db,
                    out,
                ) && out is Err && out->Err_0 == e;
            lemma_proposal(block, is_first, chain, voted, t.block_hash_chain@, t.db, out);
        },
        ExecuteStatus::Proposed => {
            let voted = choose|voted: InMemoryExecutionDb| #[trigger]
                is_voted(s.db, block, voted) && exists|
                    proposed: InMemoryExecutionDb,
                    out: Result<BlockExecOutput, ExecutionError>,
                |
                    #[trigger] proposes(
                        s.executor,
                        block,
                        is_first,
                        chain,
                        voted,
                        t.block_hash_chain@,
                        proposed,
                        out,
                    ) && out is Ok && told == votes.push(proposal_told(item, out->Ok_0))
                        && proposed.becomes(proposed_op(item), &t.db);
            let (proposed, out) = choose|
                proposed: InMemoryExecutionDb,
                out: Result<BlockExecOutput, ExecutionError>,
            |
                #[trigger] proposes(
                    s.executor,
                    block,
                    is_first,
                    chain,
                    voted,
                    t.block_hash_chain@,
                    proposed,
                    out,
                ) && out is Ok && told == votes.push(proposal_told(item, out->Ok_0))
                    && proposed.becomes(proposed_op(item), &t.db);
            lemma_proposal(block, is_first, chain, voted, t.block_hash_chain@, proposed, out);
            let output = out->Ok_0;
            assert(receipts_view(output.receipts@) =~= Seq::empty());
            assert(proposal_told(item, output)@ == told_of(block));
            assert(events_view(told) =~= events_view(votes).push(told_of(block)));
        },
    }
}

/// A block that was executed is not executed again when it is finalized: what is told is that it is
/// final, and which block counts as verified.
pub proof fn lemma_executed_block_is_finalized(
    s: RunLoop<InMemoryExecutionDb, MockBlockExecutor>,
    seq_num: SeqNum,
    block_id: BlockId,
    block: ConsensusFullBlock,
    t: RunLoop<InMemoryExecutionDb, MockBlockExecutor>,
    r: BatchOutcome,
)
    requires
        s.db@.executed_blocks.contains(BlockKey { seq: seq_num, id: block_id }),
        s.block_hash_chain@.finalizable(block_id),
        s.block_hash_chain@.finalized.n < u64::MAX,
        RunLoop::ran(s, seq![ExecutionCommand::Finalize { seq_num, block_id, block }], t, r),
    ensures
        r.status is Running,
        events_view(r.events@) == finalization_events(
            seq_num,
            block_id,
            vouched(block.execution_results@),
        ),
        reached(
            s.db,
            finalization_ops(seq_num, block_id, vouched(block.execution_results@)),
            t.db,
        ),
        t.block_hash_chain@ == s.block_hash_chain@.finalize(block_id),
        t.last_finalized_seq_num == seq_num,
{
    let cmds = seq![ExecutionCommand::Finalize { seq_num, block_id, block }];
    let (executed, mid, told, status, m) = choose|
        executed: Seq<bool>,
        mid: RunLoop<InMemoryExecutionDb, MockBlockExecutor>,
        told: Seq<ExecutionEvent>,
        status: RunStatus,
        m: int,
    | #[trigger]
        RunLoop::runs(s, cmds, executed, mid, told, status, m, t, r);
    let item = Finalization { seq_num, block_id, verified_blocks: vouched(block.execution_results@) };
    assert(cmds[0] is Finalize);
    assert(executed[0]);
    assert(cmds.drop_last().len() == 0);
    assert(executed.last() == executed[0]);
    assert(executions(cmds.drop_last(), executed.drop_last()).len() == 0);
    assert(executions(cmds, executed).len() == 0);
    assert(mid == s && status is Running && told.len() == 0);
    assert(finalizations(cmds.drop_last()).len() == 0);
    let fins = finalizations(cmds);
    assert(fins =~= seq![item]);
    if m == 0 {
        assert(fins.take(0).len() == 0);
        assert(t == s);
        assert(RunLoop::finalizable(s, item));
        assert(false);
    }
    let all = fins.take(1);
    assert(all =~= fins);
    assert(all.drop_last().len() == 0);
    assert(all.last() == item);
    let from = choose|from: RunLoop<InMemoryExecutionDb, MockBlockExecutor>|
        #![trigger RunLoop::finalizes(from, all.last(), t)]
        RunLoop::finalizes_all(s, all.drop_last(), from) && RunLoop::finalizes(
            from,
            all.last(),
            t,
        );
    assert(from == s);
    assert(all_finalization_events(all.drop_last()).len() == 0);
    assert(events_view(r.events@) =~= finalization_events(
        seq_num,
        block_id,
        vouched(block.execution_results@),
    ));
}

/// A block on top of the finalized ones that is proposed and then finalized is told of as proposed,
/// as finalized and as verified, in this order, and is executed once. (The vote for its parent is
/// told first, unless the parent is final.)
pub proof fn lemma_proposed_block_is_finalized(
    s: RunLoop<InMemoryExecutionDb, MockBlockExecutor>,
    block: ConsensusFullBlock,
    mid: RunLoop<InMemoryExecutionDb, MockBlockExecutor>,
    r: BatchOutcome,
    t: RunLoop<InMemoryExecutionDb, MockBlockExecutor>,
    r2: BatchOutcome,
)
    requires
        is_executable(block),
        !s.db@.executed_blocks.contains(key_of(block)),
        results_match(block, s.block_hash_chain@),
        s.block_hash_chain@.proposals.len() == 0,
        s.block_hash_chain@.finalized.n < u64::MAX,
        RunLoop::ran(s, seq![ExecutionCommand::Propose { block_id: block.id, block }], mid, r),
        RunLoop::ran(
            mid,
            seq![
                ExecutionCommand::Finalize { seq_num: block.seq_num, block_id: block.id, block },
            ],
            t,
            r2,
        ),
    ensures
        r.status is Running,
        r2.status is Running,
        events_view(r.events@) + events_view(r2.events@) == events_view(
            vote_told(block, s.last_finalized_seq_num),
        ).push(told_of(block)) + finalization_events(
            block.seq_num,
            block.id,
            vouched(block.execution_results@),
        ),
        t.last_finalized_seq_num == block.seq_num,
{
    let chain = s.block_hash_chain@;
    assert(chain.position(block.parent_id) is None);
    lemma_executable_block_is_proposed(s, block, mid, r);
    let after = chain_with(chain, block);
    assert(after.proposals.len() == 1);
    assert(after.proposals[0].block_id == block.id);
    assert(after.position(block.id) == Some(0int));
    lemma_executed_block_is_finalized(mid, block.seq_num, block.id, block, t, r2);
}

/// The header that a database in memory gives for a block that is selected.
pub open spec fn header_in(v: MemoryView, s: u64) -> HeaderView {
    if v.headers.contains_key(SeqNum(s)) {
        v.headers[SeqNum(s)]
    } else {
        default_header()
    }
}

/// The headers that are read from a database in memory are those that it holds, and reading them
/// changes nothing but the block that is selected.
pub proof fn lemma_headers_are_those_held(
    db: InMemoryExecutionDb,
    from: u64,
    headers: Seq<HeaderView>,
    after: InMemoryExecutionDb,
)
    requires
        from + headers.len() <= u64::MAX,
        headers_read(db, from, headers, after),
    ensures
        after@ == (MemoryView { current: after@.current, ..db@ }),
        forall|i: int|
            0 <= i < headers.len() ==> #[trigger] headers[i] == header_in(db@, (from + i) as u64),
    decreases headers.len(),
{
    if headers.len() > 0 {
        let before = headers.drop_last();
        let last = (from + headers.len() - 1) as u64;
        let mid = choose|mid: InMemoryExecutionDb|
            headers_read(db, from, before, mid) && #[trigger] mid.becomes(load_op(last), &after)
                && header_read(after, headers.last());
        lemma_headers_are_those_held(db, from, before, mid);
        let h = choose|h: BlockHeader| #[trigger]
            gives_header(after, h) && h@ == headers.last();
        assert(headers.last() == header_in(db@, last));
        assert forall|i: int| 0 <= i < headers.len() implies #[trigger] headers[i] == header_in(
            db@,
            (from + i) as u64,
        ) by {
            if i < before.len() {
                assert(headers[i] == before[i]);
            }
        }
    }
}

/// Hashes that are loaded from a database in memory are those of the headers that it holds, for the
/// latest 256 blocks before `seq_num`; a block without a header of its own, and every other block,
/// has none.
pub proof fn lemma_hashes_are_those_held(
    before: BlockHashBufferFinalized,
    db: InMemoryExecutionDb,
    seq_num: SeqNum,
    headers: Seq<HeaderView>,
    after: InMemoryExecutionDb,
    s: u64,
)
    requires
        headers.len() == seq_num.0 - load_start(seq_num.0),
        headers_read(db, load_start(seq_num.0), headers, after),
    ensures
        before@.load(load_start(seq_num.0), headers).n == seq_num.0,
        before@.load(load_start(seq_num.0), headers).get(s) == if s < seq_num.0 && s + 256
            >= seq_num.0 {
            loaded_hash(s, header_in(db@, s))
        } else {
            B256::spec_zero()
        },
{
    let from = load_start(seq_num.0);
    lemma_has_all_slots(before);
    lemma_headers_are_those_held(db, from, headers, after);
    lemma_loaded_hashes_are_read(before@, from, headers, s);
    if from <= s < seq_num.0 {
        assert(headers[s - from] == header_in(db@, (from + (s - from)) as u64));
    }
}

} // verus!
