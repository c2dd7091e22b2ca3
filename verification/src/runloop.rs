//! The engine's loop: which blocks are executed and finalized, and what is told about them.

use std::collections::VecDeque;

use vstd::prelude::*;

use crate::block_hash::{
    headers_read, lemma_loaded_hashes_are_read, load_ops, load_start,
    BlockHashBufferFinalized, BlockHashChain, ChainView, FinalizedHashes,
};
use crate::command::ExecutionCommand;
use crate::events::{events_view, EventView, ExecutionEvent};
use crate::header::{header_hash, BlockHeader, HeaderView};
use crate::primitives::{BlockId, SeqNum, B256, INVALID_BLOCK_NUM};
use crate::propose::{lemma_parent_is_selected_first, propose_block, proposes};
use crate::traits::{
    lemma_reached_is_recorded, reached, BlockExecutor, DbOp, ExecutionDb, ExecutionError,
};
use crate::transactions::txs_view;
use crate::types::{BlockExecOutput, ConsensusFullBlock};
use crate::validation::validate_delayed_execution_results;

verus! {

/// A block that has to be executed.
pub struct ToExecute {
    pub block_id: BlockId,
    pub block: ConsensusFullBlock,
}

/// A block that has to be finalized, and the blocks that it vouches for.
pub struct ToFinalize {
    pub seq_num: SeqNum,
    pub block_id: BlockId,
    pub verified_blocks: Vec<SeqNum>,
}

/// The engine between two batches of commands.
pub struct RunLoop<D: ExecutionDb, E: BlockExecutor> {
    pub db: D,
    pub executor: E,
    pub block_hash_chain: BlockHashChain,
    pub start_seq_num: SeqNum,
    pub last_finalized_seq_num: SeqNum,
}

/// How a batch of commands ended.
pub enum RunStatus {
    /// The next batch can come.
    Running,
    /// The engine was asked to stop.
    ShutDown,
    /// A block could not be executed; the engine stops.
    Failed(ExecutionError),
    /// A block was finalized out of turn, or block numbers ran out; the engine cannot go on.
    OutOfTurn,
}

/// What is told of a batch of commands, and how it ended.
pub struct BatchOutcome {
    pub events: Vec<ExecutionEvent>,
    pub status: RunStatus,
}

/// The numbers of the blocks that a block vouches for.
pub open spec fn vouched(results: Seq<BlockHeader>) -> Seq<SeqNum> {
    results.map_values(|h: BlockHeader| SeqNum(h.number))
}

fn vouched_for(results: &Vec<BlockHeader>) -> (r: Vec<SeqNum>)
    ensures
        r@ == vouched(results@),
{
    let mut r: Vec<SeqNum> = Vec::new();
    let mut i: usize = 0;
    while i < results.len()
        invariant
            i <= results@.len(),
            r@ == vouched(results@).take(i as int),
        decreases results@.len() - i,
    {
        r.push(SeqNum(results[i].number));
        assert(r@ =~= vouched(results@).take(i + 1));
        i = i + 1;
    }
    assert(vouched(results@).take(i as int) =~= vouched(results@));
    r
}

/// The block whose execution counts as verified once a block is finalized: the last one that it
/// vouches for, and itself if it vouches for none.
pub open spec fn verified_by(seq_num: SeqNum, verified_blocks: Seq<SeqNum>) -> Option<SeqNum> {
    let last = if verified_blocks.len() == 0 {
        seq_num
    } else {
        verified_blocks.last()
    };
    if last.0 == INVALID_BLOCK_NUM {
        None
    } else {
        Some(last)
    }
}

/// What is told when a block is finalized.
pub open spec fn finalization_events(
    seq_num: SeqNum,
    block_id: BlockId,
    verified_blocks: Seq<SeqNum>,
) -> Seq<EventView> {
    match verified_by(seq_num, verified_blocks) {
        Some(v) => seq![
            EventView::Finalized { seq_num, block_id },
            EventView::Verified { seq_num: v },
        ],
        None => seq![EventView::Finalized { seq_num, block_id }],
    }
}

/// What is asked of the database when a block is finalized.
pub open spec fn finalization_ops(
    seq_num: SeqNum,
    block_id: BlockId,
    verified_blocks: Seq<SeqNum>,
) -> Seq<DbOp> {
    match verified_by(seq_num, verified_blocks) {
        Some(v) => seq![DbOp::Finalize { seq_num, block_id }, DbOp::Verified { seq_num: v }],
        None => seq![DbOp::Finalize { seq_num, block_id }],
    }
}

/// The block before, counting from the last number below 0.
pub open spec fn block_before(seq_num: SeqNum) -> SeqNum {
    if seq_num.0 == 0 {
        SeqNum(u64::MAX)
    } else {
        SeqNum((seq_num.0 - 1) as u64)
    }
}

/// What is told about the vote for the parent of a block that is executed: nothing if the parent is
/// final already.
pub open spec fn vote_told(block: ConsensusFullBlock, last_finalized: SeqNum) -> Seq<ExecutionEvent> {
    let voted = block_before(block.seq_num);
    if voted.0 > last_finalized.0 && voted.0 != INVALID_BLOCK_NUM {
        seq![ExecutionEvent::BlockVoted { seq_num: voted, block_id: block.parent_id }]
    } else {
        Seq::empty()
    }
}

/// What is told about a block that was executed.
pub open spec fn proposal_told(item: ToExecute, output: BlockExecOutput) -> ExecutionEvent {
    ExecutionEvent::BlockProposed {
        seq_num: item.block.seq_num,
        block_id: item.block_id,
        parent_id: item.block.parent_id,
        header: output.eth_header,
        transactions: output.transactions,
        receipts: output.receipts,
        eth_block_hash: output.eth_block_hash,
    }
}

/// Whether `after` is a database that was told of the vote for the parent of a block.
pub open spec fn is_voted<D: ExecutionDb>(db: D, block: ConsensusFullBlock, after: D) -> bool {
    let op = DbOp::Voted { seq_num: block_before(block.seq_num), block_id: block.parent_id };
    db.becomes(op, &after) && after.history() == db.history().push(op)
}

/// The call that tells of a block that was executed.
pub open spec fn proposed_op(item: ToExecute) -> DbOp {
    DbOp::Proposed { seq_num: item.block.seq_num, block_id: item.block_id }
}

/// Whether the execution results that a block vouches for are those that its chain has.
pub open spec fn results_match(block: ConsensusFullBlock, chain: ChainView) -> bool {
    forall|i: int|
        0 <= i < block.execution_results@.len() ==> {
            let header = #[trigger] block.execution_results@[i];
            &&& header.number == block.execution_results@[0].number + i
            &&& header_hash(header@) == chain.get(block.parent_id, header.number)
        }
}

/// Sorts a command, where `executed` tells whether its block was executed before: a block is
/// executed unless it was, and finalized if the command says so.
pub fn classify_command(
    cmd: ExecutionCommand,
    executed: bool,
    to_execute: &mut VecDeque<ToExecute>,
    to_finalize: &mut VecDeque<ToFinalize>,
)
    ensures
        match cmd {
            ExecutionCommand::Propose { block_id, block } => {
                &&& final(to_finalize)@ == old(to_finalize)@
                &&& final(to_execute)@ == if executed {
                    old(to_execute)@
                } else {
                    old(to_execute)@.push(ToExecute { block_id, block })
                }
            },
            ExecutionCommand::Finalize { seq_num, block_id, block } => {
                &&& final(to_finalize)@.len() == old(to_finalize)@.len() + 1
                &&& final(to_finalize)@.drop_last() == old(to_finalize)@
                &&& final(to_finalize)@.last().seq_num == seq_num
                &&& final(to_finalize)@.last().block_id == block_id
                &&& final(to_finalize)@.last().verified_blocks@ == vouched(
                    block.execution_results@,
                )
                &&& final(to_execute)@ == if executed {
                    old(to_execute)@
                } else {
                    old(to_execute)@.push(ToExecute { block_id, block })
                }
            },
            ExecutionCommand::Shutdown => {
                &&& final(to_finalize)@ == old(to_finalize)@
                &&& final(to_execute)@ == old(to_execute)@
            },
        },
{
    match cmd {
        ExecutionCommand::Propose { block_id, block } => {
            if !executed {
                to_execute.push_back(ToExecute { block_id, block });
            }
        },
        ExecutionCommand::Finalize { seq_num, block_id, block } => {
            let verified_blocks = vouched_for(&block.execution_results);
            to_finalize.push_back(ToFinalize { seq_num, block_id, verified_blocks });
            assert(to_finalize@.drop_last() =~= old(to_finalize)@);
            if !executed {
                to_execute.push_back(ToExecute { block_id, block });
            }
        },
        ExecutionCommand::Shutdown => {},
    }
}

/// How the execution of one block ended.
pub enum ExecuteStatus {
    Proposed,
    /// What the block vouches for is not what its chain has.
    Skipped,
    Failed(ExecutionError),
    OutOfTurn,
}

impl<D: ExecutionDb, E: BlockExecutor> RunLoop<D, E> {
    /// Whether `r` is the engine on a database whose latest finalized block is `finalized_n`;
    /// `INVALID_BLOCK_NUM` stands for none. The hashes of the latest finalized blocks are read.
    pub open spec fn starts(db: D, executor: E, finalized_n: SeqNum, r: Self) -> bool {
        &&& r.executor == executor
        &&& r.start_seq_num == if finalized_n.0 == INVALID_BLOCK_NUM {
            SeqNum(0)
        } else {
            finalized_n
        }
        &&& r.last_finalized_seq_num == r.start_seq_num
        &&& r.block_hash_chain@.proposals.len() == 0
        &&& if finalized_n.0 != INVALID_BLOCK_NUM && finalized_n.0 > 0 {
            exists|headers: Seq<HeaderView>|
                headers.len() == finalized_n.0 - load_start(finalized_n.0) && headers_read(
                    db,
                    load_start(finalized_n.0),
                    headers,
                    r.db,
                ) && r.db.history() == db.history() + load_ops(
                    load_start(finalized_n.0),
                    headers.len(),
                ) && r.block_hash_chain@.finalized == #[trigger] FinalizedHashes::empty(0).load(
                    load_start(finalized_n.0),
                    headers,
                )
        } else {
            r.block_hash_chain@.finalized == FinalizedHashes::empty(0) && r.db == db
        }
    }

    /// The engine on a database whose latest finalized block is `finalized_n`;
    /// `INVALID_BLOCK_NUM` stands for none. The hashes of the latest finalized blocks are read.
    pub fn start(db: D, executor: E, finalized_n: SeqNum) -> (r: Self)
        requires
            db.wf(),
        ensures
            r.db.wf(),
            Self::starts(db, executor, finalized_n, r),
    {
        let mut db = db;
        let mut block_hash_buffer = BlockHashBufferFinalized::new();
        if finalized_n.0 != INVALID_BLOCK_NUM && finalized_n.0 > 0 {
            block_hash_buffer.init_from_db(&mut db, finalized_n);
        }
        let start_seq_num = if finalized_n.0 == INVALID_BLOCK_NUM {
            SeqNum(0)
        } else {
            finalized_n
        };
        RunLoop {
            db,
            executor,
            block_hash_chain: BlockHashChain::new(block_hash_buffer),
            start_seq_num,
            last_finalized_seq_num: start_seq_num,
        }
    }

    /// The engine on a database.
    pub fn new(db: D, executor: E) -> (r: Self)
        requires
            db.wf(),
        ensures
            r.db.wf(),
            exists|n: SeqNum| #[trigger]
                call_ensures(D::get_latest_finalized_version, (&db,), n) && Self::starts(
                    db,
                    executor,
                    n,
                    r,
                ),
    {
        let finalized_n = db.get_latest_finalized_version();
        Self::start(db, executor, finalized_n)
    }

    /// Whether executing a block leads from `s` to `t`, tells `told` and ends with `r`: its parent
    /// counts as voted for; if what the block vouches for is what its chain has, it is proposed.
    pub open spec fn executes(
        s: Self,
        item: ToExecute,
        t: Self,
        told: Seq<ExecutionEvent>,
        r: ExecuteStatus,
    ) -> bool {
        let block = item.block;
        let chain = s.block_hash_chain@;
        let votes = vote_told(block, s.last_finalized_seq_num);
        let is_first = block.seq_num == s.start_seq_num;
        &&& t.executor == s.executor
        &&& t.start_seq_num == s.start_seq_num
        &&& t.last_finalized_seq_num == s.last_finalized_seq_num
        &&& exists|voted: D| #[trigger]
            is_voted(s.db, block, voted) && match r {
                ExecuteStatus::Skipped => {
                    &&& !results_match(block, chain)
                    &&& t.db == voted
                    &&& t.block_hash_chain@ == chain
                    &&& told == votes
                },
                ExecuteStatus::OutOfTurn => {
                    &&& results_match(block, chain)
                    &&& chain.next(block.parent_id) == u64::MAX
                    &&& t.db == voted
                    &&& t.block_hash_chain@ == chain
                    &&& told == votes
                },
                ExecuteStatus::Failed(e) => {
                    &&& results_match(block, chain)
                    &&& chain.next(block.parent_id) < u64::MAX
                    &&& told == votes
                    &&& exists|out: Result<BlockExecOutput, ExecutionError>|
                        #[trigger] proposes(
                            s.executor,
                            block,
                            is_first,
                            chain,
                            voted,
                            t.block_hash_chain@,
                            t.db,
                            out,
                        ) && out is Err && out->Err_0 == e
                },
                ExecuteStatus::Proposed => {
                    &&& results_match(block, chain)
                    &&& chain.next(block.parent_id) < u64::MAX
                    &&& exists|proposed: D, out: Result<BlockExecOutput, ExecutionError>|
                        #[trigger] proposes(
                            s.executor,
                            block,
                            is_first,
                            chain,
                            voted,
                            t.block_hash_chain@,
                            proposed,
                            out,
                        ) && out is Ok && told == votes.push(proposal_told(item, out->Ok_0))
                            && proposed.becomes(proposed_op(item), &t.db) && t.db.history()
                            == proposed.history().push(proposed_op(item))
                },
            }
    }

    /// Executes one block.
    pub fn execute(&mut self, item: ToExecute, events: &mut Vec<ExecutionEvent>) -> (r: ExecuteStatus)
        requires
            old(self).db.wf(),
        ensures
            final(self).db.wf(),
            old(events)@.is_prefix_of(final(events)@),
            Self::executes(
                *old(self),
                item,
                *final(self),
                final(events)@.skip(old(events)@.len() as int),
                r,
            ),
    {
        let block = item.block;
        let seq_num = block.seq_num;
        let parent_id = block.parent_id;
        let voted_seq = SeqNum(
            if seq_num.0 == 0 {
                u64::MAX
            } else {
                seq_num.0 - 1
            },
        );
        self.db.update_voted_metadata(voted_seq, parent_id);
        let ghost voted = self.db;
        assert(is_voted(old(self).db, block, voted));
        if voted_seq.0 > self.last_finalized_seq_num.0 && voted_seq.0 != INVALID_BLOCK_NUM {
            events.push(ExecutionEvent::BlockVoted { seq_num: voted_seq, block_id: parent_id });
        }
        let ghost n = old(events)@.len() as int;
        let ghost votes = vote_told(block, old(self).last_finalized_seq_num);
        assert(events@ =~= old(events)@ + votes);
        assert(events@.skip(n) =~= votes);
        let matches = {
            let block_hash_buffer = self.block_hash_chain.find_chain(&parent_id);
            validate_delayed_execution_results(&block_hash_buffer, &block.execution_results)
        };
        if !matches {
            return ExecuteStatus::Skipped;
        }
        assert(results_match(block, self.block_hash_chain@));
        if self.block_hash_chain.next_number(&parent_id).0 == u64::MAX {
            return ExecuteStatus::OutOfTurn;
        }
        let out = propose_block(
            &block,
            &mut self.block_hash_chain,
            &mut self.db,
            &self.executor,
            seq_num == self.start_seq_num,
        );
        let ghost given = out;
        let ghost proposed = self.db;
        assert(proposes(
            self.executor,
            block,
            block.seq_num == old(self).start_seq_num,
            old(self).block_hash_chain@,
            voted,
            self.block_hash_chain@,
            proposed,
            given,
        ));
        match out {
            Ok(output) => {
                self.db.update_proposed_metadata(seq_num, item.block_id);
                events.push(
                    ExecutionEvent::BlockProposed {
                        seq_num,
                        block_id: item.block_id,
                        parent_id,
                        header: output.eth_header,
                        transactions: output.transactions,
                        receipts: output.receipts,
                        eth_block_hash: output.eth_block_hash,
                    },
                );
                proof {
                    let told = events@.skip(n);
                    assert(proposes(
                        self.executor,
                        block,
                        block.seq_num == old(self).start_seq_num,
                        old(self).block_hash_chain@,
                        voted,
                        self.block_hash_chain@,
                        proposed,
                        given,
                    ));
                    assert(told =~= votes.push(proposal_told(item, given->Ok_0)));
                    assert(proposed.becomes(proposed_op(item), &self.db));
                }
                ExecuteStatus::Proposed
            },
            Err(e) => ExecuteStatus::Failed(e),
        }
    }

    /// Whether `finalize` can be called for a block.
    pub fn can_finalize(&self, item: &ToFinalize) -> (r: bool)
        requires
            self.db.wf(),
        ensures
            r == {
                &&& self.db.finalizable(item.seq_num, item.block_id)
                &&& self.block_hash_chain@.finalizable(item.block_id)
                &&& self.block_hash_chain@.finalized.n < u64::MAX
            },
    {
        self.db.can_finalize(item.seq_num, item.block_id) && self.block_hash_chain.can_finalize(
            &item.block_id,
        ) && self.block_hash_chain.finalized().n().0 < u64::MAX
    }

    /// Finalizes one block.
    pub fn finalize(&mut self, item: ToFinalize, events: &mut Vec<ExecutionEvent>)
        requires
            old(self).db.wf(),
            old(self).db.finalizable(item.seq_num, item.block_id),
            old(self).block_hash_chain@.finalizable(item.block_id),
            old(self).block_hash_chain@.finalized.n < u64::MAX,
        ensures
            final(self).db.wf(),
            final(self).executor == old(self).executor,
            final(self).start_seq_num == old(self).start_seq_num,
            final(self).last_finalized_seq_num == item.seq_num,
            final(self).block_hash_chain@ == old(self).block_hash_chain@.finalize(item.block_id),
            reached(
                old(self).db,
                finalization_ops(item.seq_num, item.block_id, item.verified_blocks@),
                final(self).db,
            ),
            final(self).db.history() == old(self).db.history() + finalization_ops(
                item.seq_num,
                item.block_id,
                item.verified_blocks@,
            ),
            events_view(final(events)@) == events_view(old(events)@) + finalization_events(
                item.seq_num,
                item.block_id,
                item.verified_blocks@,
            ),
    {
        let ghost ops = finalization_ops(item.seq_num, item.block_id, item.verified_blocks@);
        self.db.finalize(item.seq_num, item.block_id);
        let ghost finalized = self.db;
        proof {
            let first = ops.take(1);
            assert(first.drop_last() =~= Seq::empty());
            assert(reached(old(self).db, first.drop_last(), old(self).db));
            assert(old(self).db.becomes(first.last(), &finalized));
            assert(reached(old(self).db, first, finalized));
        }
        self.block_hash_chain.finalize(item.block_id);
        self.last_finalized_seq_num = item.seq_num;
        events.push(
            ExecutionEvent::BlockFinalized { seq_num: item.seq_num, block_id: item.block_id },
        );
        let n = item.verified_blocks.len();
        let last_verified = if n == 0 {
            item.seq_num
        } else {
            item.verified_blocks[n - 1]
        };
        if last_verified.0 != INVALID_BLOCK_NUM {
            self.db.update_verified_block(last_verified);
            events.push(ExecutionEvent::BlockVerified { seq_num: last_verified });
        }
        proof {
            assert(events_view(events@) =~= events_view(old(events)@) + finalization_events(
                item.seq_num,
                item.block_id,
                item.verified_blocks@,
            ));
            if ops.len() == 2 {
                assert(ops.drop_last() =~= ops.take(1));
                assert(finalized.becomes(ops.last(), &self.db));
            } else {
                assert(ops.take(1) =~= ops);
            }
            assert(reached(old(self).db, ops, self.db));
            lemma_reached_is_recorded(old(self).db, ops, self.db);
        }
    }
}

/// A block that a batch of commands finalizes, and the blocks that it vouches for.
pub struct Finalization {
    pub seq_num: SeqNum,
    pub block_id: BlockId,
    pub verified_blocks: Seq<SeqNum>,
}

impl ToFinalize {
    pub open spec fn finalization(self) -> Finalization {
        Finalization {
            seq_num: self.seq_num,
            block_id: self.block_id,
            verified_blocks: self.verified_blocks@,
        }
    }
}

/// The blocks that a batch of commands finalizes, in order.
pub open spec fn finalizations(cmds: Seq<ExecutionCommand>) -> Seq<Finalization>
    decreases cmds.len(),
{
    if cmds.len() == 0 {
        Seq::empty()
    } else {
        let before = finalizations(cmds.drop_last());
        match cmds.last() {
            ExecutionCommand::Finalize { seq_num, block_id, block } => before.push(
                Finalization {
                    seq_num,
                    block_id,
                    verified_blocks: vouched(block.execution_results@),
                },
            ),
            _ => before,
        }
    }
}

/// What is told when blocks are finalized one after the other.
pub open spec fn all_finalization_events(items: Seq<Finalization>) -> Seq<EventView>
    decreases items.len(),
{
    if items.len() == 0 {
        Seq::empty()
    } else {
        all_finalization_events(items.drop_last()) + finalization_events(
            items.last().seq_num,
            items.last().block_id,
            items.last().verified_blocks,
        )
    }
}

/// Whether a batch of commands asks the engine to stop.
pub open spec fn asks_to_stop(cmds: Seq<ExecutionCommand>) -> bool {
    exists|i: int| 0 <= i < cmds.len() && (#[trigger] cmds[i]) is Shutdown
}

fn wants_shutdown(cmds: &VecDeque<ExecutionCommand>) -> (r: bool)
    ensures
        r == asks_to_stop(cmds@),
{
    let mut i: usize = 0;
    while i < cmds.len()
        invariant
            i <= cmds@.len(),
            forall|j: int| 0 <= j < i ==> (#[trigger] cmds@[j]) !is Shutdown,
        decreases cmds@.len() - i,
    {
        if let ExecutionCommand::Shutdown = &cmds[i] {
            assert(cmds@[i as int] is Shutdown);
            return true;
        }
        i = i + 1;
    }
    false
}

/// Whether a database answers `executed` when it is asked whether the block of a command was executed
/// before.
pub open spec fn has_answer<D: ExecutionDb>(db: &D, cmd: ExecutionCommand, executed: bool) -> bool {
    match cmd {
        ExecutionCommand::Propose { block_id, block } => call_ensures(
            D::has_executed,
            (db, &block_id, block.seq_num),
            executed,
        ),
        ExecutionCommand::Finalize { seq_num, block_id, .. } => call_ensures(
            D::has_executed,
            (db, &block_id, seq_num),
            executed,
        ),
        ExecutionCommand::Shutdown => true,
    }
}

/// Whether `executed` are answers for a batch of commands.
pub open spec fn answered<D: ExecutionDb>(
    db: &D,
    cmds: Seq<ExecutionCommand>,
    executed: Seq<bool>,
) -> bool {
    &&& executed.len() == cmds.len()
    &&& forall|i: int|
        0 <= i < executed.len() ==> has_answer(db, #[trigger] cmds[i], executed[i])
}

/// The blocks that a batch of commands executes, in order: those that were not executed before.
pub open spec fn executions(cmds: Seq<ExecutionCommand>, executed: Seq<bool>) -> Seq<ToExecute>
    decreases cmds.len(),
{
    if cmds.len() == 0 {
        Seq::empty()
    } else {
        let before = executions(cmds.drop_last(), executed.drop_last());
        match cmds.last() {
            ExecutionCommand::Propose { block_id, block } => if executed.last() {
                before
            } else {
                before.push(ToExecute { block_id, block })
            },
            ExecutionCommand::Finalize { block_id, block, .. } => if executed.last() {
                before
            } else {
                before.push(ToExecute { block_id, block })
            },
            ExecutionCommand::Shutdown => before,
        }
    }
}

/// How a batch of commands goes on after the execution of a block.
pub open spec fn after_execution(r: ExecuteStatus) -> RunStatus {
    match r {
        ExecuteStatus::Proposed | ExecuteStatus::Skipped => RunStatus::Running,
        ExecuteStatus::Failed(e) => RunStatus::Failed(e),
        ExecuteStatus::OutOfTurn => RunStatus::OutOfTurn,
    }
}

/// What a queue of blocks to be finalized says.
pub open spec fn queued(items: Seq<ToFinalize>) -> Seq<Finalization> {
    items.map_values(|i: ToFinalize| i.finalization())
}

impl<D: ExecutionDb, E: BlockExecutor> RunLoop<D, E> {
    /// Sorts a batch of commands.
    fn classify(&self, cmds: VecDeque<ExecutionCommand>) -> (r: (
        VecDeque<ToExecute>,
        VecDeque<ToFinalize>,
    ))
        ensures
            queued(r.1@) == finalizations(cmds@),
            exists|executed: Seq<bool>|
                answered(&self.db, cmds@, executed) && r.0@ == #[trigger] executions(
                    cmds@,
                    executed,
                ),
    {
        let ghost all = cmds@;
        let ghost mut answers: Seq<bool> = Seq::empty();
        let ghost mut done: int = 0;
        let mut cmds = cmds;
        let mut to_execute: VecDeque<ToExecute> = VecDeque::new();
        let mut to_finalize: VecDeque<ToFinalize> = VecDeque::new();
        assert(cmds@ =~= all.skip(0));
        assert(queued(to_finalize@) =~= finalizations(all.take(0)));
        assert(to_execute@ =~= executions(all.take(0), answers));
        loop
            invariant
                0 <= done <= all.len(),
                cmds@ == all.skip(done),
                queued(to_finalize@) == finalizations(all.take(done)),
                answered(&self.db, all.take(done), answers),
                to_execute@ == executions(all.take(done), answers),
            ensures
                queued(to_finalize@) == finalizations(all),
                answered(&self.db, all, answers),
                to_execute@ == executions(all, answers),
            decreases all.len() - done,
        {
            match cmds.pop_front() {
                None => {
                    assert(all.take(done) =~= all);
                    break;
                },
                Some(cmd) => {
                    let executed = match &cmd {
                        ExecutionCommand::Propose { block_id, block } => self.db.has_executed(
                            block_id,
                            block.seq_num,
                        ),
                        ExecutionCommand::Finalize { seq_num, block_id, .. } => self.db.has_executed(
                            block_id,
                            *seq_num,
                        ),
                        ExecutionCommand::Shutdown => true,
                    };
                    let ghost before = to_finalize@;
                    let ghost more = answers.push(executed);
                    proof {
                        assert(answered(&self.db, all.take(done + 1), more)) by {
                            assert forall|i: int| 0 <= i < more.len() implies has_answer(
                                &self.db,
                                #[trigger] all.take(done + 1)[i],
                                more[i],
                            ) by {
                                if i < done {
                                    assert(all.take(done)[i] == all.take(done + 1)[i]);
                                }
                            }
                        }
                        assert(more.drop_last() =~= answers);
                        assert(cmd == all[done]);
                        assert(cmds@ =~= all.skip(done + 1));
                        assert(all.take(done + 1).drop_last() =~= all.take(done));
                        assert(all.take(done + 1).last() == cmd);
                    }
                    classify_command(cmd, executed, &mut to_execute, &mut to_finalize);
                    proof {
                        if cmd is Finalize {
                            assert(to_finalize@ =~= before.push(to_finalize@.last()));
                            assert(queued(to_finalize@) =~= queued(before).push(
                                to_finalize@.last().finalization(),
                            ));
                        }
                        assert(queued(to_finalize@) =~= finalizations(all.take(done + 1)));
                        assert(to_execute@ =~= executions(all.take(done + 1), more));
                        answers = more;
                        done = done + 1;
                    }
                },
            }
        }
        (to_execute, to_finalize)
    }

    /// Whether executing blocks in order, up to the first one that fails, leads from `s` to `t`,
    /// tells `told` and ends with `status`.
    pub open spec fn executes_all(
        s: Self,
        items: Seq<ToExecute>,
        t: Self,
        told: Seq<ExecutionEvent>,
        status: RunStatus,
    ) -> bool
        decreases items.len(),
    {
        if items.len() == 0 {
            t == s && told.len() == 0 && status is Running
        } else {
            exists|mid: Self, told_mid: Seq<ExecutionEvent>, mid_status: RunStatus, told_last: Seq<ExecutionEvent>, r: ExecuteStatus|
                #![trigger Self::continues(mid, told_mid, mid_status, told_last, r)]
                {
                    &&& Self::continues(mid, told_mid, mid_status, told_last, r)
                    &&& Self::executes_all(s, items.drop_last(), mid, told_mid, mid_status)
                    &&& if mid_status is Running {
                        &&& Self::executes(mid, items.last(), t, told_last, r)
                        &&& told == told_mid + told_last
                        &&& status == after_execution(r)
                    } else {
                        t == mid && told == told_mid && status == mid_status
                    }
                }
        }
    }

    /// Holds of every way to go on.
    pub open spec fn continues(
        mid: Self,
        told_mid: Seq<ExecutionEvent>,
        mid_status: RunStatus,
        told_last: Seq<ExecutionEvent>,
        r: ExecuteStatus,
    ) -> bool {
        true
    }

    proof fn lemma_rest_is_left(
        s: Self,
        items: Seq<ToExecute>,
        i: int,
        t: Self,
        told: Seq<ExecutionEvent>,
        status: RunStatus,
    )
        requires
            0 <= i <= items.len(),
            Self::executes_all(s, items.take(i), t, told, status),
            !(status is Running),
        ensures
            Self::executes_all(s, items, t, told, status),
        decreases items.len() - i,
    {
        if i < items.len() {
            let more = items.take(i + 1);
            assert(more.drop_last() =~= items.take(i));
            assert(Self::continues(t, told, status, Seq::empty(), ExecuteStatus::Skipped));
            assert(Self::executes_all(s, more, t, told, status));
            Self::lemma_rest_is_left(s, items, i + 1, t, told, status);
        } else {
            assert(items.take(i) =~= items);
        }
    }

    /// Executes blocks one after the other, up to the first one that fails.
    fn execute_all(&mut self, to_execute: VecDeque<ToExecute>, events: &mut Vec<ExecutionEvent>)
        -> (r: RunStatus)
        requires
            old(self).db.wf(),
            old(events)@.len() == 0,
        ensures
            final(self).db.wf(),
            r !is ShutDown,
            Self::executes_all(*old(self), to_execute@, *final(self), final(events)@, r),
    {
        let ghost all = to_execute@;
        let ghost mut done: int = 0;
        let mut queue = to_execute;
        assert(queue@ =~= all.skip(0));
        loop
            invariant
                all == to_execute@,
                0 <= done <= all.len(),
                queue@ == all.skip(done),
                self.db.wf(),
                Self::executes_all(
                    *old(self),
                    all.take(done),
                    *self,
                    events@,
                    RunStatus::Running,
                ),
            decreases queue@.len(),
        {
            match queue.pop_front() {
                None => {
                    assert(all.take(done) =~= all);
                    return RunStatus::Running;
                },
                Some(item) => {
                    let ghost mid = *self;
                    let ghost before = events@;
                    proof {
                        assert(all[done] == item);
                        assert(queue@ =~= all.skip(done + 1));
                        assert(all.take(done + 1).drop_last() =~= all.take(done));
                        assert(all.take(done + 1).last() == item);
                    }
                    let ghost given = item;
                    let r = self.execute(item, events);
                    let ghost last = events@.skip(before.len() as int);
                    let ghost end = after_execution(r);
                    proof {
                        assert(events@ =~= before + last);
                        assert(Self::executes(mid, given, *self, last, r));
                        assert(Self::continues(mid, before, RunStatus::Running, last, r));
                        assert(Self::executes_all(
                            *old(self),
                            all.take(done + 1),
                            *self,
                            events@,
                            end,
                        ));
                        done = done + 1;
                    }
                    let status = match r {
                        ExecuteStatus::Proposed | ExecuteStatus::Skipped => RunStatus::Running,
                        ExecuteStatus::Failed(e) => RunStatus::Failed(e),
                        ExecuteStatus::OutOfTurn => RunStatus::OutOfTurn,
                    };
                    assert(status == end);
                    match status {
                        RunStatus::Running => {},
                        _ => {
                            proof {
                                Self::lemma_rest_is_left(
                                    *old(self),
                                    all,
                                    done,
                                    *self,
                                    events@,
                                    status,
                                );
                            }
                            return status;
                        },
                    }
                },
            }
        }
    }

    /// Whether a block can be finalized next.
    pub open spec fn finalizable(s: Self, item: Finalization) -> bool {
        &&& s.db.finalizable(item.seq_num, item.block_id)
        &&& s.block_hash_chain@.finalizable(item.block_id)
        &&& s.block_hash_chain@.finalized.n < u64::MAX
    }

    /// Whether finalizing a block leads from `s` to `t`.
    pub open spec fn finalizes(s: Self, item: Finalization, t: Self) -> bool {
        &&& Self::finalizable(s, item)
        &&& t.executor == s.executor
        &&& t.start_seq_num == s.start_seq_num
        &&& t.last_finalized_seq_num == item.seq_num
        &&& t.block_hash_chain@ == s.block_hash_chain@.finalize(item.block_id)
        &&& reached(
            s.db,
            finalization_ops(item.seq_num, item.block_id, item.verified_blocks),
            t.db,
        )
        &&& t.db.history() == s.db.history() + finalization_ops(
            item.seq_num,
            item.block_id,
            item.verified_blocks,
        )
    }

    /// Whether finalizing blocks in order leads from `s` to `t`.
    pub open spec fn finalizes_all(s: Self, items: Seq<Finalization>, t: Self) -> bool
        decreases items.len(),
    {
        if items.len() == 0 {
            t == s
        } else {
            exists|mid: Self|
                #![trigger Self::finalizes(mid, items.last(), t)]
                Self::finalizes_all(s, items.drop_last(), mid) && Self::finalizes(
                    mid,
                    items.last(),
                    t,
                )
        }
    }

    /// Finalizes blocks one after the other, up to the first one that is out of turn.
    fn finalize_all(
        &mut self,
        to_finalize: VecDeque<ToFinalize>,
        events: &mut Vec<ExecutionEvent>,
    ) -> (r: RunStatus)
        requires
            old(self).db.wf(),
        ensures
            final(self).db.wf(),
            exists|m: int|
                #![trigger queued(to_finalize@).take(m)]
                {
                    let items = queued(to_finalize@);
                    &&& 0 <= m <= items.len()
                    &&& Self::finalizes_all(*old(self), items.take(m), *final(self))
                    &&& events_view(final(events)@) == events_view(old(events)@)
                        + all_finalization_events(items.take(m))
                    &&& if m == items.len() {
                        r is Running
                    } else {
                        r is OutOfTurn && !Self::finalizable(*final(self), items[m])
                    }
                },
    {
        let ghost all = to_finalize@;
        let ghost items = queued(all);
        let ghost mut done: int = 0;
        let mut queue = to_finalize;
        proof {
            assert(queue@ =~= all.skip(0));
            assert(events_view(events@) =~= events_view(old(events)@) + all_finalization_events(
                items.take(0),
            ));
        }
        loop
            invariant
                all == to_finalize@,
                items == queued(all),
                0 <= done <= all.len(),
                queue@ == all.skip(done),
                self.db.wf(),
                Self::finalizes_all(*old(self), items.take(done), *self),
                events_view(events@) == events_view(old(events)@) + all_finalization_events(
                    items.take(done),
                ),
            decreases all.len() - done,
        {
            match queue.pop_front() {
                None => {
                    return RunStatus::Running;
                },
                Some(item) => {
                    assert(items[done] == item.finalization());
                    if !self.can_finalize(&item) {
                        return RunStatus::OutOfTurn;
                    }
                    let ghost mid = *self;
                    proof {
                        let more = items.take(done + 1);
                        assert(more.drop_last() =~= items.take(done));
                        assert(more.last() == item.finalization());
                        assert(queue@ =~= all.skip(done + 1));
                    }
                    self.finalize(item, events);
                    proof {
                        assert(Self::finalizes(mid, items.take(done + 1).last(), *self));
                        assert(events_view(events@) =~= events_view(old(events)@)
                            + all_finalization_events(items.take(done + 1)));
                        done = done + 1;
                    }
                },
            }
        }
    }

    /// Whether a batch of commands that does not ask the engine to stop leads from `s` to `t` and
    /// ends with `r`, where `executed` are the answers of the database: the blocks that have to be
    /// executed lead to `mid` and, unless one fails, the first `m` of those that have to be
    /// finalized lead to `t`, all of them unless the next one is out of turn.
    pub open spec fn runs(
        s: Self,
        cmds: Seq<ExecutionCommand>,
        executed: Seq<bool>,
        mid: Self,
        told: Seq<ExecutionEvent>,
        status: RunStatus,
        m: int,
        t: Self,
        r: BatchOutcome,
    ) -> bool {
        let fins = finalizations(cmds);
        &&& answered(&s.db, cmds, executed)
        &&& Self::executes_all(s, executions(cmds, executed), mid, told, status)
        &&& if status is Running {
            &&& 0 <= m <= fins.len()
            &&& Self::finalizes_all(mid, fins.take(m), t)
            &&& events_view(r.events@) == events_view(told) + all_finalization_events(fins.take(m))
            &&& if m == fins.len() {
                r.status is Running
            } else {
                r.status is OutOfTurn && !Self::finalizable(t, fins[m])
            }
        } else {
            &&& t == mid
            &&& r.events@ == told
            &&& r.status == status
        }
    }

    /// Whether a batch of commands that does not ask the engine to stop leads from `s` to `t` and
    /// ends with `r`.
    pub open spec fn ran(s: Self, cmds: Seq<ExecutionCommand>, t: Self, r: BatchOutcome) -> bool {
        exists|executed: Seq<bool>, mid: Self, told: Seq<ExecutionEvent>, status: RunStatus, m: int|
            #[trigger] Self::runs(s, cmds, executed, mid, told, status, m, t, r)
    }

    /// Works through the commands that arrived together: first the blocks that have to be executed,
    /// then those that have to be finalized. A batch that asks the engine to stop does nothing
    /// else.
    pub fn run_batch(&mut self, cmds: VecDeque<ExecutionCommand>) -> (r: BatchOutcome)
        requires
            old(self).db.wf(),
        ensures
            final(self).db.wf(),
            r.status is ShutDown <==> asks_to_stop(cmds@),
            if asks_to_stop(cmds@) {
                r.events@.len() == 0 && *final(self) == *old(self)
            } else {
                Self::ran(*old(self), cmds@, *final(self), r)
            },
    {
        let mut events: Vec<ExecutionEvent> = Vec::new();
        if wants_shutdown(&cmds) {
            return BatchOutcome { events, status: RunStatus::ShutDown };
        }
        let ghost given = cmds@;
        let ghost fins = finalizations(given);
        let (to_execute, to_finalize) = self.classify(cmds);
        let ghost executed = choose|executed: Seq<bool>|
            answered(&self.db, given, executed) && to_execute@ == #[trigger] executions(
                given,
                executed,
            );
        let status = self.execute_all(to_execute, &mut events);
        let ghost mid = *self;
        let ghost told = events@;
        let ghost mid_status = status;
        match status {
            RunStatus::Running => {},
            _ => {
                let r = BatchOutcome { events, status };
                assert(Self::runs(
                    *old(self),
                    given,
                    executed,
                    mid,
                    told,
                    mid_status,
                    0,
                    *self,
                    r,
                ));
                return r;
            },
        }
        let ghost items = queued(to_finalize@);
        let status = self.finalize_all(to_finalize, &mut events);
        let r = BatchOutcome { events, status };
        proof {
            let m = choose|m: int|
                #![trigger items.take(m)]
                {
                    &&& 0 <= m <= items.len()
                    &&& Self::finalizes_all(mid, items.take(m), *self)
                    &&& events_view(r.events@) == events_view(told) + all_finalization_events(
                        items.take(m),
                    )
                    &&& if m == items.len() {
                        r.status is Running
                    } else {
                        r.status is OutOfTurn && !Self::finalizable(*self, items[m])
                    }
                };
            assert(Self::runs(*old(self), given, executed, mid, told, mid_status, m, *self, r));
        }
        r
    }
}

/// What the execution of blocks tells is of votes and proposals only: whatever a batch of commands
/// tells of finalized blocks comes after all that it tells of executed ones.
pub proof fn lemma_executions_tell_no_finalization<D: ExecutionDb, E: BlockExecutor>(
    s: RunLoop<D, E>,
    items: Seq<ToExecute>,
    t: RunLoop<D, E>,
    told: Seq<ExecutionEvent>,
    status: RunStatus,
)
    requires
        RunLoop::executes_all(s, items, t, told, status),
    ensures
        forall|i: int|
            0 <= i < told.len() ==> (#[trigger] told[i]) is BlockVoted || told[i] is BlockProposed,
        t.executor == s.executor,
        t.start_seq_num == s.start_seq_num,
        t.last_finalized_seq_num == s.last_finalized_seq_num,
    decreases items.len(),
{
    if items.len() > 0 {
        let (mid, told_mid, mid_status, told_last, r) = choose|
            mid: RunLoop<D, E>,
            told_mid: Seq<ExecutionEvent>,
            mid_status: RunStatus,
            told_last: Seq<ExecutionEvent>,
            r: ExecuteStatus,
        |
            #![trigger RunLoop::continues(mid, told_mid, mid_status, told_last, r)]
            {
                &&& RunLoop::continues(mid, told_mid, mid_status, told_last, r)
                &&& RunLoop::executes_all(s, items.drop_last(), mid, told_mid, mid_status)
                &&& if mid_status is Running {
                    &&& RunLoop::executes(mid, items.last(), t, told_last, r)
                    &&& told == told_mid + told_last
                    &&& status == after_execution(r)
                } else {
                    t == mid && told == told_mid && status == mid_status
                }
            };
        lemma_executions_tell_no_finalization(s, items.drop_last(), mid, told_mid, mid_status);
    }
}

/// Where blocks are finalized one after the other, the last of them is the last finalized block.
pub proof fn lemma_last_finalized_block_is_remembered<D: ExecutionDb, E: BlockExecutor>(
    s: RunLoop<D, E>,
    items: Seq<Finalization>,
    t: RunLoop<D, E>,
)
    requires
        RunLoop::finalizes_all(s, items, t),
    ensures
        t.executor == s.executor,
        t.start_seq_num == s.start_seq_num,
        t.last_finalized_seq_num == if items.len() == 0 {
            s.last_finalized_seq_num
        } else {
            items.last().seq_num
        },
    decreases items.len(),
{
    if items.len() > 0 {
        let mid = choose|mid: RunLoop<D, E>|
            #![trigger RunLoop::finalizes(mid, items.last(), t)]
            RunLoop::finalizes_all(s, items.drop_last(), mid) && RunLoop::finalizes(
                mid,
                items.last(),
                t,
            );
        lemma_last_finalized_block_is_remembered(s, items.drop_last(), mid);
    }
}

/// When a block is finalized that vouches for others, the last of those is what is verified: this is
/// the last thing that is told, and the last call to the database.
pub proof fn lemma_last_vouched_block_is_verified(
    seq_num: SeqNum,
    block_id: BlockId,
    results: Seq<BlockHeader>,
)
    requires
        results.len() > 0,
        results.last().number != u64::MAX,
    ensures
        ({
            let told = finalization_events(seq_num, block_id, vouched(results));
            let asked = finalization_ops(seq_num, block_id, vouched(results));
            &&& told.len() == 2
            &&& told[0] == (EventView::Finalized { seq_num, block_id })
            &&& told.last() == (EventView::Verified { seq_num: SeqNum(results.last().number) })
            &&& asked.len() == 2
            &&& asked[0] == (DbOp::Finalize { seq_num, block_id })
            &&& asked.last() == (DbOp::Verified { seq_num: SeqNum(results.last().number) })
        }),
{
}

/// When a block is finalized that vouches for none, it is itself what is verified. The number that
/// stands for no block is never verified.
pub proof fn lemma_block_without_results_verifies_itself(
    seq_num: SeqNum,
    block_id: BlockId,
    results: Seq<BlockHeader>,
)
    ensures
        results.len() == 0 && seq_num.0 != u64::MAX ==> {
            &&& finalization_events(seq_num, block_id, vouched(results)) == seq![
                EventView::Finalized { seq_num, block_id },
                EventView::Verified { seq_num },
            ]
            &&& finalization_ops(seq_num, block_id, vouched(results)) == seq![
                DbOp::Finalize { seq_num, block_id },
                DbOp::Verified { seq_num },
            ]
        },
        (results.len() == 0 && seq_num.0 == u64::MAX) || (results.len() > 0
            && results.last().number == u64::MAX) ==> {
            &&& finalization_events(seq_num, block_id, vouched(results)) == seq![
                EventView::Finalized { seq_num, block_id },
            ]
            &&& finalization_ops(seq_num, block_id, vouched(results)) == seq![
                DbOp::Finalize { seq_num, block_id },
            ]
        },
{
}

/// Whether `at` are the places in a batch of the commands that finalize a block, in order.
pub open spec fn are_finalize_commands(cmds: Seq<ExecutionCommand>, at: Seq<int>) -> bool {
    &&& forall|j: int, k: int| 0 <= j < k < at.len() ==> #[trigger] at[j] < #[trigger] at[k]
    &&& forall|j: int| 0 <= j < at.len() ==> 0 <= #[trigger] at[j] < cmds.len()
    &&& forall|j: int| 0 <= j < at.len() ==> cmds[#[trigger] at[j]] is Finalize
    &&& forall|i: int|
        0 <= i < cmds.len() && (#[trigger] cmds[i]) is Finalize ==> at.contains(i)
}

/// Every command that finalizes a block is followed, once and in its turn: its block, by its number
/// and id, and the numbers of all headers that the block vouches for.
pub proof fn lemma_each_finalize_command_is_followed(cmds: Seq<ExecutionCommand>) -> (at: Seq<int>)
    ensures
        are_finalize_commands(cmds, at),
        finalizations(cmds).len() == at.len(),
        forall|j: int|
            0 <= j < at.len() ==> {
                let item = #[trigger] finalizations(cmds)[j];
                let cmd = cmds[at[j]];
                &&& item.seq_num == cmd->Finalize_seq_num
                &&& item.block_id == cmd->Finalize_block_id
                &&& item.verified_blocks.len() == cmd->Finalize_block.execution_results@.len()
                &&& forall|k: int|
                    0 <= k < item.verified_blocks.len() ==> (#[trigger] item.verified_blocks[k]).0
                        == cmd->Finalize_block.execution_results@[k].number
            },
    decreases cmds.len(),
{
    if cmds.len() == 0 {
        Seq::empty()
    } else {
        let n = cmds.len() - 1;
        let before = cmds.drop_last();
        let rest = lemma_each_finalize_command_is_followed(before);
        let items = finalizations(before);
        let at = if cmds.last() is Finalize {
            rest.push(n)
        } else {
            rest
        };
        assert forall|i: int| 0 <= i < cmds.len() && (#[trigger] cmds[i]) is Finalize implies at.contains(
            i,
        ) by {
            if i < n {
                assert(before[i] == cmds[i]);
                let j = choose|j: int| 0 <= j < rest.len() && rest[j] == i;
                assert(at[j] == i);
            } else {
                assert(at[rest.len() as int] == i);
            }
        }
        assert forall|j: int| 0 <= j < at.len() implies {
            let item = #[trigger] finalizations(cmds)[j];
            let cmd = cmds[at[j]];
            &&& item.seq_num == cmd->Finalize_seq_num
            &&& item.block_id == cmd->Finalize_block_id
            &&& item.verified_blocks.len() == cmd->Finalize_block.execution_results@.len()
            &&& forall|k: int|
                0 <= k < item.verified_blocks.len() ==> (#[trigger] item.verified_blocks[k]).0
                    == cmd->Finalize_block.execution_results@[k].number
        } by {
            if j < rest.len() {
                assert(finalizations(cmds)[j] == items[j]);
                assert(before[rest[j]] == cmds[at[j]]);
            }
        }
        at
    }
}

/// Whether `at` are the places in a batch of the commands whose block is executed, in order: those
/// whose block was not executed before.
pub open spec fn are_execute_commands(
    cmds: Seq<ExecutionCommand>,
    executed: Seq<bool>,
    at: Seq<int>,
) -> bool {
    &&& forall|j: int, k: int| 0 <= j < k < at.len() ==> #[trigger] at[j] < #[trigger] at[k]
    &&& forall|j: int|
        0 <= j < at.len() ==> {
            &&& 0 <= #[trigger] at[j] < cmds.len()
            &&& !executed[at[j]]
            &&& !(cmds[at[j]] is Shutdown)
        }
    &&& forall|i: int|
        0 <= i < cmds.len() && !executed[i] && !((#[trigger] cmds[i]) is Shutdown) ==> at.contains(i)
}

/// Every block that a command proposes or finalizes, and that was not executed before, is executed,
/// once and in its turn; no other block is.
pub proof fn lemma_each_new_block_is_executed(cmds: Seq<ExecutionCommand>, executed: Seq<bool>) -> (at:
    Seq<int>)
    requires
        executed.len() == cmds.len(),
    ensures
        are_execute_commands(cmds, executed, at),
        executions(cmds, executed).len() == at.len(),
        forall|j: int|
            0 <= j < at.len() ==> {
                let item = #[trigger] executions(cmds, executed)[j];
                match cmds[at[j]] {
                    ExecutionCommand::Propose { block_id, block } => item.block_id == block_id
                        && item.block == block,
                    ExecutionCommand::Finalize { block_id, block, .. } => item.block_id == block_id
                        && item.block == block,
                    ExecutionCommand::Shutdown => false,
                }
            },
    decreases cmds.len(),
{
    if cmds.len() == 0 {
        Seq::empty()
    } else {
        let n = cmds.len() - 1;
        let before = cmds.drop_last();
        let answers = executed.drop_last();
        let rest = lemma_each_new_block_is_executed(before, answers);
        let items = executions(before, answers);
        let at = if !executed.last() && !(cmds.last() is Shutdown) {
            rest.push(n)
        } else {
            rest
        };
        assert forall|j: int| 0 <= j < at.len() implies {
            &&& 0 <= #[trigger] at[j] < cmds.len()
            &&& !executed[at[j]]
            &&& !(cmds[at[j]] is Shutdown)
        } by {
            if j < rest.len() {
                assert(rest[j] == at[j]);
                assert(before[rest[j]] == cmds[at[j]]);
            }
        }
        assert forall|i: int| 0 <= i < cmds.len() && !executed[i] && !((#[trigger] cmds[i]) is Shutdown) implies at.contains(
            i,
        ) by {
            if i < n {
                assert(before[i] == cmds[i]);
                let j = choose|j: int| 0 <= j < rest.len() && rest[j] == i;
                assert(at[j] == i);
            } else {
                assert(at[rest.len() as int] == i);
            }
        }
        assert forall|j: int| 0 <= j < at.len() implies {
            let item = #[trigger] executions(cmds, executed)[j];
            match cmds[at[j]] {
                ExecutionCommand::Propose { block_id, block } => item.block_id == block_id
                    && item.block == block,
                ExecutionCommand::Finalize { block_id, block, .. } => item.block_id == block_id
                    && item.block == block,
                ExecutionCommand::Shutdown => false,
            }
        } by {
            if j < rest.len() {
                assert(executions(cmds, executed)[j] == items[j]);
                assert(rest[j] == at[j]);
                assert(before[rest[j]] == cmds[at[j]]);
            }
        }
        at
    }
}

/// What is told of the finalization of a block stands, with what is verified by it, among what is
/// told of all.
proof fn lemma_finalization_is_among(items: Seq<Finalization>, j: int) -> (k: int)
    requires
        0 <= j < items.len(),
    ensures
        0 <= k,
        ({
            let one = finalization_events(
                items[j].seq_num,
                items[j].block_id,
                items[j].verified_blocks,
            );
            let all = all_finalization_events(items);
            &&& k + one.len() <= all.len()
            &&& all.subrange(k, k + one.len()) == one
            &&& j == items.len() - 1 ==> k + one.len() == all.len()
        }),
    decreases items.len(),
{
    let one = finalization_events(items[j].seq_num, items[j].block_id, items[j].verified_blocks);
    let all = all_finalization_events(items);
    let before = all_finalization_events(items.drop_last());
    if j == items.len() - 1 {
        assert(all.subrange(before.len() as int, (before.len() + one.len()) as int) =~= one);
        before.len() as int
    } else {
        let k = lemma_finalization_is_among(items.drop_last(), j);
        assert(all.subrange(k, k + one.len()) =~= before.subrange(k, k + one.len()));
        k
    }
}

/// A batch that goes through tells of every block that it was asked to finalize, and right after it
/// of the last block that this one vouches for: the number is that of the last header which the
/// block carries.
pub proof fn lemma_batch_tells_what_is_verified<D: ExecutionDb, E: BlockExecutor>(
    s: RunLoop<D, E>,
    cmds: Seq<ExecutionCommand>,
    t: RunLoop<D, E>,
    r: BatchOutcome,
    i: int,
) -> (k: int)
    requires
        RunLoop::ran(s, cmds, t, r),
        r.status is Running,
        0 <= i < cmds.len(),
        cmds[i] is Finalize,
        cmds[i]->Finalize_block.execution_results@.len() > 0,
        cmds[i]->Finalize_block.execution_results@.last().number != u64::MAX,
    ensures
        0 <= k,
        k + 1 < r.events@.len(),
        r.events@[k]@ == (EventView::Finalized {
            seq_num: cmds[i]->Finalize_seq_num,
            block_id: cmds[i]->Finalize_block_id,
        }),
        r.events@[k + 1]@ == (EventView::Verified {
            seq_num: SeqNum(cmds[i]->Finalize_block.execution_results@.last().number),
        }),
        i == cmds.len() - 1 ==> k + 2 == r.events@.len(),
{
    let (executed, mid, told, status, m) = choose|
        executed: Seq<bool>,
        mid: RunLoop<D, E>,
        told: Seq<ExecutionEvent>,
        status: RunStatus,
        m: int,
    | #[trigger]
        RunLoop::runs(s, cmds, executed, mid, told, status, m, t, r);
    let fins = finalizations(cmds);
    assert(status is Running);
    assert(fins.take(m) =~= fins);
    let at = lemma_each_finalize_command_is_followed(cmds);
    assert(at.contains(i));
    let j = choose|j: int| 0 <= j < at.len() && at[j] == i;
    let item = fins[j];
    let results = cmds[i]->Finalize_block.execution_results@;
    assert(item.verified_blocks =~= vouched(results));
    lemma_last_vouched_block_is_verified(item.seq_num, item.block_id, results);
    let one = finalization_events(item.seq_num, item.block_id, item.verified_blocks);
    let p = lemma_finalization_is_among(fins, j);
    let all = all_finalization_events(fins);
    assert(all[p] == all.subrange(p, p + one.len())[0]);
    assert(all[p + 1] == all.subrange(p, p + one.len())[1]);
    let k = told.len() + p;
    let shown = events_view(r.events@);
    assert(shown == events_view(told) + all);
    assert(shown.len() == r.events@.len());
    assert(events_view(told).len() == told.len());
    assert(shown[k] == all[p]);
    assert(shown[k + 1] == all[p + 1]);
    assert(shown[k] == r.events@[k]@);
    assert(shown[k + 1] == r.events@[k + 1]@);
    if i == cmds.len() - 1 {
        if j < at.len() - 1 {
            assert(at[j] < at[at.len() - 1]);
        }
    }
    k
}

/// A batch that goes through and ends with a command to finalize a block leaves this block as the
/// last finalized one, and the last call to the database tells which block is verified by it.
pub proof fn lemma_batch_ends_with_what_is_verified<D: ExecutionDb, E: BlockExecutor>(
    s: RunLoop<D, E>,
    cmds: Seq<ExecutionCommand>,
    t: RunLoop<D, E>,
    r: BatchOutcome,
)
    requires
        RunLoop::ran(s, cmds, t, r),
        r.status is Running,
        cmds.len() > 0,
        cmds.last() is Finalize,
        cmds.last()->Finalize_block.execution_results@.len() > 0,
        cmds.last()->Finalize_block.execution_results@.last().number != u64::MAX,
    ensures
        t.last_finalized_seq_num == cmds.last()->Finalize_seq_num,
        t.db.history().len() > 0,
        t.db.history().last() == (DbOp::Verified {
            seq_num: SeqNum(cmds.last()->Finalize_block.execution_results@.last().number),
        }),
{
    let (executed, mid, told, status, m) = choose|
        executed: Seq<bool>,
        mid: RunLoop<D, E>,
        told: Seq<ExecutionEvent>,
        status: RunStatus,
        m: int,
    | #[trigger]
        RunLoop::runs(s, cmds, executed, mid, told, status, m, t, r);
    let fins = finalizations(cmds);
    assert(fins.take(m) =~= fins);
    let results = cmds.last()->Finalize_block.execution_results@;
    let item = fins.last();
    assert(item.seq_num == cmds.last()->Finalize_seq_num);
    lemma_last_vouched_block_is_verified(item.seq_num, item.block_id, results);
    let before = choose|before: RunLoop<D, E>|
        #![trigger RunLoop::finalizes(before, fins.last(), t)]
        RunLoop::finalizes_all(mid, fins.drop_last(), before) && RunLoop::finalizes(
            before,
            fins.last(),
            t,
        );
    let ops = finalization_ops(item.seq_num, item.block_id, item.verified_blocks);
    assert(t.db.history() == before.db.history() + ops);
    assert(t.db.history().last() == ops.last());
}

/// When a block is executed, its parent counts as voted for: the database is told first, and so is
/// everyone else unless the parent is final already. Nothing else is told of a block that is not
/// proposed.
pub proof fn lemma_execution_votes_for_the_parent<D: ExecutionDb, E: BlockExecutor>(
    s: RunLoop<D, E>,
    item: ToExecute,
    t: RunLoop<D, E>,
    told: Seq<ExecutionEvent>,
    r: ExecuteStatus,
)
    requires
        RunLoop::executes(s, item, t, told, r),
        item.block.seq_num.0 > 0,
    ensures
        exists|voted: D|
            {
                &&& #[trigger] s.db.becomes(
                    DbOp::Voted {
                        seq_num: SeqNum((item.block.seq_num.0 - 1) as u64),
                        block_id: item.block.parent_id,
                    },
                    &voted,
                )
                &&& voted.history() == s.db.history().push(
                    DbOp::Voted {
                        seq_num: SeqNum((item.block.seq_num.0 - 1) as u64),
                        block_id: item.block.parent_id,
                    },
                )
            },
        item.block.seq_num.0 - 1 > s.last_finalized_seq_num.0 ==> told.len() > 0 && told[0]@ == (
        EventView::Voted {
            seq_num: SeqNum((item.block.seq_num.0 - 1) as u64),
            block_id: item.block.parent_id,
        }),
        told.len() == (if item.block.seq_num.0 - 1 > s.last_finalized_seq_num.0 {
            1int
        } else {
            0
        }) + if r is Proposed {
            1int
        } else {
            0
        },
        !(r is Proposed) && item.block.seq_num.0 - 1 <= s.last_finalized_seq_num.0 ==> told.len()
            == 0,
{
    let voted = choose|voted: D| #[trigger] is_voted(s.db, item.block, voted);
    assert(is_voted(s.db, item.block, voted));
}

/// A block that is proposed is told of under its number, its id and the id of its parent, with the
/// header, the transactions and the receipts that came of it; the last call to the database tells the
/// same number and id. Its chain has the hashes of all headers that it vouches for.
pub proof fn lemma_proposed_block_is_told<D: ExecutionDb, E: BlockExecutor>(
    s: RunLoop<D, E>,
    item: ToExecute,
    t: RunLoop<D, E>,
    told: Seq<ExecutionEvent>,
    r: ExecuteStatus,
)
    requires
        RunLoop::executes(s, item, t, told, r),
        r is Proposed,
    ensures
        told.len() > 0,
        told.last() is BlockProposed,
        told.last()->BlockProposed_seq_num == item.block.seq_num,
        told.last()->BlockProposed_block_id == item.block_id,
        told.last()->BlockProposed_parent_id == item.block.parent_id,
        told.last()->BlockProposed_eth_block_hash == header_hash(
            told.last()->BlockProposed_header@,
        ),
        txs_view(told.last()->BlockProposed_transactions@) == txs_view(item.block.transactions@),
        t.db.history().len() > 0,
        t.db.history().last() == (DbOp::Proposed {
            seq_num: item.block.seq_num,
            block_id: item.block_id,
        }),
        forall|i: int|
            0 <= i < item.block.execution_results@.len() ==> header_hash(
                (#[trigger] item.block.execution_results@[i])@,
            ) == s.block_hash_chain@.get(
                item.block.parent_id,
                item.block.execution_results@[i].number,
            ),
        forall|i: int|
            0 <= i < item.block.execution_results@.len() ==> (
            #[trigger] item.block.execution_results@[i]).number
                == item.block.execution_results@[0].number + i,
{
    let first = item.block.seq_num == s.start_seq_num;
    let voted = choose|voted: D| #[trigger]
        is_voted(s.db, item.block, voted) && exists|
            proposed: D,
            out: Result<BlockExecOutput, ExecutionError>,
        | #[trigger]
            proposes(
                s.executor,
                item.block,
                first,
                s.block_hash_chain@,
                voted,
                t.block_hash_chain@,
                proposed,
                out,
            ) && out is Ok && told == vote_told(item.block, s.last_finalized_seq_num).push(
                proposal_told(item, out->Ok_0),
            );
    let (proposed, out) = choose|proposed: D, out: Result<BlockExecOutput, ExecutionError>| #[trigger]
        proposes(
            s.executor,
            item.block,
            first,
            s.block_hash_chain@,
            voted,
            t.block_hash_chain@,
            proposed,
            out,
        ) && out is Ok && told == vote_told(item.block, s.last_finalized_seq_num).push(
            proposal_told(item, out->Ok_0),
        );
    assert(told.last() == proposal_told(item, out->Ok_0));
}

/// A batch in which the execution of a block fails finalizes nothing, and tells of nothing finalized
/// or verified.
pub proof fn lemma_failed_batch_finalizes_nothing<D: ExecutionDb, E: BlockExecutor>(
    s: RunLoop<D, E>,
    cmds: Seq<ExecutionCommand>,
    t: RunLoop<D, E>,
    r: BatchOutcome,
)
    requires
        RunLoop::ran(s, cmds, t, r),
        r.status is Failed,
    ensures
        t.last_finalized_seq_num == s.last_finalized_seq_num,
        forall|i: int|
            0 <= i < r.events@.len() ==> (#[trigger] r.events@[i]) is BlockVoted
                || r.events@[i] is BlockProposed,
{
    let (executed, mid, told, status, m) = choose|
        executed: Seq<bool>,
        mid: RunLoop<D, E>,
        told: Seq<ExecutionEvent>,
        status: RunStatus,
        m: int,
    | #[trigger]
        RunLoop::runs(s, cmds, executed, mid, told, status, m, t, r);
    lemma_executions_tell_no_finalization(
        s,
        executions(cmds, executed),
        mid,
        told,
        status,
    );
}

/// An execution that fails ends the batch with its own error; one that does not lets it go on.
pub proof fn lemma_error_of_execution_is_reported(r: ExecuteStatus)
    ensures
        r is Failed ==> after_execution(r) == RunStatus::Failed(r->0),
        r is Proposed || r is Skipped ==> after_execution(r) is Running,
        r is OutOfTurn ==> after_execution(r) is OutOfTurn,
{
}

/// The engine goes on from the latest finalized block of its database, and from block 0 where there is
/// none; the hashes that it starts with are those of the headers that were read, each for its own block.
pub proof fn lemma_engine_starts_at_the_latest_block<D: ExecutionDb, E: BlockExecutor>(
    db: D,
    executor: E,
    finalized_n: SeqNum,
    r: RunLoop<D, E>,
    s: u64,
) -> (headers: Seq<HeaderView>)
    requires
        RunLoop::starts(db, executor, finalized_n, r),
    ensures
        r.executor == executor,
        finalized_n.0 != u64::MAX ==> r.start_seq_num == finalized_n && r.last_finalized_seq_num
            == finalized_n,
        finalized_n.0 == u64::MAX ==> r.start_seq_num.0 == 0 && r.last_finalized_seq_num.0 == 0,
        r.block_hash_chain@.proposals.len() == 0,
        finalized_n.0 == u64::MAX || finalized_n.0 == 0 ==> r.db == db
            && r.block_hash_chain@.finalized.get(s) == B256::spec_zero(),
        0 < finalized_n.0 < u64::MAX ==> r.block_hash_chain@.finalized.n == finalized_n.0,
        0 < finalized_n.0 < u64::MAX && (s >= finalized_n.0 || finalized_n.0 - s > 256)
            ==> r.block_hash_chain@.finalized.get(s) == B256::spec_zero(),
        0 < finalized_n.0 < u64::MAX ==> {
            let from = if finalized_n.0 <= 256 {
                0
            } else {
                (finalized_n.0 - 256) as u64
            };
            &&& headers_read(db, from, headers, r.db)
            &&& headers.len() == finalized_n.0 - from
            &&& from <= s < finalized_n.0 ==> r.block_hash_chain@.finalized.get(s)
                == if headers[s - from].number == s {
                header_hash(headers[s - from])
            } else {
                B256::spec_zero()
            }
        },
{
    if 0 < finalized_n.0 < u64::MAX {
        let from = load_start(finalized_n.0);
        let headers = choose|headers: Seq<HeaderView>|
            headers.len() == finalized_n.0 - from && headers_read(db, from, headers, r.db)
                && r.db.history() == db.history() + load_ops(from, headers.len())
                && r.block_hash_chain@.finalized == #[trigger] FinalizedHashes::empty(0).load(
                from,
                headers,
            );
        lemma_loaded_hashes_are_read(FinalizedHashes::empty(0), from, headers, s);
        headers
    } else {
        Seq::empty()
    }
}

/// A block is left out only if the results that it vouches for are not those of its chain: one of them
/// is out of order, or has another hash than the chain has for its number.
pub proof fn lemma_only_wrong_results_are_skipped<D: ExecutionDb, E: BlockExecutor>(
    s: RunLoop<D, E>,
    item: ToExecute,
    t: RunLoop<D, E>,
    told: Seq<ExecutionEvent>,
    r: ExecuteStatus,
) -> (i: int)
    requires
        RunLoop::executes(s, item, t, told, r),
        r is Skipped,
    ensures
        0 <= i < item.block.execution_results@.len(),
        item.block.execution_results@[i].number != item.block.execution_results@[0].number + i
            || header_hash(item.block.execution_results@[i]@) != s.block_hash_chain@.get(
            item.block.parent_id,
            item.block.execution_results@[i].number,
        ),
        t.block_hash_chain@ == s.block_hash_chain@,
        t.last_finalized_seq_num == s.last_finalized_seq_num,
{
    let results = item.block.execution_results@;
    let chain = s.block_hash_chain@;
    choose|i: int|
        0 <= i < results.len() && !({
            let header = #[trigger] results[i];
            &&& header.number == results[0].number + i
            &&& header_hash(header@) == chain.get(item.block.parent_id, header.number)
        })
}

/// The parent of a block is selected under its own id before the block is executed; only that of the
/// block which the engine starts at is selected under the id that stands for no block.
pub proof fn lemma_block_is_executed_on_its_parent<D: ExecutionDb, E: BlockExecutor>(
    s: RunLoop<D, E>,
    item: ToExecute,
    t: RunLoop<D, E>,
    told: Seq<ExecutionEvent>,
    r: ExecuteStatus,
)
    requires
        RunLoop::executes(s, item, t, told, r),
        r is Proposed,
    ensures
        item.block.seq_num.0 > 0,
        exists|voted: D, parent: D, op: DbOp|
            {
                &&& #[trigger] is_voted(s.db, item.block, voted)
                &&& #[trigger] voted.becomes(op, &parent)
                &&& op is SetBlock
                &&& op->SetBlock_seq_num.0 + 1 == item.block.seq_num.0
                &&& item.block.seq_num != s.start_seq_num ==> op->SetBlock_block_id
                    == item.block.parent_id
                &&& item.block.seq_num == s.start_seq_num ==> op->SetBlock_block_id == BlockId(
                    B256::spec_zero(),
                )
            },
{
    let first = item.block.seq_num == s.start_seq_num;
    let voted = choose|voted: D| #[trigger]
        is_voted(s.db, item.block, voted) && exists|
            proposed: D,
            out: Result<BlockExecOutput, ExecutionError>,
        | #[trigger]
            proposes(
                s.executor,
                item.block,
                first,
                s.block_hash_chain@,
                voted,
                t.block_hash_chain@,
                proposed,
                out,
            ) && out is Ok;
    let (proposed, out) = choose|proposed: D, out: Result<BlockExecOutput, ExecutionError>| #[trigger]
        proposes(
            s.executor,
            item.block,
            first,
            s.block_hash_chain@,
            voted,
            t.block_hash_chain@,
            proposed,
            out,
        ) && out is Ok;
    lemma_parent_is_selected_first(
        s.executor,
        item.block,
        first,
        s.block_hash_chain@,
        voted,
        t.block_hash_chain@,
        proposed,
        out,
    );
    assert(is_voted(s.db, item.block, voted));
}

/// The first block whose execution fails ends the executions: those before it went through, those after
/// it are not executed, and what is told ends with what is told of it.
pub proof fn lemma_first_failure_ends_the_executions<D: ExecutionDb, E: BlockExecutor>(
    s: RunLoop<D, E>,
    items: Seq<ToExecute>,
    t: RunLoop<D, E>,
    told: Seq<ExecutionEvent>,
    status: RunStatus,
) -> (i: int)
    requires
        RunLoop::executes_all(s, items, t, told, status),
        !(status is Running),
    ensures
        0 <= i < items.len(),
        exists|mid: RunLoop<D, E>, before: Seq<ExecutionEvent>, last: Seq<ExecutionEvent>, r: ExecuteStatus|
            {
                &&& RunLoop::executes_all(s, items.take(i), mid, before, RunStatus::Running)
                &&& #[trigger] RunLoop::executes(mid, items[i], t, last, r)
                &&& told == #[trigger] (before + last)
                &&& r is Failed || r is OutOfTurn
                &&& r is Failed ==> status == RunStatus::Failed(r->0)
            },
    decreases items.len(),
{
    let (mid, told_mid, mid_status, told_last, r) = choose|
        mid: RunLoop<D, E>,
        told_mid: Seq<ExecutionEvent>,
        mid_status: RunStatus,
        told_last: Seq<ExecutionEvent>,
        r: ExecuteStatus,
    |
        #![trigger RunLoop::continues(mid, told_mid, mid_status, told_last, r)]
        {
            &&& RunLoop::continues(mid, told_mid, mid_status, told_last, r)
            &&& RunLoop::executes_all(s, items.drop_last(), mid, told_mid, mid_status)
            &&& if mid_status is Running {
                &&& RunLoop::executes(mid, items.last(), t, told_last, r)
                &&& told == told_mid + told_last
                &&& status == after_execution(r)
            } else {
                t == mid && told == told_mid && status == mid_status
            }
        };
    let n = items.len() - 1;
    assert(items.take(n) =~= items.drop_last());
    if mid_status is Running {
        assert(RunLoop::executes(mid, items[n], t, told_last, r));
        assert(told == told_mid + told_last);
        n
    } else {
        let i = lemma_first_failure_ends_the_executions(s, items.drop_last(), t, told, status);
        assert(items.drop_last().take(i) =~= items.take(i));
        assert(items.drop_last()[i] == items[i]);
        i
    }
}

/// A batch asks the engine to stop exactly if one of its commands does, wherever it stands.
pub proof fn lemma_any_shutdown_stops(cmds: Seq<ExecutionCommand>, i: int)
    ensures
        0 <= i < cmds.len() && cmds[i] is Shutdown ==> asks_to_stop(cmds),
        (forall|j: int| 0 <= j < cmds.len() ==> !((#[trigger] cmds[j]) is Shutdown))
            ==> !asks_to_stop(cmds),
{
}

/// The database is asked of each block whether it was executed: of a proposed one by its own number, of
/// a finalized one by the number that is finalized.
pub proof fn lemma_database_is_asked_of_each_block<D: ExecutionDb>(
    db: &D,
    cmds: Seq<ExecutionCommand>,
    executed: Seq<bool>,
    i: int,
)
    requires
        answered(db, cmds, executed),
        0 <= i < cmds.len(),
    ensures
        executed.len() == cmds.len(),
        cmds[i] is Propose ==> call_ensures(
            D::has_executed,
            (db, &cmds[i]->Propose_block_id, cmds[i]->Propose_block.seq_num),
            executed[i],
        ),
        cmds[i] is Finalize ==> call_ensures(
            D::has_executed,
            (db, &cmds[i]->Finalize_block_id, cmds[i]->Finalize_seq_num),
            executed[i],
        ),
{
    assert(has_answer(db, cmds[i], executed[i]));
}

/// The block before block 0 is the number that stands for no block.
pub proof fn lemma_block_before_is_one_less(seq_num: SeqNum)
    ensures
        seq_num.0 > 0 ==> block_before(seq_num).0 + 1 == seq_num.0,
        seq_num.0 == 0 ==> block_before(seq_num).0 == u64::MAX,
{
}

/// Of blocks that are executed one after the other, with none failing, each one is, on what those before
/// it left.
pub proof fn lemma_each_block_is_executed_in_turn<D: ExecutionDb, E: BlockExecutor>(
    s: RunLoop<D, E>,
    items: Seq<ToExecute>,
    t: RunLoop<D, E>,
    told: Seq<ExecutionEvent>,
    status: RunStatus,
    i: int,
)
    requires
        RunLoop::executes_all(s, items, t, told, status),
        status is Running,
        0 <= i < items.len(),
    ensures
        exists|a: RunLoop<D, E>, before: Seq<ExecutionEvent>, b: RunLoop<D, E>, here: Seq<ExecutionEvent>, r: ExecuteStatus|
            {
                &&& #[trigger] RunLoop::executes_all(
                    s,
                    items.take(i),
                    a,
                    before,
                    RunStatus::Running,
                )
                &&& #[trigger] RunLoop::executes(a, items[i], b, here, r)
                &&& (before + here).is_prefix_of(told)
                &&& i == 0 ==> a == s && before.len() == 0
                &&& i == items.len() - 1 ==> b == t && told == before + here
            },
    decreases items.len(),
{
    let (mid, told_mid, mid_status, told_last, r) = choose|
        mid: RunLoop<D, E>,
        told_mid: Seq<ExecutionEvent>,
        mid_status: RunStatus,
        told_last: Seq<ExecutionEvent>,
        r: ExecuteStatus,
    |
        #![trigger RunLoop::continues(mid, told_mid, mid_status, told_last, r)]
        {
            &&& RunLoop::continues(mid, told_mid, mid_status, told_last, r)
            &&& RunLoop::executes_all(s, items.drop_last(), mid, told_mid, mid_status)
            &&& if mid_status is Running {
                &&& RunLoop::executes(mid, items.last(), t, told_last, r)
                &&& told == told_mid + told_last
                &&& status == after_execution(r)
            } else {
                t == mid && told == told_mid && status == mid_status
            }
        };
    assert(mid_status is Running);
    let n = items.len() - 1;
    assert(items.take(n) =~= items.drop_last());
    if i == n {
        assert(RunLoop::executes_all(s, items.take(i), mid, told_mid, RunStatus::Running));
        assert(RunLoop::executes(mid, items[i], t, told_last, r));
    } else {
        let rest = items.drop_last();
        lemma_each_block_is_executed_in_turn(s, rest, mid, told_mid, mid_status, i);
        assert(rest.take(i) =~= items.take(i));
        assert(rest[i] == items[i]);
        let (a, before, b, here, r) = choose|
            a: RunLoop<D, E>,
            before: Seq<ExecutionEvent>,
            b: RunLoop<D, E>,
            here: Seq<ExecutionEvent>,
            r: ExecuteStatus,
        |
            {
                &&& #[trigger] RunLoop::executes_all(
                    s,
                    rest.take(i),
                    a,
                    before,
                    RunStatus::Running,
                )
                &&& #[trigger] RunLoop::executes(a, rest[i], b, here, r)
                &&& (before + here).is_prefix_of(told_mid)
                &&& i == 0 ==> a == s && before.len() == 0
            };
        let part = before + here;
        assert(part.is_prefix_of(told)) by {
            assert(told.take(part.len() as int) =~= told_mid.take(part.len() as int));
        }
        assert(RunLoop::executes_all(s, items.take(i), a, before, RunStatus::Running));
        assert(RunLoop::executes(a, items[i], b, here, r));
    }
}

/// Of blocks that are finalized one after the other each one is, on what those before it left, and the
/// database is asked for just that, in order.
pub proof fn lemma_each_block_is_finalized_in_turn<D: ExecutionDb, E: BlockExecutor>(
    s: RunLoop<D, E>,
    items: Seq<Finalization>,
    t: RunLoop<D, E>,
    i: int,
)
    requires
        RunLoop::finalizes_all(s, items, t),
        0 <= i < items.len(),
    ensures
        exists|a: RunLoop<D, E>, b: RunLoop<D, E>|
            {
                &&& #[trigger] RunLoop::finalizes_all(s, items.take(i), a)
                &&& #[trigger] RunLoop::finalizes(a, items[i], b)
                &&& i == 0 ==> a == s
                &&& i == items.len() - 1 ==> b == t
                &&& b.db.history().is_prefix_of(t.db.history())
            },
        s.db.history().is_prefix_of(t.db.history()),
    decreases items.len(),
{
    let mid = choose|mid: RunLoop<D, E>|
        #![trigger RunLoop::finalizes(mid, items.last(), t)]
        RunLoop::finalizes_all(s, items.drop_last(), mid) && RunLoop::finalizes(mid, items.last(), t);
    let rest = items.drop_last();
    let n = items.len() - 1;
    assert(items.take(n) =~= rest);
    lemma_history_grows(mid.db.history(), t.db.history());
    if i == n {
        assert(RunLoop::finalizes_all(s, items.take(i), mid));
        assert(RunLoop::finalizes(mid, items[i], t));
        if n > 0 {
            lemma_each_block_is_finalized_in_turn(s, rest, mid, 0);
        }
    } else {
        lemma_each_block_is_finalized_in_turn(s, rest, mid, i);
        assert(rest.take(i) =~= items.take(i));
        assert(rest[i] == items[i]);
        let (a, b) = choose|a: RunLoop<D, E>, b: RunLoop<D, E>|
            {
                &&& #[trigger] RunLoop::finalizes_all(s, rest.take(i), a)
                &&& #[trigger] RunLoop::finalizes(a, rest[i], b)
                &&& i == 0 ==> a == s
                &&& b.db.history().is_prefix_of(mid.db.history())
            };
        assert(RunLoop::finalizes_all(s, items.take(i), a));
        assert(RunLoop::finalizes(a, items[i], b));
    }
}

proof fn lemma_history_grows(a: Seq<DbOp>, b: Seq<DbOp>)
    requires
        exists|ops: Seq<DbOp>| b == #[trigger] (a + ops),
    ensures
        a.is_prefix_of(b),
{
    let ops = choose|ops: Seq<DbOp>| b == #[trigger] (a + ops);
    assert(b.take(a.len() as int) =~= a);
}

} // verus!
