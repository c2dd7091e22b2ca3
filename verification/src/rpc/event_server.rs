//! Telling users what happens to blocks, from what the engine tells.

use vstd::prelude::*;

use crate::events::{BlockCommitState, EventView, ExecutionEvent};
use crate::header::HeaderView;
use crate::keymap::KeyMap;
use crate::primitives::{BlockId, B256};
use crate::rpc::blocks::{
    block_update, build_block_update, build_proposed_block, lemma_block_is_shown_as_proposed,
    lemma_log_total_monotonic, lemma_update_tells_one_state, log_total, proposed_block, BlockUpdate,
    ProposedBlock, ProposedBlockView,
};
use crate::rpc::tx::{tx_infos, TxInfo};
use crate::transactions::{receipts_view, txs_view, ReceiptEnvelope, ReceiptView, TxType};

verus! {

/// How many proposed blocks are remembered at most.
pub const MAX_PROPOSED_BLOCKS: usize = 64;

/// What users are told.
#[derive(Clone, Debug)]
pub enum EventServerEvent {
    /// Something was missed.
    Gap,
    /// A block has come further.
    Block(BlockUpdate),
}

/// What a server gets from the engine.
pub enum ServerInput {
    Event(ExecutionEvent),
    /// This many events were missed.
    Lagged(u64),
    /// There will be no more events.
    Closed,
}

/// What a server does.
pub enum ServerStep {
    /// Users are told this.
    Broadcast(EventServerEvent),
    /// Nothing has to be told.
    Quiet,
    /// The block is not one that was proposed.
    Unknown,
    /// The block holds a transaction that cannot be read.
    Unreadable,
    /// The server ends.
    Stop,
}

/// The blocks that were proposed and not finalized yet.
pub struct EventServer {
    proposed: KeyMap<BlockId, ProposedBlock>,
}

impl View for EventServer {
    type V = Map<BlockId, ProposedBlockView>;

    closed spec fn view(&self) -> Map<BlockId, ProposedBlockView> {
        self.proposed@.map_values(|b: ProposedBlock| b@)
    }
}

/// Whether users can be told of a block: every transaction has a receipt.
pub open spec fn is_paired(block: ProposedBlockView) -> bool {
    block.transactions.len() == block.receipts.len()
}

/// Whether the event can be told: every transaction of a proposed block has a receipt, and its logs
/// can be counted.
pub open spec fn can_tell(input: ServerInput) -> bool {
    match input {
        ServerInput::Event(event) => match event {
            ExecutionEvent::BlockProposed { transactions, receipts, .. } => {
                &&& transactions@.len() == receipts@.len()
                &&& log_total(receipts_view(receipts@)) <= u64::MAX
            },
            _ => true,
        },
        _ => true,
    }
}

/// Whether a step tells that a block has come so far.
pub open spec fn tells(r: ServerStep, block: ProposedBlockView, state: BlockCommitState) -> bool {
    match r {
        ServerStep::Broadcast(EventServerEvent::Block(update)) => update@ == block_update(
            block,
            state,
        ),
        _ => false,
    }
}

/// Whether a step takes note of a proposed block and tells users. When too many blocks are
/// remembered, all of them are forgotten first.
pub open spec fn notes_proposal(
    before: Map<BlockId, ProposedBlockView>,
    block: ProposedBlockView,
    after: Map<BlockId, ProposedBlockView>,
    r: ServerStep,
) -> bool {
    &&& tells(r, block, BlockCommitState::Proposed)
    &&& after == (if before.len() >= MAX_PROPOSED_BLOCKS {
        Map::<BlockId, ProposedBlockView>::empty()
    } else {
        before
    }).insert(block.block_id, block)
}

/// Whether a step takes note of the proposed block that is described and tells users. How large its
/// header is in memory depends on the machine.
pub open spec fn announces(
    before: Map<BlockId, ProposedBlockView>,
    block_id: BlockId,
    header: HeaderView,
    transactions: Seq<Seq<u8>>,
    infos: Seq<TxInfo>,
    receipts: Seq<(TxType, ReceiptView)>,
    hash: B256,
    after: Map<BlockId, ProposedBlockView>,
    r: ServerStep,
) -> bool {
    exists|size: u64|
        size >= header.extra_data.len() && notes_proposal(
            before,
            #[trigger] proposed_block(
                block_id,
                header,
                transactions,
                infos,
                receipts,
                hash,
                size,
            ),
            after,
            r,
        )
}

impl EventServer {
    /// What holds between steps.
    pub open spec fn wf(&self) -> bool {
        &&& self@.dom().finite()
        &&& self@.len() <= MAX_PROPOSED_BLOCKS
        &&& forall|id: BlockId| #[trigger] self@.contains_key(id) ==> is_paired(self@[id])
    }

    /// A server that knows no block.
    pub fn new() -> (r: Self)
        ensures
            r@ == Map::<BlockId, ProposedBlockView>::empty(),
            r.wf(),
    {
        let r = EventServer { proposed: KeyMap::new() };
        assert(r@ =~= Map::<BlockId, ProposedBlockView>::empty());
        r
    }

    fn propose(&mut self, block: ProposedBlock) -> (r: ServerStep)
        requires
            old(self).wf(),
            is_paired(block@),
        ensures
            final(self).wf(),
            notes_proposal(old(self)@, block@, final(self)@, r),
    {
        let ghost before = self@;
        assert(self.proposed@.dom() =~= self@.dom());
        if self.proposed.len() >= MAX_PROPOSED_BLOCKS {
            self.proposed.clear();
            assert(self@ =~= Map::<BlockId, ProposedBlockView>::empty());
        }
        let ghost mid = self@;
        let update = build_block_update(&block, BlockCommitState::Proposed);
        let ghost shown = block@;
        let id = block.block_id;
        self.proposed.insert(id, block);
        proof {
            assert(self@ =~= mid.insert(id, shown));
            assert(self@.dom() =~= mid.dom().insert(id));
        }
        ServerStep::Broadcast(EventServerEvent::Block(update))
    }

    /// Takes in what the engine tells.
    pub fn step(&mut self, input: ServerInput) -> (r: ServerStep)
        requires
            old(self).wf(),
            can_tell(input),
        ensures
            final(self).wf(),
            match input {
                ServerInput::Lagged(_) => {
                    &&& r is Broadcast
                    &&& r->0 is Gap
                    &&& final(self)@ == Map::<BlockId, ProposedBlockView>::empty()
                },
                ServerInput::Closed => r is Stop && final(self)@ == old(self)@,
                ServerInput::Event(event) => match event@ {
                    EventView::Proposed {
                        block_id,
                        header,
                        transactions,
                        receipts,
                        eth_block_hash,
                        ..
                    } => match tx_infos(transactions, header.base_fee_per_gas) {
                        None => r is Unreadable && final(self)@ == old(self)@,
                        Some(infos) => announces(
                            old(self)@,
                            block_id,
                            header,
                            transactions,
                            infos,
                            receipts,
                            eth_block_hash,
                            final(self)@,
                            r,
                        ),
                    },
                    EventView::Voted { block_id, .. } => {
                        &&& final(self)@ == old(self)@
                        &&& if old(self)@.contains_key(block_id) {
                            tells(r, old(self)@[block_id], BlockCommitState::Voted)
                        } else {
                            r is Unknown
                        }
                    },
                    EventView::Finalized { block_id, .. } => {
                        &&& final(self)@ == old(self)@.remove(block_id)
                        &&& if old(self)@.contains_key(block_id) {
                            tells(r, old(self)@[block_id], BlockCommitState::Finalized)
                        } else {
                            r is Unknown
                        }
                    },
                    EventView::Verified { .. } => r is Quiet && final(self)@ == old(self)@,
                },
            },
    {
        let ghost before = self@;
        match input {
            ServerInput::Lagged(_) => {
                self.proposed.clear();
                assert(self@ =~= Map::<BlockId, ProposedBlockView>::empty());
                ServerStep::Broadcast(EventServerEvent::Gap)
            },
            ServerInput::Closed => ServerStep::Stop,
            ServerInput::Event(event) => match event {
                ExecutionEvent::BlockProposed {
                    seq_num: _,
                    block_id,
                    parent_id: _,
                    header,
                    transactions,
                    receipts,
                    eth_block_hash,
                } => {
                    match build_proposed_block(
                        block_id,
                        &header,
                        &transactions,
                        &receipts,
                        eth_block_hash,
                    ) {
                        None => ServerStep::Unreadable,
                        Some(block) => {
                            let ghost infos = tx_infos(
                                txs_view(transactions@),
                                header.base_fee_per_gas,
                            )->0;
                            let ghost size = choose|size: u64|
                                size >= header.extra_data@.len() && block@
                                    == #[trigger] proposed_block(
                                    block_id,
                                    header@,
                                    txs_view(transactions@),
                                    infos,
                                    receipts_view(receipts@),
                                    eth_block_hash,
                                    size,
                                );
                            let r = self.propose(block);
                            assert(notes_proposal(
                                before,
                                proposed_block(
                                    block_id,
                                    header@,
                                    txs_view(transactions@),
                                    infos,
                                    receipts_view(receipts@),
                                    eth_block_hash,
                                    size,
                                ),
                                self@,
                                r,
                            ));
                            assert(announces(
                                before,
                                block_id,
                                header@,
                                txs_view(transactions@),
                                infos,
                                receipts_view(receipts@),
                                eth_block_hash,
                                self@,
                                r,
                            ));
                            r
                        },
                    }
                },
                ExecutionEvent::BlockVoted { seq_num: _, block_id } => {
                    match self.proposed.get(&block_id) {
                        Some(block) => {
                            assert(self@.contains_key(block_id));
                            ServerStep::Broadcast(
                                EventServerEvent::Block(
                                    build_block_update(block, BlockCommitState::Voted),
                                ),
                            )
                        },
                        None => ServerStep::Unknown,
                    }
                },
                ExecutionEvent::BlockFinalized { seq_num: _, block_id } => {
                    let removed = self.proposed.remove(&block_id);
                    assert(self@ =~= before.remove(block_id));
                    match removed {
                        Some(block) => {
                            assert(before.contains_key(block_id));
                            ServerStep::Broadcast(
                                EventServerEvent::Block(
                                    build_block_update(&block, BlockCommitState::Finalized),
                                ),
                            )
                        },
                        None => ServerStep::Unknown,
                    }
                },
                ExecutionEvent::BlockVerified { seq_num: _ } => ServerStep::Quiet,
            },
        }
    }
}

/// How many logs some receipts have together, if that many can be counted.
fn count_logs(receipts: &Vec<ReceiptEnvelope>) -> (r: Option<u64>)
    ensures
        match r {
            Some(n) => log_total(receipts_view(receipts@)) == n,
            None => log_total(receipts_view(receipts@)) > u64::MAX,
        },
{
    let ghost all = receipts_view(receipts@);
    let mut n: u64 = 0;
    let mut i: usize = 0;
    while i < receipts.len()
        invariant
            i <= receipts@.len(),
            all == receipts_view(receipts@),
            n == log_total(all.take(i as int)),
        decreases receipts@.len() - i,
    {
        let count = receipts[i].receipt().logs.len() as u64;
        proof {
            assert(all[i as int] == receipts@[i as int]@);
            lemma_log_total_monotonic(all, i as int);
            lemma_log_total_monotonic(all, i + 1);
        }
        if count > u64::MAX - n {
            return None;
        }
        n = n + count;
        i = i + 1;
    }
    assert(all.take(i as int) =~= all);
    Some(n)
}

/// Whether the event can be told.
pub fn is_tellable(input: &ServerInput) -> (r: bool)
    ensures
        r == can_tell(*input),
{
    match input {
        ServerInput::Event(ExecutionEvent::BlockProposed { transactions, receipts, .. }) => {
            transactions.len() == receipts.len() && count_logs(receipts).is_some()
        },
        _ => true,
    }
}

/// A block is told to be finalized at most once: afterwards it is not remembered.
pub proof fn lemma_finalized_block_is_forgotten(
    before: Map<BlockId, ProposedBlockView>,
    block_id: BlockId,
)
    ensures
        !before.remove(block_id).contains_key(block_id),
        forall|id: BlockId|
            id != block_id ==> (#[trigger] before.remove(block_id).contains_key(id)
                == before.contains_key(id)),
{
}

/// A block that was just proposed is remembered as it was told, so that users are told of the same
/// block when it is voted for.
pub proof fn lemma_proposed_block_is_remembered(
    before: Map<BlockId, ProposedBlockView>,
    block: ProposedBlockView,
    after: Map<BlockId, ProposedBlockView>,
    r: ServerStep,
)
    requires
        notes_proposal(before, block, after, r),
    ensures
        after.contains_key(block.block_id),
        after[block.block_id] == block,
{
}

/// When a block that was proposed is voted for or finalized, users are told just that: each part of
/// the update says so, and it is about this block, with the transactions and receipts that it was
/// proposed with.
pub proof fn lemma_users_are_told_how_far_a_block_has_come(
    block: ProposedBlockView,
    state: BlockCommitState,
    r: ServerStep,
)
    requires
        tells(r, block, state),
        is_paired(block),
    ensures
        r is Broadcast,
        r->0 is Block,
        ({
            let update = (r->0->0)@;
            &&& update.commit_state == state
            &&& update.header.commit_state == state
            &&& update.header.block_id == block.block_id
            &&& update.header.data == block.header
            &&& update.transactions.len() == block.transactions.len()
            &&& forall|i: int|
                0 <= i < update.transactions.len() ==> {
                    let tx = #[trigger] update.transactions[i];
                    &&& tx.transaction == block.transactions[i]
                    &&& tx.receipt == block.receipts[i]
                }
            &&& forall|i: int, j: int|
                0 <= i < update.transactions.len() && 0 <= j < update.transactions[i].logs.len()
                    ==> {
                    let log = #[trigger] update.transactions[i].logs[j];
                    &&& log.commit_state == state
                    &&& log.block_id == block.block_id
                    &&& log.data == block.receipts[i].inner.logs[j]
                }
        }),
{
    lemma_update_tells_one_state(block, state);
}

/// A block that is announced is told as proposed and remembered under its id, with the header, the
/// transactions and the receipts that the engine told; the blocks that were remembered before stay,
/// unless there were too many.
pub proof fn lemma_announced_block_is_told_and_remembered(
    before: Map<BlockId, ProposedBlockView>,
    block_id: BlockId,
    header: HeaderView,
    transactions: Seq<Seq<u8>>,
    infos: Seq<TxInfo>,
    receipts: Seq<(TxType, ReceiptView)>,
    hash: B256,
    after: Map<BlockId, ProposedBlockView>,
    r: ServerStep,
)
    requires
        announces(
            before,
            block_id,
            header,
            transactions,
            infos,
            receipts,
            hash,
            after,
            r,
        ),
        infos.len() == transactions.len(),
        receipts.len() == transactions.len(),
    ensures
        after.contains_key(block_id),
        tells(r, after[block_id], BlockCommitState::Proposed),
        after[block_id].block_id == block_id,
        after[block_id].header.inner == header,
        after[block_id].header.hash == hash,
        after[block_id].transactions.len() == transactions.len(),
        after[block_id].receipts.len() == receipts.len(),
        forall|i: int|
            0 <= i < transactions.len() ==> (#[trigger] after[block_id].transactions[i]).inner
                == transactions[i],
        forall|i: int|
            0 <= i < receipts.len() ==> (#[trigger] after[block_id].receipts[i]).inner.status
                == receipts[i].1.status,
        before.len() < 64 ==> forall|id: BlockId|
            id != block_id ==> #[trigger] after.contains_key(id) == before.contains_key(id) && (
            before.contains_key(id) ==> after[id] == before[id]),
        before.len() >= 64 ==> forall|id: BlockId|
            id != block_id ==> !#[trigger] after.contains_key(id),
{
    let size = choose|size: u64|
        size >= header.extra_data.len() && notes_proposal(
            before,
            #[trigger] proposed_block(
                block_id,
                header,
                transactions,
                infos,
                receipts,
                hash,
                size,
            ),
            after,
            r,
        );
    lemma_block_is_shown_as_proposed(block_id, header, transactions, infos, receipts, hash, size);
}

} // verus!
