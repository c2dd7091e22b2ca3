//! What the engine tells about the blocks it executes.

use vstd::prelude::*;

use crate::header::{BlockHeader, HeaderView};
use crate::primitives::{BlockId, SeqNum, B256};
use crate::transactions::{
    receipts_view, txs_view, ReceiptEnvelope, ReceiptView, TxEnvelope, TxType,
};

verus! {

/// How far a block has come.
#[derive(Copy, Clone, Debug, PartialEq, Eq, Structural)]
pub enum BlockCommitState {
    Proposed,
    Voted,
    Finalized,
    Verified,
}

/// What happened to a block.
#[derive(Clone, Debug)]
pub enum ExecutionEvent {
    /// A proposed block was executed.
    BlockProposed {
        seq_num: SeqNum,
        block_id: BlockId,
        parent_id: BlockId,
        header: BlockHeader,
        transactions: Vec<TxEnvelope>,
        receipts: Vec<ReceiptEnvelope>,
        eth_block_hash: B256,
    },
    /// A block was voted for.
    BlockVoted { seq_num: SeqNum, block_id: BlockId },
    /// A block was finalized.
    BlockFinalized { seq_num: SeqNum, block_id: BlockId },
    /// The execution of a block was verified.
    BlockVerified { seq_num: SeqNum },
}

/// What an event says.
pub enum EventView {
    Proposed {
        seq_num: SeqNum,
        block_id: BlockId,
        parent_id: BlockId,
        header: HeaderView,
        transactions: Seq<Seq<u8>>,
        receipts: Seq<(TxType, ReceiptView)>,
        eth_block_hash: B256,
    },
    Voted { seq_num: SeqNum, block_id: BlockId },
    Finalized { seq_num: SeqNum, block_id: BlockId },
    Verified { seq_num: SeqNum },
}

impl View for ExecutionEvent {
    type V = EventView;

    open spec fn view(&self) -> EventView {
        match *self {
            ExecutionEvent::BlockProposed {
                seq_num,
                block_id,
                parent_id,
                header,
                transactions,
                receipts,
                eth_block_hash,
            } => EventView::Proposed {
                seq_num,
                block_id,
                parent_id,
                header: header@,
                transactions: txs_view(transactions@),
                receipts: receipts_view(receipts@),
                eth_block_hash,
            },
            ExecutionEvent::BlockVoted { seq_num, block_id } => EventView::Voted {
                seq_num,
                block_id,
            },
            ExecutionEvent::BlockFinalized { seq_num, block_id } => EventView::Finalized {
                seq_num,
                block_id,
            },
            ExecutionEvent::BlockVerified { seq_num } => EventView::Verified { seq_num },
        }
    }
}

/// What a list of events says.
pub open spec fn events_view(events: Seq<ExecutionEvent>) -> Seq<EventView> {
    events.map_values(|e: ExecutionEvent| e@)
}

/// What an event says is what it holds.
pub proof fn lemma_event_says_what_it_holds(e: ExecutionEvent)
    ensures
        e is BlockProposed ==> {
            &&& e@ is Proposed
            &&& e@->Proposed_seq_num == e->BlockProposed_seq_num
            &&& e@->Proposed_block_id == e->BlockProposed_block_id
            &&& e@->Proposed_parent_id == e->BlockProposed_parent_id
            &&& e@->Proposed_header == e->BlockProposed_header@
            &&& e@->Proposed_transactions == txs_view(e->BlockProposed_transactions@)
            &&& e@->Proposed_receipts == receipts_view(e->BlockProposed_receipts@)
            &&& e@->Proposed_eth_block_hash == e->BlockProposed_eth_block_hash
        },
        e is BlockVoted ==> e@ == (EventView::Voted {
            seq_num: e->BlockVoted_seq_num,
            block_id: e->BlockVoted_block_id,
        }),
        e is BlockFinalized ==> e@ == (EventView::Finalized {
            seq_num: e->BlockFinalized_seq_num,
            block_id: e->BlockFinalized_block_id,
        }),
        e is BlockVerified ==> e@ == (EventView::Verified { seq_num: e->BlockVerified_seq_num }),
{
}

/// A list of events says what each of them says, in order.
pub proof fn lemma_events_say_what_each_says(events: Seq<ExecutionEvent>, i: int)
    requires
        0 <= i < events.len(),
    ensures
        events_view(events).len() == events.len(),
        events_view(events)[i] == events[i]@,
{
}

} // verus!
