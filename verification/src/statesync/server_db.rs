//! A database that remembers deletions, so that they can be served to peers.

use vstd::prelude::*;

use crate::bundle::{extract_deletions_from_bundle, is_bundle_deletion, Bundle, BundleView};
use crate::header::BlockHeader;
use crate::primitives::{Address, BlockId, SeqNum, B256};
use crate::statesync::deletion_tracker::{
    can_finalize, lemma_finalized_deletions_are_remembered, lemma_pending_blocks_are_above,
    log_after_finalize, pending_after, pending_position, pending_without, DeletionLog, FinalizedDeletions, Pending, ProposedDeletions,
};
use crate::statesync::server::{answers_request, handle_sync_request};
use crate::statesync::types::{Deletion, StateSyncRequest};
use crate::statesync::{
    StateSyncError, StateSyncProvider, StateSyncResult, StateSyncTraversable,
};
use crate::traits::{DbOp, ExecutionDb};
use crate::transactions::{ReceiptEnvelope, TxEnvelope};
use crate::types::EthAccount;

verus! {

/// A database, and the deletions of the blocks that were committed and finalized on it.
pub struct StateSyncServerDb<D: ExecutionDb> {
    inner: D,
    proposed_deletions: ProposedDeletions,
    finalized_deletions: FinalizedDeletions,
}

impl<D: ExecutionDb> StateSyncServerDb<D> {
    pub closed spec fn spec_inner(&self) -> D {
        self.inner
    }

    /// The deletions of the blocks that are not finalized yet.
    pub closed spec fn pending(&self) -> Seq<Pending> {
        self.proposed_deletions@
    }

    /// The deletions of the finalized blocks.
    pub closed spec fn log(&self) -> DeletionLog {
        self.finalized_deletions.log()
    }

    /// A database on top of `inner`, with no deletions yet.
    pub fn new(inner: D) -> (r: Self)
        requires
            inner.wf(),
        ensures
            r.wf(),
            r.spec_inner() == inner,
            r.pending() == Seq::<Pending>::empty(),
            r.log() == DeletionLog::empty(),
    {
        StateSyncServerDb {
            inner,
            proposed_deletions: ProposedDeletions::new(),
            finalized_deletions: FinalizedDeletions::new(),
        }
    }

    /// The deletions of the finalized blocks.
    pub fn finalized_deletions(&self) -> (r: &FinalizedDeletions)
        requires
            self.wf(),
        ensures
            r.wf(),
            r.log() == self.log(),
    {
        &self.finalized_deletions
    }
}

/// Whether `after` are the deletions of the blocks that are not finalized yet, once a block was
/// committed: every deletion of the block once, in some order, behind those before.
pub open spec fn keeps_deletions(
    before: Seq<Pending>,
    seq_num: SeqNum,
    block_id: BlockId,
    bundle: BundleView,
    after: Seq<Pending>,
) -> bool {
    &&& after.len() == before.len() + 1
    &&& after.drop_last() == before
    &&& after.last().seq_num == seq_num
    &&& after.last().block_id == block_id
    &&& after.last().deletions.no_duplicates()
    &&& forall|d: Deletion| #[trigger]
        after.last().deletions.contains(d) <==> is_bundle_deletion(bundle.state, d)
}

impl<D: ExecutionDb> ExecutionDb for StateSyncServerDb<D> {
    open spec fn history(&self) -> Seq<DbOp> {
        self.spec_inner().history()
    }

    open spec fn becomes(&self, op: DbOp, after: &Self) -> bool {
        &&& self.spec_inner().becomes(op, &after.spec_inner())
        &&& match op {
            DbOp::Commit { block_id, header, bundle, .. } => {
                &&& after.log() == self.log()
                &&& keeps_deletions(
                    self.pending(),
                    SeqNum(header.number),
                    block_id,
                    bundle,
                    after.pending(),
                )
            },
            DbOp::Finalize { seq_num, block_id } => {
                &&& after.log() == log_after_finalize(self.pending(), self.log(), seq_num, block_id)
                &&& after.pending() == pending_after(
                    pending_without(self.pending(), pending_position(self.pending(), block_id, 0)),
                    seq_num,
                )
            },
            _ => after.log() == self.log() && after.pending() == self.pending(),
        }
    }

    proof fn lemma_is_recorded(&self, op: DbOp, after: &Self) {
        self.inner.lemma_is_recorded(op, &after.inner);
    }

    closed spec fn wf(&self) -> bool {
        self.inner.wf() && self.finalized_deletions.wf()
    }

    open spec fn finalizable(&self, seq_num: SeqNum, block_id: BlockId) -> bool {
        &&& self.spec_inner().finalizable(seq_num, block_id)
        &&& can_finalize(self.pending(), self.log(), seq_num, block_id)
    }

    fn has_executed(&self, block_id: &BlockId, seq_num: SeqNum) -> (r: bool)
        ensures
            call_ensures(D::has_executed, (&self.spec_inner(), block_id, seq_num), r),
    {
        self.inner.has_executed(block_id, seq_num)
    }

    fn get_latest_finalized_version(&self) -> (r: SeqNum)
        ensures
            call_ensures(D::get_latest_finalized_version, (&self.spec_inner(),), r),
    {
        self.inner.get_latest_finalized_version()
    }

    fn read_account(&self, address: &Address) -> (r: Option<EthAccount>)
        ensures
            call_ensures(D::read_account, (&self.spec_inner(), address), r),
    {
        self.inner.read_account(address)
    }

    fn read_storage(&self, address: &Address, slot: &B256) -> (r: B256)
        ensures
            call_ensures(D::read_storage, (&self.spec_inner(), address, slot), r),
    {
        self.inner.read_storage(address, slot)
    }

    fn read_code(&self, code_hash: &B256) -> (r: Option<Vec<u8>>)
        ensures
            call_ensures(D::read_code, (&self.spec_inner(), code_hash), r),
    {
        self.inner.read_code(code_hash)
    }

    fn read_eth_header(&self) -> (r: BlockHeader)
        ensures
            call_ensures(D::read_eth_header, (&self.spec_inner(),), r),
    {
        self.inner.read_eth_header()
    }

    fn set_block_and_prefix(&mut self, seq_num: SeqNum, block_id: BlockId)
        ensures
            final(self).pending() == old(self).pending(),
            final(self).log() == old(self).log(),
    {
        self.inner.set_block_and_prefix(seq_num, block_id);
    }

    /// Commits a block, and keeps what it deletes until it is finalized.
    fn commit(
        &mut self,
        block_id: BlockId,
        header: &BlockHeader,
        bundle: Bundle,
        receipts: &Vec<ReceiptEnvelope>,
        transactions: &Vec<TxEnvelope>,
    )
        ensures
            final(self).log() == old(self).log(),
            keeps_deletions(
                old(self).pending(),
                SeqNum(header.number),
                block_id,
                bundle@,
                final(self).pending(),
            ),
    {
        let deletions = extract_deletions_from_bundle(&bundle);
        self.proposed_deletions.push(SeqNum(header.number), block_id, deletions);
        self.inner.commit(block_id, header, bundle, receipts, transactions);
        assert(self.pending().drop_last() =~= old(self).pending());
    }

    fn can_finalize(&self, seq_num: SeqNum, block_id: BlockId) -> (r: bool) {
        self.inner.can_finalize(seq_num, block_id) && self.proposed_deletions.can_finalize(
            &self.finalized_deletions,
            seq_num,
            block_id,
        )
    }

    /// Finalizes a block, and moves what it deletes to the deletions that are served.
    fn finalize(&mut self, seq_num: SeqNum, block_id: BlockId)
        ensures
            final(self).log() == log_after_finalize(
                old(self).pending(),
                old(self).log(),
                seq_num,
                block_id,
            ),
            final(self).pending() == pending_after(
                pending_without(
                    old(self).pending(),
                    pending_position(old(self).pending(), block_id, 0),
                ),
                seq_num,
            ),
    {
        self.proposed_deletions.on_finalize(&mut self.finalized_deletions, seq_num, block_id);
        self.inner.finalize(seq_num, block_id);
    }

    fn update_voted_metadata(&mut self, seq_num: SeqNum, block_id: BlockId)
        ensures
            final(self).pending() == old(self).pending(),
            final(self).log() == old(self).log(),
    {
        self.inner.update_voted_metadata(seq_num, block_id);
    }

    fn update_proposed_metadata(&mut self, seq_num: SeqNum, block_id: BlockId)
        ensures
            final(self).pending() == old(self).pending(),
            final(self).log() == old(self).log(),
    {
        self.inner.update_proposed_metadata(seq_num, block_id);
    }

    fn update_verified_block(&mut self, seq_num: SeqNum)
        ensures
            final(self).pending() == old(self).pending(),
            final(self).log() == old(self).log(),
    {
        self.inner.update_verified_block(seq_num);
    }
}

/// What answers the requests of peers while the node runs.
pub struct LiveStateSyncProvider<'a, T: StateSyncTraversable> {
    db: &'a T,
    deletions: &'a FinalizedDeletions,
}

impl<'a, T: StateSyncTraversable> LiveStateSyncProvider<'a, T> {
    pub closed spec fn spec_db(&self) -> T {
        *self.db
    }

    pub closed spec fn spec_deletions(&self) -> FinalizedDeletions {
        *self.deletions
    }

    pub fn new(db: &'a T, deletions: &'a FinalizedDeletions) -> (r: Self)
        ensures
            r.spec_db() == *db,
            r.spec_deletions() == *deletions,
    {
        LiveStateSyncProvider { db, deletions }
    }
}

impl<'a, T: StateSyncTraversable> StateSyncProvider for LiveStateSyncProvider<'a, T> {
    open spec fn wf(&self) -> bool {
        self.spec_deletions().wf()
    }

    fn handle_sync_request(&self, request: &StateSyncRequest) -> (r: Result<
        StateSyncResult,
        StateSyncError,
    >)
        ensures
            answers_request(r, *request, &self.spec_db(), self.spec_deletions().log()),
    {
        handle_sync_request(request, self.db, self.deletions)
    }
}

/// What a block deletes, of all that it changes, is remembered as pending when it is committed, under
/// its number and id; what was pending before stays.
pub proof fn lemma_committed_deletions_are_pending<D: ExecutionDb>(
    db: StateSyncServerDb<D>,
    block_id: BlockId,
    op: DbOp,
    after: StateSyncServerDb<D>,
    d: Deletion,
)
    requires
        op is Commit,
        op->Commit_block_id == block_id,
        db.becomes(op, &after),
    ensures
        after.pending().len() == db.pending().len() + 1,
        after.pending().drop_last() == db.pending(),
        after.pending().last().block_id == block_id,
        after.pending().last().seq_num == SeqNum(op->Commit_header.number),
        after.pending().last().deletions.contains(d) <==> is_bundle_deletion(
            op->Commit_bundle.state,
            d,
        ),
        after.log() == db.log(),
{
}

/// What a block deleted can be sent to peers once the block is finalized: it is then remembered under
/// its number, and only blocks above it are still pending.
pub proof fn lemma_finalized_deletions_can_be_sent<D: ExecutionDb>(
    db: StateSyncServerDb<D>,
    op: DbOp,
    after: StateSyncServerDb<D>,
    i: int,
)
    requires
        op is Finalize,
        db.becomes(op, &after),
        db.log().valid(),
        db.log().continued_by(op->Finalize_seq_num.0),
        0 <= i < db.pending().len(),
        db.pending()[i].block_id == op->Finalize_block_id,
        forall|j: int|
            0 <= j < i ==> (#[trigger] db.pending()[j]).block_id != op->Finalize_block_id,
        db.pending()[i].deletions.len() <= 2_000_000,
    ensures
        after.log().blocks.contains_key(op->Finalize_seq_num.0),
        after.log().blocks[op->Finalize_seq_num.0] == db.pending()[i].deletions,
        forall|p: Pending| #[trigger]
            after.pending().contains(p) ==> p.seq_num.0 > op->Finalize_seq_num.0,
{
    lemma_finalized_deletions_are_remembered(db.pending(), db.log(), op->Finalize_seq_num, i);
    let rest = pending_without(
        db.pending(),
        pending_position(db.pending(), op->Finalize_block_id, 0),
    );
    assert forall|p: Pending| #[trigger] after.pending().contains(p) implies p.seq_num.0
        > op->Finalize_seq_num.0 by {
        lemma_pending_blocks_are_above(rest, op->Finalize_seq_num, p);
    }
}

} // verus!
