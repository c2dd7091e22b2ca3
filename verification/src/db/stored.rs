//! The database with its storage, as blocks are executed on it.

use vstd::prelude::*;

use crate::bundle::{executed, valid_code, Bundle};
use crate::db::adapter::{
    block_rows, lemma_stored_row_is_the_block, next_tx_num, receipt_rows, rows_view, stored_view, tx_total, DbView, FinalizePlan,
    FlushPlan, RethExecutionDb, StoredBlockBodyIndices,
};
use crate::db::merge::{bundle_contents, has_valid_code, merge_chain, merged};
use crate::db::overlay::{
    account_at, bytes_of, chain_ends, code_at, lemma_finite_chain_reads_end, lookup_ends, slot_at,
    StagedView,
};
use crate::db::store::{
    gives_account, gives_code, gives_slot, gives_stored_header, StateStore, StoreWrite, WatchedStore,
};
use crate::header::{default_header, header_hash, BlockHeader};
use crate::keymap::{BlockKey, SlotKey};
use crate::primitives::{Address, BlockId, SeqNum, B256};
use crate::statesync::ApplyOp;
use crate::traits::{reached, DbOp, ExecutionDb};
use crate::transactions::{receipts_view, txs_view, ReceiptEnvelope, TxEnvelope};
use crate::types::EthAccount;
use revm::database::states::BundleState;

verus! {

/// A database with its storage.
pub struct StoredExecutionDb<S: StateStore> {
    pub db: RethExecutionDb,
    pub store: WatchedStore<S>,
    pub ops: Ghost<Seq<DbOp>>,
    pub apply_ops: Ghost<Seq<ApplyOp>>,
}

/// Whether a plan and a bundle are what is written to finalize a chain of blocks, where `last` tells
/// where the transactions of the block that was stored last are.
pub open spec fn writes_chain(
    chain: Seq<StagedView>,
    last: Option<StoredBlockBodyIndices>,
    plan: FlushPlan,
    bundle: BundleState,
) -> bool {
    &&& plan.first_block == chain[0].seq.0
    &&& plan.last_block == chain.last().seq.0
    &&& rows_view(plan.rows@) == block_rows(chain, next_tx_num(last))
    &&& stored_view(plan.receipts@) == receipt_rows(chain)
    &&& bundle_contents(bundle) == merged(chain)
}

/// Whether all code that a chain of blocks deploys can be kept.
pub open spec fn keeps_code(chain: Seq<StagedView>) -> bool {
    forall|i: int| 0 <= i < chain.len() ==> has_valid_code((#[trigger] chain[i]).bundle)
}

/// Whether `after` and `store_after` are what becomes of a database and its storage when a block is
/// finalized: its chain is all that is written, and once that is written its blocks are no longer
/// proposed. A chain that is empty, that has too many transactions to be numbered, that deploys code
/// which cannot be kept, or whose place in storage cannot be read writes and changes nothing. One
/// that storage does not take changes nothing.
pub open spec fn finalizes_stored<S: StateStore>(
    before: DbView,
    store: WatchedStore<S>,
    seq_num: SeqNum,
    block_id: BlockId,
    after: DbView,
    store_after: WatchedStore<S>,
) -> bool {
    let chain = before.chain(BlockKey { seq: seq_num, id: block_id });
    if chain.len() == 0 {
        after == before && store_after == store
    } else {
        exists|last: Result<Option<StoredBlockBodyIndices>, ()>| #[trigger]
            call_ensures(S::last_body, (&store.inner(),), last) && match last {
                Err(_) => after == before && store_after == store,
                Ok(last) => if next_tx_num(last) + tx_total(chain) > u64::MAX || !keeps_code(chain) {
                    after == before && store_after == store
                } else {
                    exists|plan: FlushPlan, bundle: BundleState, written: bool|
                        {
                            &&& #[trigger] call_ensures(
                                S::write_chain,
                                (&store.inner(), &plan, bundle),
                                written,
                            )
                            &&& writes_chain(chain, last, plan, bundle)
                            &&& store.asked(
                                StoreWrite::Chain { plan, bundle, written },
                                &store_after,
                            )
                            &&& after == if written {
                                before.finalized(seq_num)
                            } else {
                                before
                            }
                        }
                },
            }
    }
}

impl<S: StateStore> StoredExecutionDb<S> {
    /// A database on storage whose highest block is `last`, with the hash that is stored for it.
    pub fn open(store: WatchedStore<S>, last: Option<u64>, canonical_hash: Option<B256>) -> (r:
        Self)
        ensures
            r.store == store,
            r.db@.blocks == Map::<BlockKey, StagedView>::empty(),
            r.db@.latest_finalized == SeqNum(
                match last {
                    Some(n) => n,
                    None => 0,
                },
            ),
            r.db@.latest_verified == r.db@.latest_finalized,
            r.db@.current == (BlockKey {
                seq: r.db@.latest_finalized,
                id: if r.db@.latest_finalized.0 > 0 && canonical_hash is Some {
                    BlockId(canonical_hash->0)
                } else {
                    BlockId(B256::spec_zero())
                },
            }),
            r.history() == Seq::<DbOp>::empty(),
            r.apply_ops@ == Seq::<ApplyOp>::empty(),
    {
        StoredExecutionDb {
            db: RethExecutionDb::recover(last, canonical_hash),
            store,
            ops: Ghost(Seq::empty()),
            apply_ops: Ghost(Seq::empty()),
        }
    }

    /// Whether the proposed blocks can be read: the way from the selected block back to the
    /// finalized ones ends.
    pub open spec fn is_readable(&self) -> bool {
        self.db@.chain_is_finite(self.db@.current)
    }

    proof fn lemma_reads_end<V>(&self, f: spec_fn(StagedView) -> Option<V>)
        requires
            self.is_readable(),
        ensures
            self.db@.read_ends(f),
    {
        let v = self.db@;
        let n = choose|n: nat| chain_ends(v.blocks, v.current, v.latest_finalized, n);
        lemma_finite_chain_reads_end(v.blocks, v.current, v.latest_finalized, f, n);
        assert(lookup_ends(v.blocks, v.current, v.latest_finalized, f, n));
    }
}

impl<S: StateStore> ExecutionDb for StoredExecutionDb<S> {
    open spec fn history(&self) -> Seq<DbOp> {
        self.ops@
    }

    open spec fn becomes(&self, op: DbOp, after: &Self) -> bool {
        &&& after.ops@ == self.ops@.push(op)
        &&& after.apply_ops == self.apply_ops
        &&& match op {
            DbOp::Finalize { seq_num, block_id } => finalizes_stored(
                self.db@,
                self.store,
                seq_num,
                block_id,
                after.db@,
                after.store,
            ),
            _ => after.store == self.store,
        }
        &&& match op {
            DbOp::SetBlock { seq_num, block_id } => after.db@ == (DbView {
                current: BlockKey { seq: seq_num, id: block_id },
                ..self.db@
            }),
            DbOp::Commit { block_id, header, bundle, receipts, transactions } => after.db@
                == self.db@.committed(block_id, header, bundle, receipts, transactions),
            DbOp::Verified { seq_num } => after.db@ == (DbView {
                latest_verified: seq_num,
                ..self.db@
            }),
            DbOp::Voted { .. } | DbOp::Proposed { .. } => after.db@ == self.db@,
            DbOp::Finalize { .. } => true,
        }
    }

    proof fn lemma_is_recorded(&self, op: DbOp, after: &Self) {
    }

    open spec fn wf(&self) -> bool {
        true
    }

    /// A block whose way back to the finalized ones ends.
    open spec fn finalizable(&self, seq_num: SeqNum, block_id: BlockId) -> bool {
        self.db@.chain_is_finite(BlockKey { seq: seq_num, id: block_id })
    }

    fn has_executed(&self, block_id: &BlockId, seq_num: SeqNum) -> (r: bool)
        ensures
            r == (self.db@.blocks.contains_key(BlockKey { seq: seq_num, id: *block_id })
                || seq_num.0 <= self.db@.latest_finalized.0),
    {
        self.db.has_executed(block_id, seq_num)
    }

    fn get_latest_finalized_version(&self) -> (r: SeqNum)
        ensures
            r == self.db@.latest_finalized,
    {
        self.db.get_latest_finalized_version()
    }

    /// An account. Where the proposed blocks form a circle, storage is read.
    fn read_account(&self, address: &Address) -> (r: Option<EthAccount>)
        ensures
            if self.is_readable() && self.db@.staged(account_at(*address)) is Some {
                r == self.db@.staged(account_at(*address))->0
            } else {
                gives_account(self.store.inner(), *address, r)
            },
    {
        let store = &self.store;
        if !self.db.reads_end() {
            return store.account(address);
        }
        proof {
            self.lemma_reads_end(account_at(*address));
        }
        let persisted = |a: &Address| -> (r: Option<EthAccount>)
            ensures
                gives_account(store.inner(), *a, r),
            { store.account(a) };
        self.db.read_account(address, persisted)
    }

    /// The value of a slot. Where the proposed blocks form a circle, storage is read.
    fn read_storage(&self, address: &Address, slot: &B256) -> (r: B256)
        ensures
            ({
                let staged = self.db@.staged(slot_at(SlotKey { address: *address, slot: *slot }));
                if self.is_readable() && staged is Some {
                    r == staged->0
                } else {
                    gives_slot(self.store.inner(), *address, *slot, r)
                }
            }),
    {
        let store = &self.store;
        if !self.db.reads_end() {
            return store.slot(address, slot);
        }
        proof {
            self.lemma_reads_end(slot_at(SlotKey { address: *address, slot: *slot }));
        }
        let persisted = |a: &Address, s: &B256| -> (r: B256)
            ensures
                gives_slot(store.inner(), *a, *s, r),
            { store.slot(a, s) };
        self.db.read_storage(address, slot, persisted)
    }

    /// Code as it is executed. Where the proposed blocks form a circle, storage is read.
    fn read_code(&self, code_hash: &B256) -> (r: Option<Vec<u8>>)
        ensures
            if self.is_readable() && self.db@.staged(code_at(*code_hash)) is Some {
                bytes_of(r) == Some(executed(self.db@.staged(code_at(*code_hash))->0))
            } else {
                gives_code(self.store.inner(), *code_hash, r)
            },
    {
        let store = &self.store;
        if !self.db.reads_end() {
            return store.code(code_hash);
        }
        proof {
            self.lemma_reads_end(code_at(*code_hash));
        }
        let persisted = |h: &B256| -> (r: Option<Vec<u8>>)
            ensures
                gives_code(store.inner(), *h, r),
            { store.code(h) };
        self.db.read_code(code_hash, persisted)
    }

    fn read_eth_header(&self) -> (r: BlockHeader)
        ensures
            if self.db@.blocks.contains_key(self.db@.current) {
                r@ == self.db@.blocks[self.db@.current].header
            } else {
                gives_stored_header(self.store.inner(), self.db@.current.seq, Some(r)) || (
                gives_stored_header(self.store.inner(), self.db@.current.seq, None) && r@
                    == default_header())
            },
    {
        let store = &self.store;
        let persisted = |seq_num: SeqNum| -> (r: Option<BlockHeader>)
            ensures
                gives_stored_header(store.inner(), seq_num, r),
            { store.header(seq_num) };
        self.db.read_eth_header(persisted)
    }

    fn set_block_and_prefix(&mut self, seq_num: SeqNum, block_id: BlockId) {
        self.db.set_block_and_prefix(seq_num, block_id);
        self.ops = Ghost(self.ops@.push(DbOp::SetBlock { seq_num, block_id }));
    }

    fn commit(
        &mut self,
        block_id: BlockId,
        header: &BlockHeader,
        bundle: Bundle,
        receipts: &Vec<ReceiptEnvelope>,
        transactions: &Vec<TxEnvelope>,
    ) {
        let ghost op = DbOp::Commit {
            block_id,
            header: header@,
            bundle: bundle@,
            receipts: receipts_view(receipts@),
            transactions: txs_view(transactions@),
        };
        self.db.commit(block_id, header, bundle, receipts, transactions);
        self.ops = Ghost(self.ops@.push(op));
    }

    fn can_finalize(&self, seq_num: SeqNum, block_id: BlockId) -> (r: bool) {
        self.db.chain_is_finite(seq_num, block_id)
    }

    fn finalize(&mut self, seq_num: SeqNum, block_id: BlockId) {
        let ghost k = BlockKey { seq: seq_num, id: block_id };
        let ghost chain = self.db@.chain(k);
        let ghost store = self.store;
        self.ops = Ghost(self.ops@.push(DbOp::Finalize { seq_num, block_id }));
        let staged = self.db.chain(seq_num, block_id);
        if staged.len() == 0 {
            assert(chain.len() == 0);
            return;
        }
        assert(chain.len() == staged@.len());
        let found = self.store.last_body();
        let last = match found {
            Ok(last) => last,
            Err(_) => {
                assert(call_ensures(S::last_body, (&self.store.inner(),), found));
                return;
            },
        };
        assert(call_ensures(S::last_body, (&self.store.inner(),), Ok(last)));
        match self.db.plan_finalize(seq_num, block_id, last) {
            FinalizePlan::Flush(plan) => match merge_chain(&staged) {
                Some(bundle) => {
                    assert(keeps_code(chain)) by {
                        assert forall|i: int| 0 <= i < chain.len() implies has_valid_code(
                            (#[trigger] chain[i]).bundle,
                        ) by {
                            assert(chain[i] == staged@[i]@);
                        }
                    }
                    let ghost given = bundle;
                    assert(writes_chain(chain, last, plan, given));
                    let written = self.store.write_chain(&plan, bundle);
                    assert(call_ensures(S::write_chain, (&store.inner(), &plan, given), written));
                    if written {
                        self.db.complete_finalize(seq_num);
                    }
                },
                None => {
                    proof {
                        let i = choose|i: int|
                            0 <= i < staged@.len() && !has_valid_code(
                                (#[trigger] staged@[i])@.bundle,
                            );
                        assert(chain[i] == staged@[i]@);
                        assert(!keeps_code(chain));
                    }
                },
            },
            _ => {},
        }
    }

    fn update_voted_metadata(&mut self, seq_num: SeqNum, block_id: BlockId) {
        self.ops = Ghost(self.ops@.push(DbOp::Voted { seq_num, block_id }));
    }

    fn update_proposed_metadata(&mut self, seq_num: SeqNum, block_id: BlockId) {
        self.ops = Ghost(self.ops@.push(DbOp::Proposed { seq_num, block_id }));
    }

    fn update_verified_block(&mut self, seq_num: SeqNum) {
        self.db.update_verified_block(seq_num);
        self.ops = Ghost(self.ops@.push(DbOp::Verified { seq_num }));
    }
}

/// Until a block is finalized nothing is written to storage, however many blocks are executed.
pub proof fn lemma_only_finalizing_writes<S: StateStore>(
    db: StoredExecutionDb<S>,
    ops: Seq<DbOp>,
    after: StoredExecutionDb<S>,
)
    requires
        reached(db, ops, after),
        forall|i: int| 0 <= i < ops.len() ==> !((#[trigger] ops[i]) is Finalize),
    ensures
        after.store == db.store,
    decreases ops.len(),
{
    if ops.len() > 0 {
        let mid = choose|mid: StoredExecutionDb<S>|
            reached(db, ops.drop_last(), mid) && #[trigger] mid.becomes(ops.last(), &after);
        lemma_only_finalizing_writes(db, ops.drop_last(), mid);
        assert(!(ops[ops.len() - 1] is Finalize));
    }
}

/// Finalizing a block writes at most once, and what it writes are the blocks of its chain: a row for
/// each, with its number, its header and the hash of its header, and its receipts. The blocks count as
/// finalized exactly if that was written.
pub proof fn lemma_finalizing_writes_the_chain<S: StateStore>(
    before: DbView,
    store: WatchedStore<S>,
    seq_num: SeqNum,
    block_id: BlockId,
    after: DbView,
    store_after: WatchedStore<S>,
    i: int,
)
    requires
        finalizes_stored(before, store, seq_num, block_id, after, store_after),
        store_after.writes() != store.writes(),
        0 <= i < before.chain(BlockKey { seq: seq_num, id: block_id }).len(),
    ensures
        store_after.writes().len() == store.writes().len() + 1,
        store_after.writes().drop_last() == store.writes(),
        store_after.writes().last() is Chain,
        ({
            let chain = before.chain(BlockKey { seq: seq_num, id: block_id });
            let plan = store_after.writes().last()->Chain_plan;
            let written = store_after.writes().last()->Chain_written;
            &&& plan.first_block == chain[0].seq.0
            &&& plan.last_block == chain.last().seq.0
            &&& plan.rows@.len() == chain.len()
            &&& plan.rows@[i].number == chain[i].seq.0
            &&& plan.rows@[i].header@ == chain[i].header
            &&& plan.rows@[i].hash == header_hash(chain[i].header)
            &&& plan.rows@[i].tx_count == chain[i].transactions.len()
            &&& plan.receipts@.len() == chain.len()
            &&& plan.receipts@[i]@.len() == chain[i].receipts.len()
            &&& bundle_contents(store_after.writes().last()->Chain_bundle) == merged(chain)
            &&& written ==> after.latest_finalized == seq_num
            &&& !written ==> after == before
        }),
{
    let chain = before.chain(BlockKey { seq: seq_num, id: block_id });
    let last = choose|last: Result<Option<StoredBlockBodyIndices>, ()>| #[trigger]
        call_ensures(S::last_body, (&store.inner(),), last) && match last {
            Err(_) => after == before && store_after == store,
            Ok(last) => if next_tx_num(last) + tx_total(chain) > u64::MAX || !keeps_code(chain) {
                after == before && store_after == store
            } else {
                exists|plan: FlushPlan, bundle: BundleState, written: bool|
                    {
                        &&& #[trigger] call_ensures(
                            S::write_chain,
                            (&store.inner(), &plan, bundle),
                            written,
                        )
                        &&& writes_chain(chain, last, plan, bundle)
                        &&& store.asked(StoreWrite::Chain { plan, bundle, written }, &store_after)
                        &&& after == if written {
                            before.finalized(seq_num)
                        } else {
                            before
                        }
                    }
            },
        };
    let indices = last->Ok_0;
    let (plan, bundle, written) = choose|plan: FlushPlan, bundle: BundleState, written: bool|
        {
            &&& #[trigger] call_ensures(
                S::write_chain,
                (&store.inner(), &plan, bundle),
                written,
            )
            &&& writes_chain(chain, indices, plan, bundle)
            &&& store.asked(StoreWrite::Chain { plan, bundle, written }, &store_after)
            &&& after == if written {
                before.finalized(seq_num)
            } else {
                before
            }
        };
    assert(store_after.writes().drop_last() =~= store.writes());
    let next = next_tx_num(indices);
    lemma_stored_row_is_the_block(chain, next, i);
    assert(rows_view(plan.rows@)[i] == plan.rows@[i]@);
    assert(rows_view(plan.rows@).len() == plan.rows@.len());
    assert(stored_view(plan.receipts@).len() == plan.receipts@.len());
    assert(stored_view(plan.receipts@)[i].len() == plan.receipts@[i]@.len());
    assert(receipt_rows(chain)[i].len() == chain[i].receipts.len());
}

/// A chain that is not empty, whose transactions can be numbered and whose code can be kept is written,
/// unless storage cannot tell where its transactions end.
pub proof fn lemma_chain_is_written_if_it_can_be<S: StateStore>(
    before: DbView,
    store: WatchedStore<S>,
    seq_num: SeqNum,
    block_id: BlockId,
    after: DbView,
    store_after: WatchedStore<S>,
)
    requires
        finalizes_stored(before, store, seq_num, block_id, after, store_after),
        before.chain(BlockKey { seq: seq_num, id: block_id }).len() > 0,
        forall|i: int, h: B256|
            0 <= i < before.chain(BlockKey { seq: seq_num, id: block_id }).len()
                && #[trigger] before.chain(
                BlockKey { seq: seq_num, id: block_id },
            )[i].bundle.contracts.contains_key(h) ==> valid_code(
                before.chain(BlockKey { seq: seq_num, id: block_id })[i].bundle.contracts[h],
            ),
        forall|last: Result<Option<StoredBlockBodyIndices>, ()>| #[trigger]
            call_ensures(S::last_body, (&store.inner(),), last) ==> last is Ok && next_tx_num(
                last->Ok_0,
            ) + tx_total(before.chain(BlockKey { seq: seq_num, id: block_id })) <= u64::MAX,
    ensures
        store_after.writes().len() == store.writes().len() + 1,
        store_after.inner() == store.inner(),
{
    let chain = before.chain(BlockKey { seq: seq_num, id: block_id });
    assert(keeps_code(chain));
}

/// A block that leads back to no proposed block is finalized without a write, and so is one whose chain
/// has code that cannot be kept; neither changes anything.
pub proof fn lemma_nothing_is_written_without_a_chain<S: StateStore>(
    before: DbView,
    store: WatchedStore<S>,
    seq_num: SeqNum,
    block_id: BlockId,
    after: DbView,
    store_after: WatchedStore<S>,
)
    requires
        finalizes_stored(before, store, seq_num, block_id, after, store_after),
        before.chain(BlockKey { seq: seq_num, id: block_id }).len() == 0 || exists|i: int, h: B256|
            0 <= i < before.chain(BlockKey { seq: seq_num, id: block_id }).len()
                && #[trigger] before.chain(
                BlockKey { seq: seq_num, id: block_id },
            )[i].bundle.contracts.contains_key(h) && !valid_code(
                before.chain(BlockKey { seq: seq_num, id: block_id })[i].bundle.contracts[h],
            ),
    ensures
        after == before,
        store_after == store,
{
    let chain = before.chain(BlockKey { seq: seq_num, id: block_id });
    if chain.len() > 0 {
        let (i, h) = choose|i: int, h: B256|
            0 <= i < chain.len() && #[trigger] chain[i].bundle.contracts.contains_key(h)
                && !valid_code(chain[i].bundle.contracts[h]);
        assert(!has_valid_code(chain[i].bundle));
        assert(!keeps_code(chain));
    }
}

/// What is asked of a database with storage is what it does: the block that is selected is the one that
/// was asked for, a block that is committed is proposed on top of it, a block that is verified is noted,
/// and votes and proposals change nothing. None of this is written to storage.
pub proof fn lemma_database_does_what_is_asked<S: StateStore>(
    db: StoredExecutionDb<S>,
    op: DbOp,
    after: StoredExecutionDb<S>,
)
    requires
        db.becomes(op, &after),
        !(op is Finalize),
    ensures
        after.store == db.store,
        after.db@.latest_finalized == db.db@.latest_finalized,
        op is SetBlock ==> after.db@.current.seq == op->SetBlock_seq_num && after.db@.current.id
            == op->SetBlock_block_id,
        !(op is SetBlock) ==> after.db@.current == db.db@.current,
        op is Verified ==> after.db@.latest_verified == op->Verified_seq_num,
        !(op is Verified) ==> after.db@.latest_verified == db.db@.latest_verified,
        !(op is Commit) ==> after.db@.blocks == db.db@.blocks,
        op is Commit ==> {
            let key = BlockKey {
                seq: SeqNum(op->Commit_header.number),
                id: op->Commit_block_id,
            };
            &&& after.db@.blocks.contains_key(key)
            &&& after.db@.blocks[key].parent == db.db@.current
            &&& after.db@.blocks[key].header == op->Commit_header
            &&& after.db@.blocks[key].bundle == op->Commit_bundle
            &&& after.db@.blocks[key].receipts == op->Commit_receipts
            &&& after.db@.blocks[key].transactions == op->Commit_transactions
            &&& forall|k: BlockKey|
                k != key ==> (#[trigger] after.db@.blocks.contains_key(k)
                    == db.db@.blocks.contains_key(k)) && (db.db@.blocks.contains_key(k)
                    ==> after.db@.blocks[k] == db.db@.blocks[k])
        },
        after.history() == db.history().push(op),
{
}

/// When a block is finalized and its chain was written, exactly the blocks above it are still proposed.
pub proof fn lemma_finalized_blocks_are_no_longer_proposed<S: StateStore>(
    db: StoredExecutionDb<S>,
    seq_num: SeqNum,
    block_id: BlockId,
    after: StoredExecutionDb<S>,
    k: BlockKey,
)
    requires
        db.becomes(DbOp::Finalize { seq_num, block_id }, &after),
    ensures
        after.db@ == db.db@ || {
            &&& after.db@.latest_finalized == seq_num
            &&& after.db@.current == db.db@.current
            &&& after.db@.blocks.contains_key(k) <==> db.db@.blocks.contains_key(k) && k.seq.0
                > seq_num.0
            &&& after.db@.blocks.contains_key(k) ==> after.db@.blocks[k] == db.db@.blocks[k]
        },
        after.store.writes().len() <= db.store.writes().len() + 1,
{
}

} // verus!
