//! The database with its storage, as a client writes the state that it receives to it.

use vstd::prelude::*;

use crate::db::adapter::DbView;
use crate::db::statesync::{batch_ops, ops_view, plan_batch, TableOp};
use crate::db::store::{gives_account, gives_code, gives_slot, StateStore, StoreWrite};
use crate::db::stored::StoredExecutionDb;
use crate::primitives::{Address, SeqNum, B256};
use crate::statesync::{ApplyOp, BatchView, StateSyncApplierDb, StateSyncBatch};
use crate::types::EthAccount;

verus! {

impl<S: StateStore> StateSyncApplierDb for StoredExecutionDb<S> {
    open spec fn applied(&self) -> Seq<ApplyOp> {
        self.apply_ops@
    }

    open spec fn applies(&self, op: ApplyOp, after: &Self) -> bool {
        &&& after.apply_ops@ == self.apply_ops@.push(op)
        &&& after.ops == self.ops
        &&& match op {
            ApplyOp::Batch { updates, .. } => {
                &&& after.db@ == self.db@
                &&& exists|ops: Vec<TableOp>, written: bool|
                    {
                        &&& #[trigger] call_ensures(
                            S::write_ops,
                            (&self.store.inner(), ops),
                            written,
                        )
                        &&& ops_view(ops@) == batch_ops(updates)
                        &&& self.store.asked(StoreWrite::Ops { ops, written }, &after.store)
                    }
            },
            ApplyOp::Finalize { target, answer } => {
                &&& answer
                &&& after.store == self.store
                &&& after.db@ == (DbView { latest_finalized: SeqNum(target), ..self.db@ })
            },
        }
    }

    fn get_latest_version(&self) -> (r: u64)
        ensures
            r == self.db@.latest_finalized.0,
    {
        self.db.latest_finalized().0
    }

    fn read_account(&self, addr: &Address) -> (r: Option<EthAccount>)
        ensures
            gives_account(self.store.inner(), *addr, r),
    {
        self.store.account(addr)
    }

    fn read_storage(&self, addr: &Address, key: &B256) -> (r: B256)
        ensures
            gives_slot(self.store.inner(), *addr, *key, r),
    {
        self.store.slot(addr, key)
    }

    /// Writes a batch to storage, in one go.
    fn apply_batch(&mut self, updates: StateSyncBatch, version: u64) {
        let ghost u = updates@;
        let ops = plan_batch(&updates);
        let ghost given = ops;
        let ghost store = self.store;
        let written = self.store.write_ops(ops);
        assert(call_ensures(S::write_ops, (&store.inner(), given), written));
        self.apply_ops = Ghost(self.apply_ops@.push(ApplyOp::Batch { updates: u, version }));
    }

    fn finalize_statesync(&mut self, target: u64) -> (r: bool)
        ensures
            r,
    {
        let r = self.db.finalize_statesync(target);
        self.apply_ops = Ghost(self.apply_ops@.push(ApplyOp::Finalize { target, answer: true }));
        r
    }

    fn state_root(&self) -> (r: B256)
        ensures
            call_ensures(S::state_root, (&self.store.inner(),), r),
    {
        self.store.state_root()
    }

    fn code_exists(&self, hash: &B256) -> (r: bool)
        ensures
            exists|c: Option<Vec<u8>>| #[trigger] gives_code(self.store.inner(), *hash, c) && r == (c is Some),
    {
        let c = self.store.code(hash);
        assert(gives_code(self.store.inner(), *hash, c));
        c.is_some()
    }
}

/// A batch is written to storage once, as a whole: every account, slot and piece of code of it, each in
/// its table, and nothing else. The proposed blocks stay as they are.
pub proof fn lemma_batch_is_the_only_write<S: StateStore>(
    db: StoredExecutionDb<S>,
    updates: BatchView,
    version: u64,
    after: StoredExecutionDb<S>,
)
    requires
        db.applies(ApplyOp::Batch { updates, version }, &after),
    ensures
        after.db@ == db.db@,
        after.store.writes().len() == db.store.writes().len() + 1,
        after.store.writes().drop_last() == db.store.writes(),
        after.store.writes().last() is Ops,
        ops_view(after.store.writes().last()->Ops_ops@) == batch_ops(updates),
        after.applied() == db.applied().push(ApplyOp::Batch { updates, version }),
        after.ops@ == db.ops@,
{
    let (ops, written) = choose|ops: Vec<TableOp>, written: bool|
        {
            &&& #[trigger] call_ensures(S::write_ops, (&db.store.inner(), ops), written)
            &&& ops_view(ops@) == batch_ops(updates)
            &&& db.store.asked(StoreWrite::Ops { ops, written }, &after.store)
        };
    assert(after.store.writes().drop_last() =~= db.store.writes());
}

/// Once a target was reached, it is the latest finalized block; nothing is written for that.
pub proof fn lemma_reached_target_is_the_latest_block<S: StateStore>(
    db: StoredExecutionDb<S>,
    target: u64,
    answer: bool,
    after: StoredExecutionDb<S>,
)
    requires
        db.applies(ApplyOp::Finalize { target, answer }, &after),
    ensures
        answer,
        after.db@.latest_finalized.0 == target,
        after.db@.blocks == db.db@.blocks,
        after.db@.current == db.db@.current,
        after.store == db.store,
{
}

} // verus!
