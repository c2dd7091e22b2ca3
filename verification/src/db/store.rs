//! Where finalized state is kept, with an account of what was written there.

use vstd::prelude::*;

use crate::db::adapter::{FlushPlan, StoredBlockBodyIndices};
use crate::db::bridge::{reth_to_monad_account, stored_account, Account};
use crate::db::statesync::TableOp;
use crate::header::BlockHeader;
use crate::primitives::{Address, SeqNum, B256};
use crate::types::EthAccount;
use revm::database::states::BundleState;

verus! {

/// Where finalized state is kept. Nothing is promised of what a store gives: it may fail, and others
/// may write to it.
pub trait StateStore {
    fn account(&self, address: &Address) -> Option<Account>;

    fn slot(&self, address: &Address, slot: &B256) -> B256;

    fn code(&self, hash: &B256) -> Option<Vec<u8>>;

    fn header(&self, number: u64) -> Option<BlockHeader>;

    fn state_root(&self) -> B256;

    /// Where the transactions of the block that was stored last are, if there is one; an error if
    /// that cannot be read.
    fn last_body(&self) -> Result<Option<StoredBlockBodyIndices>, ()>;

    /// Writes finalized blocks and the state that they leave; tells whether that was written.
    fn write_chain(&self, plan: &FlushPlan, bundle: BundleState) -> bool;

    /// Changes tables; tells whether that was written.
    fn write_ops(&self, ops: Vec<TableOp>) -> bool;
}

/// Whether a store gives `r` for an account.
pub open spec fn gives_account<S: StateStore>(
    store: S,
    address: Address,
    r: Option<EthAccount>,
) -> bool {
    exists|a: Option<Account>| #[trigger]
        call_ensures(S::account, (&store, &address), a) && r == match a {
            Some(a) => Some(stored_account(a)),
            None => None,
        }
}

/// Whether a store gives `r` for a slot.
pub open spec fn gives_slot<S: StateStore>(store: S, address: Address, slot: B256, r: B256) -> bool {
    call_ensures(S::slot, (&store, &address, &slot), r)
}

/// Whether a store gives `r` for code.
pub open spec fn gives_code<S: StateStore>(store: S, hash: B256, r: Option<Vec<u8>>) -> bool {
    call_ensures(S::code, (&store, &hash), r)
}

/// Whether a store gives `r` for the header of a block.
pub open spec fn gives_stored_header<S: StateStore>(
    store: S,
    seq_num: SeqNum,
    r: Option<BlockHeader>,
) -> bool {
    call_ensures(S::header, (&store, seq_num.0), r)
}

/// Something that a store was asked to write, and whether it was written.
pub enum StoreWrite {
    Chain { plan: FlushPlan, bundle: BundleState, written: bool },
    Ops { ops: Vec<TableOp>, written: bool },
}

/// A store that is reached only through here, so that all that it is asked to write is known.
pub struct WatchedStore<S: StateStore> {
    store: S,
    writes: Ghost<Seq<StoreWrite>>,
}

impl<S: StateStore> WatchedStore<S> {
    /// The store itself.
    pub closed spec fn inner(&self) -> S {
        self.store
    }

    /// What the store was asked to write, in order.
    pub closed spec fn writes(&self) -> Seq<StoreWrite> {
        self.writes@
    }

    /// Whether `after` is the same store once it was asked for this write and no other.
    pub open spec fn asked(&self, write: StoreWrite, after: &Self) -> bool {
        &&& after.inner() == self.inner()
        &&& after.writes() == self.writes().push(write)
    }

    pub fn new(store: S) -> (r: Self)
        ensures
            r.inner() == store,
            r.writes() == Seq::<StoreWrite>::empty(),
    {
        WatchedStore { store, writes: Ghost(Seq::empty()) }
    }

    pub fn account(&self, address: &Address) -> (r: Option<EthAccount>)
        ensures
            gives_account(self.inner(), *address, r),
    {
        match self.store.account(address) {
            Some(a) => Some(reth_to_monad_account(&a)),
            None => None,
        }
    }

    pub fn slot(&self, address: &Address, slot: &B256) -> (r: B256)
        ensures
            gives_slot(self.inner(), *address, *slot, r),
    {
        self.store.slot(address, slot)
    }

    pub fn code(&self, hash: &B256) -> (r: Option<Vec<u8>>)
        ensures
            gives_code(self.inner(), *hash, r),
    {
        self.store.code(hash)
    }

    pub fn header(&self, seq_num: SeqNum) -> (r: Option<BlockHeader>)
        ensures
            gives_stored_header(self.inner(), seq_num, r),
    {
        self.store.header(seq_num.0)
    }

    pub fn state_root(&self) -> (r: B256)
        ensures
            call_ensures(S::state_root, (&self.inner(),), r),
    {
        self.store.state_root()
    }

    pub fn last_body(&self) -> (r: Result<Option<StoredBlockBodyIndices>, ()>)
        ensures
            call_ensures(S::last_body, (&self.inner(),), r),
    {
        self.store.last_body()
    }

    pub fn write_chain(&mut self, plan: &FlushPlan, bundle: BundleState) -> (r: bool)
        ensures
            call_ensures(S::write_chain, (&old(self).inner(), plan, bundle), r),
            old(self).asked(StoreWrite::Chain { plan: *plan, bundle, written: r }, final(self)),
    {
        let ghost given = bundle;
        let written = self.store.write_chain(plan, bundle);
        self.writes = Ghost(
            self.writes@.push(StoreWrite::Chain { plan: *plan, bundle: given, written }),
        );
        written
    }

    pub fn write_ops(&mut self, ops: Vec<TableOp>) -> (r: bool)
        ensures
            call_ensures(S::write_ops, (&old(self).inner(), ops), r),
            old(self).asked(StoreWrite::Ops { ops, written: r }, final(self)),
    {
        let ghost given = ops;
        let written = self.store.write_ops(ops);
        self.writes = Ghost(self.writes@.push(StoreWrite::Ops { ops: given, written }));
        written
    }
}

} // verus!
