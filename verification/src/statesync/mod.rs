//! Bringing a node's state up to date from its peers, and serving peers that do so.

pub mod client_context;
pub mod deletion_tracker;
pub mod in_process;
pub mod protocol;
pub mod server;
pub mod server_db;
pub mod session;
pub mod types;
pub mod version;

use vstd::prelude::*;

use crate::header::BlockHeader;
use crate::primitives::{Address, B256};
use crate::statesync::types::{StateSyncRequest, SyncDone, SyncUpsertType, Upsert};
use crate::text::{decimal, decimal_string};
use crate::types::EthAccount;

verus! {

/// What a server answers a request with.
#[derive(Clone, Debug)]
pub struct StateSyncResult {
    pub upserts: Vec<Upsert>,
    pub done: SyncDone,
}

/// Why a server does not answer a request.
#[derive(Clone, Debug, PartialEq, Eq)]
pub enum StateSyncError {
    InvalidRequest(String),
    VersionNotAvailable(u64),
    InternalError(String),
}

impl StateSyncError {
    /// What an error says.
    pub open spec fn spec_message(&self) -> Seq<char> {
        match *self {
            StateSyncError::InvalidRequest(m) => "invalid request: "@ + m@,
            StateSyncError::VersionNotAvailable(v) => "version not available: "@ + decimal(v as nat),
            StateSyncError::InternalError(m) => "internal error: "@ + m@,
        }
    }

    /// What an error says.
    pub fn message(&self) -> (r: String)
        ensures
            r@ == self.spec_message(),
    {
        match self {
            StateSyncError::InvalidRequest(m) => String::from_str("invalid request: ").concat(
                m.as_str(),
            ),
            StateSyncError::VersionNotAvailable(v) => String::from_str(
                "version not available: ",
            ).concat(decimal_string(*v).as_str()),
            StateSyncError::InternalError(m) => String::from_str("internal error: ").concat(
                m.as_str(),
            ),
        }
    }
}

/// Changes of state that are written together.
pub struct StateSyncBatch {
    pub accounts: Vec<(Address, Option<EthAccount>)>,
    pub storage: Vec<(Address, B256, B256)>,
    pub code: Vec<(B256, Vec<u8>)>,
}

#[verifier::ext_equal]
pub struct BatchView {
    pub accounts: Seq<(Address, Option<EthAccount>)>,
    pub storage: Seq<(Address, B256, B256)>,
    pub code: Seq<(B256, Seq<u8>)>,
}

impl View for StateSyncBatch {
    type V = BatchView;

    open spec fn view(&self) -> BatchView {
        BatchView {
            accounts: self.accounts@,
            storage: self.storage@,
            code: self.code@.map_values(|c: (B256, Vec<u8>)| (c.0, c.1@)),
        }
    }
}

impl StateSyncBatch {
    /// Nothing to write.
    pub fn new() -> (r: Self)
        ensures
            r@ == (BatchView {
                accounts: Seq::empty(),
                storage: Seq::empty(),
                code: Seq::empty(),
            }),
    {
        let r = StateSyncBatch { accounts: Vec::new(), storage: Vec::new(), code: Vec::new() };
        assert(r@.code =~= Seq::empty());
        r
    }
}

impl Default for StateSyncBatch {
    fn default() -> (r: Self)
        ensures
            r@ == (BatchView {
                accounts: Seq::empty(),
                storage: Seq::empty(),
                code: Seq::empty(),
            }),
    {
        Self::new()
    }
}

/// What answers the requests of peers.
pub trait StateSyncProvider {
    /// What holds between calls.
    spec fn wf(&self) -> bool;

    fn handle_sync_request(&self, request: &StateSyncRequest) -> (r: Result<
        StateSyncResult,
        StateSyncError,
    >)
        requires
            self.wf(),
    ;
}

/// Whether an upsert was taken.
#[derive(Clone, Copy, Debug, PartialEq, Eq, Structural)]
pub enum UpsertStatus {
    /// It was taken.
    Applied,
    /// It cannot be read.
    Rejected,
    /// The database holds what cannot be there: an account whose storage was received before it,
    /// or storage of an account that does not exist.
    Contradiction,
}

/// What takes the upserts that peers send.
pub trait StateSyncApplier {
    /// What holds between calls.
    spec fn wf(&self) -> bool;

    /// Whether `set_target` can be called with this header.
    spec fn can_target(&self, target_header: BlockHeader) -> bool;

    /// Whether `handle_done` can be called with this message.
    spec fn can_be_done(&self, done: SyncDone) -> bool;

    /// Whether `finalize` can be called.
    spec fn ready_to_finalize(&self) -> bool;

    /// Whether one more upsert can be counted.
    spec fn has_room(&self) -> bool;

    fn apply_upsert(&mut self, prefix: u64, upsert_type: SyncUpsertType, data: &[u8]) -> (r:
        UpsertStatus)
        requires
            old(self).wf(),
            old(self).has_room(),
        ensures
            final(self).wf(),
    ;

    fn set_target(&mut self, target_header: &BlockHeader)
        requires
            old(self).wf(),
            old(self).can_target(*target_header),
        ensures
            final(self).wf(),
    ;

    fn handle_done(&mut self, done: SyncDone)
        requires
            old(self).wf(),
            old(self).can_be_done(done),
        ensures
            final(self).wf(),
    ;

    fn has_reached_target(&self) -> bool
        requires
            self.wf(),
    ;

    fn finalize(&mut self) -> (r: bool)
        requires
            old(self).wf(),
            old(self).ready_to_finalize(),
        ensures
            final(self).wf(),
    ;
}

/// The state that a server reads.
pub trait StateSyncTraversable {
    fn has_version(&self, target: u64) -> bool;

    fn read_block_header_at(&self, version: u64) -> Option<Vec<u8>>;

    /// The state under `prefix`, and whether all of it could be read.
    fn traverse_state(&self, prefix: &Vec<u8>, from: u64, until: u64) -> (Vec<Upsert>, bool);
}

/// A change that was asked of the state that a client writes.
pub enum ApplyOp {
    Batch { updates: BatchView, version: u64 },
    /// `answer` is what the database answered.
    Finalize { target: u64, answer: bool },
}

/// The state that a client writes.
pub trait StateSyncApplierDb {
    /// The changes that were asked for, in order.
    spec fn applied(&self) -> Seq<ApplyOp>;

    /// Whether `after` is what becomes of the state when a change is asked of it.
    spec fn applies(&self, op: ApplyOp, after: &Self) -> bool;

    fn get_latest_version(&self) -> u64;

    fn read_account(&self, addr: &Address) -> Option<EthAccount>;

    fn read_storage(&self, addr: &Address, key: &B256) -> B256;

    fn apply_batch(&mut self, updates: StateSyncBatch, version: u64)
        ensures
            final(self).applied() == old(self).applied().push(
                ApplyOp::Batch { updates: updates@, version },
            ),
            old(self).applies(ApplyOp::Batch { updates: updates@, version }, final(self)),
    ;

    fn finalize_statesync(&mut self, target: u64) -> (r: bool)
        ensures
            final(self).applied() == old(self).applied().push(
                ApplyOp::Finalize { target, answer: r },
            ),
            old(self).applies(ApplyOp::Finalize { target, answer: r }, final(self)),
    ;

    fn state_root(&self) -> B256;

    fn code_exists(&self, hash: &B256) -> bool;
}

/// What a batch says is what it holds.
pub proof fn lemma_batch_says_what_it_holds(b: StateSyncBatch, i: int)
    ensures
        b@.accounts == b.accounts@,
        b@.storage == b.storage@,
        b@.code.len() == b.code@.len(),
        0 <= i < b.code@.len() ==> b@.code[i] == (b.code@[i].0, b.code@[i].1@),
{
}

} // verus!
