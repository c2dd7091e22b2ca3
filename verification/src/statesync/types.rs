//! The messages of the state sync protocol.

use vstd::prelude::*;

use crate::primitives::{Address, B256};
use crate::statesync::version::STATESYNC_VERSION;

verus! {

/// What a client asks of a server: the state under `prefix` that changed in the blocks `from` to
/// `until`, on the way to the block `target`.
#[derive(Clone, Copy, Debug, PartialEq, Eq, Structural)]
pub struct StateSyncRequest {
    pub prefix: u64,
    pub prefix_bytes: u8,
    pub target: u64,
    pub from: u64,
    pub until: u64,
    pub old_target: u64,
}

/// A request as it travels to a server, with the version of the protocol that its client speaks.
#[derive(Clone, Copy, Debug, PartialEq, Eq, Structural)]
pub struct NetworkRequest {
    pub version: u32,
    pub body: StateSyncRequest,
}

/// A request of this node as it travels to a server.
pub fn to_network_request(request: &StateSyncRequest) -> (r: NetworkRequest)
    ensures
        r == (NetworkRequest { version: STATESYNC_VERSION, body: *request }),
{
    NetworkRequest { version: STATESYNC_VERSION, body: *request }
}

/// The end of a server's answer: the state under `prefix` is complete up to block `n`.
#[derive(Clone, Copy, Debug, PartialEq, Eq, Structural)]
pub struct SyncDone {
    pub success: bool,
    pub prefix: u64,
    pub n: u64,
}

/// An account that was deleted, or one storage slot of it.
#[derive(Clone, Copy, Debug)]
pub struct Deletion {
    pub address: Address,
    pub key: Option<B256>,
}

/// What an upsert changes.
#[derive(Clone, Copy, Debug, PartialEq, Eq, Structural)]
pub enum SyncUpsertType {
    Code,
    Account,
    Storage,
    AccountDelete,
    StorageDelete,
    Header,
}

/// One change of state, as it is sent.
pub type Upsert = (SyncUpsertType, Vec<u8>);

} // verus!
