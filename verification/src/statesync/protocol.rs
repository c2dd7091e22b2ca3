//! How a client merges the upserts that it receives.

use vstd::prelude::*;

use crate::hashing::{keccak256_bytes, keccak_v256};
use crate::header::{decode_header, decoded_header, BlockHeader, HeaderView};
use crate::keymap::KeyMap;
use crate::primitives::{
    be_bytes, be_digits, be_u64, be_value, bytes_at, lemma_be_bytes_len, lemma_be_value_of_bytes,
    lemma_bytes_at, lemma_pow256_8, Address, B256, U256,
};
use crate::statesync::types::{StateSyncRequest, SyncUpsertType, Upsert};
use crate::statesync::{StateSyncApplierDb, UpsertStatus};
use crate::types::EthAccount;

verus! {

/// How many upserts are taken between two commits.
pub const COMMIT_INTERVAL: u64 = 1_048_576;

/// What was received of an account.
pub struct AccountDelta {
    pub account: Option<EthAccount>,
    pub storage: KeyMap<B256, B256>,
}

/// What was received and not committed yet.
pub struct SyncProtocolState {
    /// Accounts that changed; none where the account was deleted.
    pub deltas: KeyMap<Address, Option<AccountDelta>>,
    /// Storage of accounts that were not received yet.
    pub buffered: KeyMap<Address, KeyMap<B256, B256>>,
    pub code: KeyMap<B256, Vec<u8>>,
    /// The code hashes of the accounts that were received.
    pub seen_code: KeyMap<B256, ()>,
    /// Headers, by their number modulo 256.
    pub headers: Vec<Option<BlockHeader>>,
    pub n_upserts: u64,
    pub needs_commit: bool,
    /// Upserts that have to wait for the next commit.
    pub pending_retry: Vec<Upsert>,
}

#[verifier::ext_equal]
pub struct AccountDeltaView {
    pub account: Option<EthAccount>,
    pub storage: Map<B256, B256>,
}

#[verifier::ext_equal]
pub struct ProtocolView {
    pub deltas: Map<Address, Option<AccountDeltaView>>,
    pub buffered: Map<Address, Map<B256, B256>>,
    pub code: Map<B256, Seq<u8>>,
    pub seen_code: Set<B256>,
    pub headers: Seq<Option<HeaderView>>,
    pub n_upserts: u64,
    pub needs_commit: bool,
    pub pending_retry: Seq<(SyncUpsertType, Seq<u8>)>,
}

impl View for AccountDelta {
    type V = AccountDeltaView;

    open spec fn view(&self) -> AccountDeltaView {
        AccountDeltaView { account: self.account, storage: self.storage@ }
    }
}

pub open spec fn delta_view(d: Option<AccountDelta>) -> Option<AccountDeltaView> {
    match d {
        Some(d) => Some(d@),
        None => None,
    }
}

pub open spec fn header_view(h: Option<BlockHeader>) -> Option<HeaderView> {
    match h {
        Some(h) => Some(h@),
        None => None,
    }
}

/// What a list of upserts says.
pub open spec fn upserts_view(upserts: Seq<Upsert>) -> Seq<(SyncUpsertType, Seq<u8>)> {
    upserts.map_values(|u: Upsert| (u.0, u.1@))
}

impl View for SyncProtocolState {
    type V = ProtocolView;

    open spec fn view(&self) -> ProtocolView {
        ProtocolView {
            deltas: self.deltas@.map_values(|d: Option<AccountDelta>| delta_view(d)),
            buffered: self.buffered@.map_values(|m: KeyMap<B256, B256>| m@),
            code: self.code@.map_values(|c: Vec<u8>| c@),
            seen_code: self.seen_code@.dom(),
            headers: self.headers@.map_values(|h: Option<BlockHeader>| header_view(h)),
            n_upserts: self.n_upserts,
            needs_commit: self.needs_commit,
            pending_retry: upserts_view(self.pending_retry@),
        }
    }
}

impl ProtocolView {
    pub open spec fn empty() -> ProtocolView {
        ProtocolView {
            deltas: Map::empty(),
            buffered: Map::empty(),
            code: Map::empty(),
            seen_code: Set::empty(),
            headers: Seq::new(256, |i: int| None),
            n_upserts: 0,
            needs_commit: false,
            pending_retry: Seq::empty(),
        }
    }

    /// Whether what was received has to be committed.
    pub open spec fn should_commit(self) -> bool {
        self.needs_commit || (self.n_upserts > 0 && self.n_upserts % COMMIT_INTERVAL == 0)
    }

    /// One more upsert was taken.
    pub open spec fn counted(self) -> ProtocolView {
        let n = (self.n_upserts + 1) as u64;
        ProtocolView {
            n_upserts: n,
            needs_commit: self.needs_commit || n % COMMIT_INTERVAL == 0,
            ..self
        }
    }

    /// The code hash of an account was seen. The hash zero stands for no code.
    pub open spec fn see_code(self, account: Option<EthAccount>) -> ProtocolView {
        match account {
            Some(acct) => match acct.code_hash {
                Some(hash) => if hash == B256::spec_zero() {
                    self
                } else {
                    ProtocolView { seen_code: self.seen_code.insert(hash), ..self }
                },
                None => self,
            },
            None => self,
        }
    }

    /// What is known of an account: its address and, unless it is deleted, the account.
    pub open spec fn with_delta(self, addr: Address, delta: Option<AccountDeltaView>) -> ProtocolView {
        ProtocolView { deltas: self.deltas.insert(addr, delta), ..self }
    }

    /// An account was received, or that it was deleted. `in_db` tells whether the database has it.
    ///
    /// Storage that was received before its account joins it. An account that is deleted and
    /// created again within one commit waits until the deletion is committed.
    pub open spec fn account_update(
        self,
        addr: Address,
        account: Option<EthAccount>,
        in_db: bool,
    ) -> ProtocolView {
        let s = self.see_code(account);
        if s.buffered.contains_key(addr) {
            let t = ProtocolView { buffered: s.buffered.remove(addr), ..s };
            match account {
                Some(acct) => t.with_delta(
                    addr,
                    Some(AccountDeltaView { account: Some(acct), storage: s.buffered[addr] }),
                ),
                None => t,
            }
        } else if !s.deltas.contains_key(addr) {
            match account {
                Some(acct) => s.with_delta(
                    addr,
                    Some(AccountDeltaView { account: Some(acct), storage: Map::empty() }),
                ),
                None => if in_db {
                    s.with_delta(addr, None)
                } else {
                    s
                },
            }
        } else {
            match (account, s.deltas[addr]) {
                (Some(acct), None) => ProtocolView {
                    needs_commit: true,
                    pending_retry: s.pending_retry.push(
                        (SyncUpsertType::Account, account_bytes(addr, acct)),
                    ),
                    ..s
                },
                (Some(acct), Some(delta)) => s.with_delta(
                    addr,
                    Some(AccountDeltaView { account: Some(acct), ..delta }),
                ),
                (None, _) => if in_db {
                    s.with_delta(addr, None)
                } else {
                    ProtocolView { deltas: s.deltas.remove(addr), ..s }
                },
            }
        }
    }

    /// Whether what the database has agrees with what was received of an account: an account whose
    /// storage is buffered is neither in the database nor changed.
    pub open spec fn agrees(self, addr: Address, in_db: bool) -> bool {
        self.buffered.contains_key(addr) ==> !in_db && !self.deltas.contains_key(addr)
    }

    /// Storage of an account that is not known yet is kept aside; zero takes it away again.
    pub open spec fn buffer(self, addr: Address, key: B256, value: B256) -> ProtocolView {
        let slots = if self.buffered.contains_key(addr) {
            self.buffered[addr]
        } else {
            Map::empty()
        };
        if value != B256::spec_zero() {
            ProtocolView { buffered: self.buffered.insert(addr, slots.insert(key, value)), ..self }
        } else if slots.remove(key).dom() == Set::<B256>::empty() {
            ProtocolView { buffered: self.buffered.remove(addr), ..self }
        } else {
            ProtocolView { buffered: self.buffered.insert(addr, slots.remove(key)), ..self }
        }
    }

    /// A storage slot was received; zero stands for a slot that was deleted. `in_db` and
    /// `stored` are what the database has of the account and of the slot.
    pub open spec fn storage_update(
        self,
        addr: Address,
        key: B256,
        value: B256,
        in_db: Option<EthAccount>,
        stored: B256,
    ) -> ProtocolView {
        let zero = B256::spec_zero();
        if self.buffered.contains_key(addr) {
            self.buffer(addr, key, value)
        } else if value != zero || stored != zero {
            if self.deltas.contains_key(addr) {
                match self.deltas[addr] {
                    Some(delta) => self.with_delta(
                        addr,
                        Some(
                            AccountDeltaView { storage: delta.storage.insert(key, value), ..delta },
                        ),
                    ),
                    None => if value != zero {
                        ProtocolView { needs_commit: true, ..self.buffer(addr, key, value) }
                    } else {
                        self
                    },
                }
            } else {
                match in_db {
                    Some(acct) => self.with_delta(
                        addr,
                        Some(
                            AccountDeltaView {
                                account: Some(acct),
                                storage: Map::empty().insert(key, value),
                            },
                        ),
                    ),
                    None => self.buffer(addr, key, value),
                }
            }
        } else if self.deltas.contains_key(addr) {
            match self.deltas[addr] {
                Some(delta) => self.with_delta(
                    addr,
                    Some(AccountDeltaView { storage: delta.storage.remove(key), ..delta }),
                ),
                None => self,
            }
        } else {
            self
        }
    }

    /// Whether what the database has agrees with a storage slot that was received: a slot that is
    /// deleted belongs to an account that exists.
    pub open spec fn storage_agrees(
        self,
        addr: Address,
        value: B256,
        in_db: Option<EthAccount>,
        stored: B256,
    ) -> bool {
        if self.buffered.contains_key(addr) {
            self.agrees(addr, in_db is Some)
        } else {
            in_db is None && !self.deltas.contains_key(addr) && value == B256::spec_zero()
                ==> stored == B256::spec_zero()
        }
    }
}

/// An account in 92 bytes: its address, nonce, balance and code hash.
pub open spec fn account_bytes(addr: Address, acct: EthAccount) -> Seq<u8> {
    addr@ + be_bytes(acct.nonce as nat, 8) + acct.balance.0@ + (match acct.code_hash {
        Some(h) => h@,
        None => B256::spec_zero()@,
    })
}

/// An account in 92 bytes: its address, nonce, balance and code hash.
pub fn encode_account(addr: Address, acct: &EthAccount) -> (r: Vec<u8>)
    ensures
        r@ == account_bytes(addr, *acct),
{
    let mut data: Vec<u8> = Vec::new();
    data.extend_from_slice(addr.as_slice());
    let nonce = be_digits(acct.nonce, 8);
    data.extend_from_slice(nonce.as_slice());
    data.extend_from_slice(acct.balance.0.as_slice());
    let hash = match acct.code_hash {
        Some(h) => h,
        None => B256::zero(),
    };
    data.extend_from_slice(hash.as_slice());
    assert(data@ =~= account_bytes(addr, *acct));
    data
}

/// The account that some bytes spell: as much of it as there are bytes for.
pub open spec fn decoded_account(data: Seq<u8>) -> Option<(Address, EthAccount)> {
    if data.len() < 20 {
        None
    } else {
        Some(
            (
                bytes_at::<20>(data, 0),
                EthAccount {
                    nonce: if data.len() >= 28 {
                        be_value(data.subrange(20, 28)) as u64
                    } else {
                        0
                    },
                    balance: if data.len() >= 60 {
                        U256(bytes_at::<32>(data, 28))
                    } else {
                        U256(B256::spec_zero())
                    },
                    code_hash: if data.len() >= 92 {
                        Some(bytes_at::<32>(data, 60))
                    } else {
                        None
                    },
                    is_delegated: false,
                },
            ),
        )
    }
}

/// The account that some bytes spell.
pub fn decode_account_db(data: &[u8]) -> (r: Option<(Address, EthAccount)>)
    ensures
        r == decoded_account(data@),
{
    if data.len() < 20 {
        return None;
    }
    let addr = Address::from_slice_at(data, 0);
    let nonce: u64 = if data.len() >= 28 {
        be_u64(data, 20)
    } else {
        0
    };
    let balance = if data.len() >= 60 {
        U256(B256::from_slice_at(data, 28))
    } else {
        U256(B256::zero())
    };
    let code_hash = if data.len() >= 92 {
        Some(B256::from_slice_at(data, 60))
    } else {
        None
    };
    Some((addr, EthAccount { nonce, balance, code_hash, is_delegated: false }))
}

/// An account that was written reads back, with the hash zero where it has no code.
pub proof fn lemma_account_round_trip(addr: Address, acct: EthAccount)
    ensures
        decoded_account(account_bytes(addr, acct)) == Some(
            (
                addr,
                EthAccount {
                    code_hash: Some(
                        match acct.code_hash {
                            Some(h) => h,
                            None => B256::spec_zero(),
                        },
                    ),
                    is_delegated: false,
                    ..acct
                },
            ),
        ),
{
    let data = account_bytes(addr, acct);
    let hash = match acct.code_hash {
        Some(h) => h,
        None => B256::spec_zero(),
    };
    lemma_be_bytes_len(acct.nonce as nat, 8);
    assert(data.len() == 92);
    assert(data.subrange(0, 20) =~= addr@);
    lemma_bytes_at(data, 0, addr);
    assert(data.subrange(20, 28) =~= be_bytes(acct.nonce as nat, 8));
    lemma_pow256_8();
    lemma_be_value_of_bytes(acct.nonce as nat, 8);
    assert(data.subrange(28, 60) =~= acct.balance.0@);
    lemma_bytes_at(data, 28, acct.balance.0);
    assert(data.subrange(60, 92) =~= hash@);
    lemma_bytes_at(data, 60, hash);
}

/// The storage slot and value that some bytes spell, from `from` on: zero where there are no bytes
/// for the value.
pub open spec fn decoded_storage(data: Seq<u8>, from: int) -> Option<(B256, B256)> {
    if data.len() < from + 32 {
        None
    } else {
        Some(
            (
                bytes_at::<32>(data, from),
                if data.len() >= from + 64 {
                    bytes_at::<32>(data, from + 32)
                } else {
                    B256::spec_zero()
                },
            ),
        )
    }
}

/// The storage slot and value that some bytes spell, from `from` on.
fn decode_storage_at(data: &[u8], from: usize) -> (r: Option<(B256, B256)>)
    requires
        from <= data@.len(),
    ensures
        r == decoded_storage(data@, from as int),
{
    if data.len() - from < 32 {
        return None;
    }
    let key = B256::from_slice_at(data, from);
    let value = if data.len() - from >= 64 {
        B256::from_slice_at(data, from + 32)
    } else {
        B256::zero()
    };
    Some((key, value))
}

/// The storage slot and value that some bytes spell.
pub fn decode_storage_db(data: &[u8]) -> (r: Option<(B256, B256)>)
    ensures
        r == decoded_storage(data@, 0),
{
    decode_storage_at(data, 0)
}

/// The storage slot that some bytes spell, from `from` on.
pub open spec fn decoded_key(data: Seq<u8>, from: int) -> Option<B256> {
    if data.len() < from + 32 {
        None
    } else {
        Some(bytes_at::<32>(data, from))
    }
}

fn decode_key_at(data: &[u8], from: usize) -> (r: Option<B256>)
    requires
        from <= data@.len(),
    ensures
        r == decoded_key(data@, from as int),
{
    if data.len() - from < 32 {
        return None;
    }
    Some(B256::from_slice_at(data, from))
}

/// The storage slot that some bytes spell.
pub fn decode_storage_key(data: &[u8]) -> (r: Option<B256>)
    ensures
        r == decoded_key(data@, 0),
{
    decode_key_at(data, 0)
}

/// A storage key as it is sent.
pub fn encode_bytes32_compact(key: &B256) -> (r: Vec<u8>)
    ensures
        r@ == key@,
{
    vstd::slice::slice_to_vec(key.as_slice())
}

/// A storage key that is sent reads back.
pub proof fn lemma_storage_key_round_trip(key: B256)
    ensures
        decoded_key(key@, 0) == Some(key),
{
    assert(key@.subrange(0, 32) =~= key@);
    lemma_bytes_at(key@, 0, key);
}

/// The header that some bytes spell, if they spell one.
pub fn decode_block_header_from_bytes(data: &[u8]) -> (r: Option<BlockHeader>)
    ensures
        match r {
            Some(h) => decoded_header(data@) == Some(h@),
            None => decoded_header(data@) is None,
        },
{
    decode_header(data)
}

/// The request that a client makes next for a prefix, from the block after the one it has up to
/// the target. Far from the target it stops short of it, at 99 hundredths of it.
pub open spec fn next_request(
    prefix: u64,
    prefix_bytes: u8,
    target: u64,
    progress: u64,
    old_target: u64,
) -> StateSyncRequest {
    let from = if progress == u64::MAX {
        0
    } else {
        progress + 1
    };
    let near = target as int * 99 / 100;
    StateSyncRequest {
        prefix,
        prefix_bytes,
        target,
        from: from as u64,
        until: if from >= near {
            target
        } else {
            near as u64
        },
        old_target,
    }
}

/// The request that a client makes next for a prefix.
pub fn build_sync_request(
    prefix: u64,
    prefix_bytes: u8,
    target: u64,
    progress: u64,
    old_target: u64,
) -> (r: StateSyncRequest)
    requires
        target * 99 <= u64::MAX,
    ensures
        r == next_request(prefix, prefix_bytes, target, progress, old_target),
{
    let from: u64 = if progress == u64::MAX {
        0
    } else {
        progress + 1
    };
    let near: u64 = target * 99 / 100;
    let until: u64 = if from >= near {
        target
    } else {
        near
    };
    StateSyncRequest { prefix, prefix_bytes, target, from, until, old_target }
}

/// What an upsert brings.
#[derive(Clone, Copy, Debug)]
pub enum Received {
    Code,
    Account(Address, Option<EthAccount>),
    Storage(Address, B256, B256),
    Header,
}

/// What an upsert brings, if it can be read.
pub open spec fn parsed(upsert_type: SyncUpsertType, data: Seq<u8>) -> Option<Received> {
    match upsert_type {
        SyncUpsertType::Code => Some(Received::Code),
        SyncUpsertType::Account => match decoded_account(data) {
            Some((addr, account)) => Some(Received::Account(addr, Some(account))),
            None => None,
        },
        SyncUpsertType::Storage => if data.len() < 20 {
            None
        } else {
            match decoded_storage(data, 20) {
                Some((key, value)) => Some(
                    Received::Storage(bytes_at::<20>(data, 0), key, value),
                ),
                None => None,
            }
        },
        SyncUpsertType::AccountDelete => if data.len() != 20 {
            None
        } else {
            Some(Received::Account(bytes_at::<20>(data, 0), None))
        },
        SyncUpsertType::StorageDelete => if data.len() < 20 {
            None
        } else {
            match decoded_key(data, 20) {
                Some(key) => Some(
                    Received::Storage(bytes_at::<20>(data, 0), key, B256::spec_zero()),
                ),
                None => None,
            }
        },
        SyncUpsertType::Header => match decoded_header(data) {
            Some(_) => Some(Received::Header),
            None => None,
        },
    }
}

/// What an upsert brings, if it can be read.
pub fn parse_upsert(upsert_type: SyncUpsertType, data: &[u8]) -> (r: Option<Received>)
    ensures
        r == parsed(upsert_type, data@),
{
    match upsert_type {
        SyncUpsertType::Code => Some(Received::Code),
        SyncUpsertType::Account => match decode_account_db(data) {
            Some((addr, account)) => Some(Received::Account(addr, Some(account))),
            None => None,
        },
        SyncUpsertType::Storage => {
            if data.len() < 20 {
                return None;
            }
            let addr = Address::from_slice_at(data, 0);
            match decode_storage_at(data, 20) {
                Some((key, value)) => Some(Received::Storage(addr, key, value)),
                None => None,
            }
        },
        SyncUpsertType::AccountDelete => {
            if data.len() != 20 {
                return None;
            }
            Some(Received::Account(Address::from_slice_at(data, 0), None))
        },
        SyncUpsertType::StorageDelete => {
            if data.len() < 20 {
                return None;
            }
            let addr = Address::from_slice_at(data, 0);
            match decode_key_at(data, 20) {
                Some(key) => Some(Received::Storage(addr, key, B256::zero())),
                None => None,
            }
        },
        SyncUpsertType::Header => match decode_block_header_from_bytes(data) {
            Some(_) => Some(Received::Header),
            None => None,
        },
    }
}

impl ProtocolView {
    /// A header came in: it takes the place of its number modulo 256.
    pub open spec fn with_header(self, header: HeaderView) -> ProtocolView {
        ProtocolView {
            headers: self.headers.update(header.number as int % 256, Some(header)),
            ..self
        }
    }

    /// An upsert came in. `in_db` and `stored` are what the database has of its account and of its
    /// slot. One that cannot be read, or that contradicts the database, brings nothing; of those, a
    /// header that cannot be read is counted all the same.
    pub open spec fn upsert(
        self,
        upsert_type: SyncUpsertType,
        data: Seq<u8>,
        in_db: Option<EthAccount>,
        stored: B256,
    ) -> (UpsertStatus, ProtocolView) {
        match parsed(upsert_type, data) {
            None => (
                UpsertStatus::Rejected,
                if upsert_type is Header {
                    self.counted()
                } else {
                    self
                },
            ),
            Some(Received::Code) => (
                UpsertStatus::Applied,
                ProtocolView { code: self.code.insert(keccak_v256(data), data), ..self }.counted(),
            ),
            Some(Received::Account(addr, account)) => if self.agrees(addr, in_db is Some) {
                (
                    UpsertStatus::Applied,
                    self.account_update(addr, account, in_db is Some).counted(),
                )
            } else {
                (UpsertStatus::Contradiction, self)
            },
            Some(Received::Storage(addr, key, value)) => if self.storage_agrees(
                addr,
                value,
                in_db,
                stored,
            ) {
                (
                    UpsertStatus::Applied,
                    self.storage_update(addr, key, value, in_db, stored).counted(),
                )
            } else {
                (UpsertStatus::Contradiction, self)
            },
            Some(Received::Header) => (
                UpsertStatus::Applied,
                self.with_header(decoded_header(data)->0).counted(),
            ),
        }
    }
}

impl SyncProtocolState {
    /// Nothing received.
    pub fn new() -> (r: Self)
        ensures
            r@ == ProtocolView::empty(),
    {
        let mut headers: Vec<Option<BlockHeader>> = Vec::new();
        let mut i: usize = 0;
        while i < 256
            invariant
                i <= 256,
                headers@.len() == i,
                forall|j: int| 0 <= j < i ==> (#[trigger] headers@[j]) is None,
            decreases 256 - i,
        {
            headers.push(None);
            i = i + 1;
        }
        let r = SyncProtocolState {
            deltas: KeyMap::new(),
            buffered: KeyMap::new(),
            code: KeyMap::new(),
            seen_code: KeyMap::new(),
            headers,
            n_upserts: 0,
            needs_commit: false,
            pending_retry: Vec::new(),
        };
        assert(r@ =~= ProtocolView::empty());
        r
    }

    /// Whether what was received has to be committed.
    pub fn should_commit(&self) -> (r: bool)
        ensures
            r == self@.should_commit(),
    {
        self.needs_commit || (self.n_upserts > 0 && self.n_upserts % COMMIT_INTERVAL == 0)
    }

    /// What was received is committed.
    pub fn clear_commit_flag(&mut self)
        ensures
            final(self)@ == (ProtocolView { needs_commit: false, ..old(self)@ }),
    {
        self.needs_commit = false;
    }

    fn see_code(&mut self, account: &Option<EthAccount>)
        ensures
            final(self)@ == old(self)@.see_code(*account),
    {
        if let Some(acct) = account {
            if let Some(hash) = acct.code_hash {
                if hash != B256::zero() {
                    self.seen_code.insert(hash, ());
                    assert(self@.seen_code =~= old(self)@.seen_code.insert(hash));
                    assert(self@ =~= old(self)@.see_code(*account));
                }
            }
        }
    }

    fn set_delta(&mut self, addr: Address, delta: Option<AccountDelta>)
        ensures
            final(self)@ == old(self)@.with_delta(addr, delta_view(delta)),
    {
        self.deltas.insert(addr, delta);
        assert(self@.deltas =~= old(self)@.deltas.insert(addr, delta_view(delta)));
        assert(self@ =~= old(self)@.with_delta(addr, delta_view(delta)));
    }

    /// Merges an account that was received, or that it was deleted.
    pub fn account_update(&mut self, addr: Address, account: Option<EthAccount>, in_db: bool)
        requires
            old(self)@.agrees(addr, in_db),
        ensures
            final(self)@ == old(self)@.account_update(addr, account, in_db),
    {
        self.see_code(&account);
        let ghost s = self@;
        assert(s.deltas == old(self)@.deltas && s.buffered == old(self)@.buffered);
        let aside = self.buffered.remove(&addr);
        assert(self@.buffered =~= s.buffered.remove(addr));
        if let Some(storage) = aside {
            if let Some(acct) = account {
                self.set_delta(addr, Some(AccountDelta { account: Some(acct), storage }));
            }
            return;
        }
        assert(self@.buffered =~= s.buffered);
        assert(self@ =~= s);
        let existing = self.deltas.remove(&addr);
        assert(self@.deltas =~= s.deltas.remove(addr));
        match existing {
            None => {
                assert(self@ =~= s);
                if let Some(acct) = account {
                    let storage: KeyMap<B256, B256> = KeyMap::new();
                    self.set_delta(addr, Some(AccountDelta { account: Some(acct), storage }));
                } else if in_db {
                    self.set_delta(addr, None);
                }
            },
            Some(None) => {
                match account {
                    Some(acct) => {
                        self.set_delta(addr, None);
                        assert(self@.deltas =~= s.deltas);
                        self.needs_commit = true;
                        self.pending_retry.push((SyncUpsertType::Account, encode_account(addr, &acct)));
                        assert(self@.pending_retry =~= s.pending_retry.push(
                            (SyncUpsertType::Account, account_bytes(addr, acct)),
                        ));
                        assert(self@ =~= s.account_update(addr, account, in_db));
                    },
                    None => {
                        if in_db {
                            self.set_delta(addr, None);
                            assert(self@.deltas =~= s.deltas.insert(addr, None));
                        }
                    },
                }
            },
            Some(Some(delta)) => {
                match account {
                    Some(acct) => {
                        self.set_delta(
                            addr,
                            Some(AccountDelta { account: Some(acct), storage: delta.storage }),
                        );
                        assert(self@.deltas =~= s.deltas.insert(
                            addr,
                            Some(
                                AccountDeltaView { account: Some(acct), storage: delta.storage@ },
                            ),
                        ));
                    },
                    None => {
                        if in_db {
                            self.set_delta(addr, None);
                            assert(self@.deltas =~= s.deltas.insert(addr, None));
                        }
                    },
                }
            },
        }
        assert(self@ =~= old(self)@.account_update(addr, account, in_db));
    }

    fn buffer(&mut self, addr: Address, key: B256, value: B256)
        ensures
            final(self)@ == old(self)@.buffer(addr, key, value),
    {
        let ghost s = self@;
        let mut slots = match self.buffered.remove(&addr) {
            Some(m) => m,
            None => KeyMap::new(),
        };
        assert(self@.buffered =~= s.buffered.remove(addr));
        if value == B256::zero() {
            slots.remove(&key);
            if !slots.is_empty() {
                self.buffered.insert(addr, slots);
                assert(self@.buffered =~= s.buffered.insert(addr, slots@));
            }
        } else {
            slots.insert(key, value);
            self.buffered.insert(addr, slots);
            assert(self@.buffered =~= s.buffered.insert(addr, slots@));
        }
        assert(self@ =~= s.buffer(addr, key, value));
    }

    /// Merges a storage slot that was received.
    pub fn storage_update(
        &mut self,
        addr: Address,
        key: B256,
        value: B256,
        in_db: Option<EthAccount>,
        stored: B256,
    )
        requires
            old(self)@.storage_agrees(addr, value, in_db, stored),
        ensures
            final(self)@ == old(self)@.storage_update(addr, key, value, in_db, stored),
    {
        let ghost s = self@;
        let zero = B256::zero();
        if self.buffered.contains_key(&addr) {
            self.buffer(addr, key, value);
            return;
        }
        let existing = self.deltas.remove(&addr);
        assert(self@.deltas =~= s.deltas.remove(addr));
        match existing {
            Some(Some(delta)) => {
                let mut storage = delta.storage;
                if value != zero || stored != zero {
                    storage.insert(key, value);
                } else {
                    storage.remove(&key);
                }
                self.set_delta(addr, Some(AccountDelta { account: delta.account, storage }));
                assert(self@.deltas =~= s.deltas.insert(
                    addr,
                    Some(AccountDeltaView { account: delta.account, storage: storage@ }),
                ));
            },
            Some(None) => {
                self.set_delta(addr, None);
                assert(self@.deltas =~= s.deltas);
                assert(self@ =~= s);
                if value != zero {
                    self.needs_commit = true;
                    self.buffer(addr, key, value);
                }
            },
            None => {
                assert(self@ =~= s);
                if value != zero || stored != zero {
                    match in_db {
                        Some(acct) => {
                            let mut storage: KeyMap<B256, B256> = KeyMap::new();
                            storage.insert(key, value);
                            self.set_delta(addr, Some(AccountDelta { account: Some(acct), storage }));
                        },
                        None => {
                            self.buffer(addr, key, value);
                        },
                    }
                }
            },
        }
        assert(self@ =~= old(self)@.storage_update(addr, key, value, in_db, stored));
    }

    fn count(&mut self)
        requires
            old(self).n_upserts < u64::MAX,
        ensures
            final(self)@ == old(self)@.counted(),
    {
        self.n_upserts = self.n_upserts + 1;
        if self.n_upserts % COMMIT_INTERVAL == 0 {
            self.needs_commit = true;
        }
        assert(self@ =~= old(self)@.counted());
    }

    /// Takes an upsert, where `in_db` and `stored` are what the database has of its account and of
    /// its slot.
    pub fn take_upsert(
        &mut self,
        upsert_type: SyncUpsertType,
        data: &[u8],
        in_db: Option<EthAccount>,
        stored: B256,
    ) -> (r: UpsertStatus)
        requires
            old(self)@.headers.len() == 256,
            old(self).n_upserts < u64::MAX,
        ensures
            (r, final(self)@) == old(self)@.upsert(upsert_type, data@, in_db, stored),
            final(self)@.headers.len() == 256,
    {
        match parse_upsert(upsert_type, data) {
            None => {
                if let SyncUpsertType::Header = upsert_type {
                    self.count();
                }
                UpsertStatus::Rejected
            },
            Some(Received::Code) => {
                let hash = keccak256_bytes(data);
                self.code.insert(hash, vstd::slice::slice_to_vec(data));
                assert(self@.code =~= old(self)@.code.insert(keccak_v256(data@), data@));
                self.count();
                UpsertStatus::Applied
            },
            Some(Received::Account(addr, account)) => {
                if self.buffered.contains_key(&addr) && (in_db.is_some() || self.deltas.contains_key(
                    &addr,
                )) {
                    return UpsertStatus::Contradiction;
                }
                self.account_update(addr, account, in_db.is_some());
                self.count();
                UpsertStatus::Applied
            },
            Some(Received::Storage(addr, key, value)) => {
                let aside = self.buffered.contains_key(&addr);
                let changed = self.deltas.contains_key(&addr);
                let contradiction = if aside {
                    in_db.is_some() || changed
                } else {
                    in_db.is_none() && !changed && value == B256::zero() && stored != B256::zero()
                };
                if contradiction {
                    return UpsertStatus::Contradiction;
                }
                self.storage_update(addr, key, value, in_db, stored);
                self.count();
                UpsertStatus::Applied
            },
            Some(Received::Header) => {
                if let Some(h) = decode_block_header_from_bytes(data) {
                    let idx = (h.number % 256) as usize;
                    let ghost header = h@;
                    self.headers.set(idx, Some(h));
                    assert(self@.headers =~= old(self)@.headers.update(
                        header.number as int % 256,
                        Some(header),
                    ));
                    assert(self@ =~= old(self)@.with_header(header));
                    self.count();
                }
                UpsertStatus::Applied
            },
        }
    }
}

impl Default for SyncProtocolState {
    fn default() -> (r: Self)
        ensures
            r@ == ProtocolView::empty(),
    {
        Self::new()
    }
}

/// Whether `in_db` and `stored` are answers of `db` on the account and on the slot of an upsert.
pub open spec fn answers<D: StateSyncApplierDb>(
    db: &D,
    upsert_type: SyncUpsertType,
    data: Seq<u8>,
    in_db: Option<EthAccount>,
    stored: B256,
) -> bool {
    match parsed(upsert_type, data) {
        Some(Received::Account(addr, _)) => call_ensures(D::read_account, (db, &addr), in_db),
        Some(Received::Storage(addr, key, _)) => {
            &&& call_ensures(D::read_account, (db, &addr), in_db)
            &&& call_ensures(D::read_storage, (db, &addr, &key), stored)
        },
        _ => true,
    }
}

/// Takes an upsert, with what `db` has of its account and of its slot.
pub fn handle_upsert<D: StateSyncApplierDb>(
    state: &mut SyncProtocolState,
    upsert_type: SyncUpsertType,
    data: &[u8],
    db: &D,
) -> (r: UpsertStatus)
    requires
        old(state)@.headers.len() == 256,
        old(state).n_upserts < u64::MAX,
    ensures
        exists|in_db: Option<EthAccount>, stored: B256|
            (r, final(state)@) == #[trigger] old(state)@.upsert(upsert_type, data@, in_db, stored)
                && answers(db, upsert_type, data@, in_db, stored),
        final(state)@.headers.len() == 256,
        r is Rejected <==> parsed(upsert_type, data@) is None,
{
    let (in_db, stored) = match parse_upsert(upsert_type, data) {
        Some(Received::Account(addr, _)) => (db.read_account(&addr), B256::zero()),
        Some(Received::Storage(addr, key, _)) => (db.read_account(&addr), db.read_storage(&addr, &key)),
        _ => (None, B256::zero()),
    };
    state.take_upsert(upsert_type, data, in_db, stored)
}

/// An account that is received replaces what was received of it before, unless its deletion was
/// received and not committed yet: what is to be written is the account that came last. The storage
/// that was received for it stays.
pub proof fn lemma_account_replaces_earlier(
    v: ProtocolView,
    data: Seq<u8>,
    addr: Address,
    acct: EthAccount,
    in_db: Option<EthAccount>,
    stored: B256,
)
    requires
        decoded_account(data) == Some((addr, acct)),
        v.agrees(addr, in_db is Some),
        v.deltas.contains_key(addr) ==> v.deltas[addr] is Some,
    ensures
        ({
            let (r, w) = v.upsert(SyncUpsertType::Account, data, in_db, stored);
            &&& r is Applied
            &&& w.deltas.contains_key(addr)
            &&& w.deltas[addr] is Some
            &&& (w.deltas[addr]->0).account == Some(acct)
            &&& (w.deltas[addr]->0).storage == if v.buffered.contains_key(addr) {
                v.buffered[addr]
            } else if v.deltas.contains_key(addr) {
                (v.deltas[addr]->0).storage
            } else {
                Map::<B256, B256>::empty()
            }
            &&& !w.buffered.contains_key(addr)
            &&& w.pending_retry == v.pending_retry
        }),
{
}

/// An account that is received after its deletion, before that is committed, waits: the deletion
/// stays, a commit is due, and what waits spells the account.
pub proof fn lemma_account_waits_for_its_deletion(
    v: ProtocolView,
    data: Seq<u8>,
    addr: Address,
    acct: EthAccount,
    in_db: Option<EthAccount>,
    stored: B256,
)
    requires
        decoded_account(data) == Some((addr, acct)),
        v.agrees(addr, in_db is Some),
        v.deltas.contains_key(addr),
        v.deltas[addr] is None,
    ensures
        ({
            let (r, w) = v.upsert(SyncUpsertType::Account, data, in_db, stored);
            &&& r is Applied
            &&& w.deltas == v.deltas
            &&& w.should_commit()
            &&& w.pending_retry.len() == v.pending_retry.len() + 1
            &&& w.pending_retry.drop_last() == v.pending_retry
            &&& match parsed(w.pending_retry.last().0, w.pending_retry.last().1) {
                Some(Received::Account(a, Some(again))) => {
                    &&& a == addr
                    &&& again.nonce == acct.nonce
                    &&& again.balance == acct.balance
                    &&& acct.code_hash is Some ==> again.code_hash == acct.code_hash
                },
                _ => false,
            }
        }),
{
    let w = v.upsert(SyncUpsertType::Account, data, in_db, stored).1;
    lemma_account_round_trip(addr, acct);
    assert(w.pending_retry.drop_last() =~= v.pending_retry);
}

/// An account whose deletion is received is to be deleted if the database has it; if it does not,
/// nothing that was received of it is left. Either way no storage of it is kept aside.
pub proof fn lemma_deletion_leaves_no_account(
    v: ProtocolView,
    addr: Address,
    in_db: Option<EthAccount>,
    stored: B256,
)
    requires
        v.agrees(addr, in_db is Some),
    ensures
        ({
            let (r, w) = v.upsert(SyncUpsertType::AccountDelete, addr@, in_db, stored);
            &&& r is Applied
            &&& !w.buffered.contains_key(addr)
            &&& in_db is Some ==> w.deltas.contains_key(addr) && w.deltas[addr] is None
            &&& in_db is None ==> !w.deltas.contains_key(addr)
        }),
{
    assert(addr@.subrange(0, 20) =~= addr@);
    lemma_bytes_at(addr@, 0, addr);
}

/// What an account upsert says of one account leaves the others alone, and so does a storage upsert.
pub proof fn lemma_upsert_leaves_other_accounts_alone(
    v: ProtocolView,
    upsert_type: SyncUpsertType,
    data: Seq<u8>,
    in_db: Option<EthAccount>,
    stored: B256,
    other: Address,
)
    requires
        match parsed(upsert_type, data) {
            Some(Received::Account(addr, _)) => addr != other,
            Some(Received::Storage(addr, _, _)) => addr != other,
            _ => true,
        },
    ensures
        ({
            let w = v.upsert(upsert_type, data, in_db, stored).1;
            &&& w.deltas.contains_key(other) == v.deltas.contains_key(other)
            &&& v.deltas.contains_key(other) ==> w.deltas[other] == v.deltas[other]
            &&& w.buffered.contains_key(other) == v.buffered.contains_key(other)
            &&& v.buffered.contains_key(other) ==> w.buffered[other] == v.buffered[other]
        }),
{
}

/// A slot that is received is kept, with its value: with its account, if the account is known, and
/// aside if it is not. The slots that were received before stay, and the account stays as it was.
pub proof fn lemma_received_slot_is_kept(
    v: ProtocolView,
    addr: Address,
    key: B256,
    value: B256,
    in_db: Option<EthAccount>,
    stored: B256,
)
    requires
        value != B256::spec_zero(),
        v.storage_agrees(addr, value, in_db, stored),
    ensures
        ({
            let (r, w) = v.upsert(SyncUpsertType::Storage, addr@ + key@ + value@, in_db, stored);
            &&& r is Applied
            &&& if !v.buffered.contains_key(addr) && v.deltas.contains_key(addr)
                && v.deltas[addr] is Some {
                let (d, e) = (v.deltas[addr]->0, w.deltas[addr]);
                &&& w.deltas.contains_key(addr)
                &&& e is Some
                &&& (e->0).account == d.account
                &&& (e->0).storage.contains_key(key)
                &&& (e->0).storage[key] == value
                &&& forall|k: B256|
                    k != key ==> (#[trigger] (e->0).storage.contains_key(k)
                        == d.storage.contains_key(k)) && (d.storage.contains_key(k) ==> (
                    e->0).storage[k] == d.storage[k])
            } else if !v.buffered.contains_key(addr) && !v.deltas.contains_key(addr)
                && in_db is Some {
                let e = w.deltas[addr];
                &&& w.deltas.contains_key(addr)
                &&& e is Some
                &&& (e->0).account == in_db
                &&& (e->0).storage.contains_key(key)
                &&& (e->0).storage[key] == value
                &&& forall|k: B256| k != key ==> !#[trigger] (e->0).storage.contains_key(k)
            } else {
                &&& w.deltas == v.deltas
                &&& w.buffered.contains_key(addr)
                &&& w.buffered[addr].contains_key(key)
                &&& w.buffered[addr][key] == value
                &&& forall|k: B256|
                    k != key ==> {
                        let had = v.buffered.contains_key(addr) && v.buffered[addr].contains_key(k);
                        &&& #[trigger] w.buffered[addr].contains_key(k) == had
                        &&& had ==> w.buffered[addr][k] == v.buffered[addr][k]
                    }
            }
        }),
{
    lemma_slot_is_understood(addr, key, value);
}

/// Storage that was received before its account is written with it.
pub proof fn lemma_slot_received_early_joins_its_account(
    v: ProtocolView,
    addr: Address,
    key: B256,
    value: B256,
    data: Seq<u8>,
    acct: EthAccount,
    stored: B256,
)
    requires
        value != B256::spec_zero(),
        decoded_account(data) == Some((addr, acct)),
        !v.deltas.contains_key(addr),
    ensures
        ({
            let w = v.upsert(SyncUpsertType::Storage, addr@ + key@ + value@, None, stored).1;
            let x = w.upsert(SyncUpsertType::Account, data, None, stored).1;
            &&& x.deltas.contains_key(addr)
            &&& x.deltas[addr] is Some
            &&& (x.deltas[addr]->0).account == Some(acct)
            &&& (x.deltas[addr]->0).storage.contains_key(key)
            &&& (x.deltas[addr]->0).storage[key] == value
        }),
{
    lemma_slot_is_understood(addr, key, value);
}

/// A slot whose deletion is received is to be zero, if the database has a value for it, and is not to
/// be written at all, if it has none; slots that are kept aside are dropped.
pub proof fn lemma_deleted_slot_is_not_kept(
    v: ProtocolView,
    addr: Address,
    key: B256,
    in_db: Option<EthAccount>,
    stored: B256,
)
    requires
        v.storage_agrees(addr, B256::spec_zero(), in_db, stored),
    ensures
        ({
            let (r, w) = v.upsert(SyncUpsertType::StorageDelete, addr@ + key@, in_db, stored);
            &&& r is Applied
            &&& w.buffered.contains_key(addr) ==> !w.buffered[addr].contains_key(key)
            &&& !v.buffered.contains_key(addr) && w.deltas.contains_key(addr) && w.deltas[addr]
                is Some ==> if stored != B256::spec_zero() {
                &&& (w.deltas[addr]->0).storage.contains_key(key)
                &&& (w.deltas[addr]->0).storage[key] == B256::spec_zero()
            } else {
                !(w.deltas[addr]->0).storage.contains_key(key)
            }
            &&& v.deltas.contains_key(addr) && v.deltas[addr] is Some ==> w.deltas.contains_key(addr)
                && w.deltas[addr] is Some && (w.deltas[addr]->0).account == (
            v.deltas[addr]->0).account
            &&& v.buffered.contains_key(addr) ==> w.deltas == v.deltas
            &&& !v.buffered.contains_key(addr) && !v.deltas.contains_key(addr) && in_db is Some
                && stored != B256::spec_zero() ==> w.deltas.contains_key(addr) && w.deltas[addr]
                is Some && (w.deltas[addr]->0).account == in_db
        }),
{
    let data = addr@ + key@;
    assert(data.subrange(0, 20) =~= addr@);
    lemma_bytes_at(data, 0, addr);
    assert(data.subrange(20, 52) =~= key@);
    lemma_bytes_at(data, 20, key);
}

/// A slot that is sent as its address, its key and its value reads back.
pub proof fn lemma_slot_is_understood(addr: Address, key: B256, value: B256)
    ensures
        parsed(SyncUpsertType::Storage, addr@ + key@ + value@) == Some(
            Received::Storage(addr, key, value),
        ),
{
    let data = addr@ + key@ + value@;
    assert(data.subrange(0, 20) =~= addr@);
    lemma_bytes_at(data, 0, addr);
    assert(data.subrange(20, 52) =~= key@);
    lemma_bytes_at(data, 20, key);
    assert(data.subrange(52, 84) =~= value@);
    lemma_bytes_at(data, 52, value);
}

/// An account that is sent is understood as an account with this address, nonce, balance and code.
pub proof fn lemma_account_is_understood(addr: Address, acct: EthAccount)
    ensures
        match parsed(SyncUpsertType::Account, account_bytes(addr, acct)) {
            Some(Received::Account(a, Some(read))) => {
                &&& a == addr
                &&& read.nonce == acct.nonce
                &&& read.balance == acct.balance
                &&& read.code_hash is Some
                &&& acct.code_hash is Some ==> read.code_hash == acct.code_hash
                &&& acct.code_hash is None ==> read.code_hash == Some(B256::spec_zero())
            },
            _ => false,
        },
{
    lemma_account_round_trip(addr, acct);
}

/// An account of which only a part is sent has zero for what is missing, and no code.
pub proof fn lemma_short_account_is_filled_up(data: Seq<u8>)
    ensures
        decoded_account(data) is None <==> data.len() < 20,
        20 <= data.len() ==> (decoded_account(data)->0).0 == bytes_at::<20>(data, 0),
        20 <= data.len() < 28 ==> (decoded_account(data)->0).1.nonce == 0,
        28 <= data.len() ==> (decoded_account(data)->0).1.nonce == be_value(
            data.subrange(20, 28),
        ) as u64,
        20 <= data.len() < 60 ==> (decoded_account(data)->0).1.balance == U256(B256::spec_zero()),
        60 <= data.len() ==> (decoded_account(data)->0).1.balance == U256(
            bytes_at::<32>(data, 28),
        ),
        20 <= data.len() < 92 ==> (decoded_account(data)->0).1.code_hash is None,
        92 <= data.len() ==> (decoded_account(data)->0).1.code_hash == Some(
            bytes_at::<32>(data, 60),
        ),
        20 <= data.len() ==> !(decoded_account(data)->0).1.is_delegated,
{
}

/// Upserts of accounts and storage that are too short, and deletions of accounts that are not an
/// address, are refused and change nothing.
pub proof fn lemma_unreadable_upsert_changes_nothing(
    v: ProtocolView,
    upsert_type: SyncUpsertType,
    data: Seq<u8>,
    in_db: Option<EthAccount>,
    stored: B256,
)
    requires
        match upsert_type {
            SyncUpsertType::Account => data.len() < 20,
            SyncUpsertType::Storage => data.len() < 52,
            SyncUpsertType::AccountDelete => data.len() != 20,
            SyncUpsertType::StorageDelete => data.len() < 52,
            _ => false,
        },
    ensures
        v.upsert(upsert_type, data, in_db, stored) == (UpsertStatus::Rejected, v),
{
}

/// Code that is received is kept under its hash; no other code changes.
pub proof fn lemma_code_is_kept_under_its_hash(
    v: ProtocolView,
    data: Seq<u8>,
    in_db: Option<EthAccount>,
    stored: B256,
)
    ensures
        ({
            let (r, w) = v.upsert(SyncUpsertType::Code, data, in_db, stored);
            &&& r is Applied
            &&& w.code.contains_key(keccak_v256(data))
            &&& w.code[keccak_v256(data)] == data
            &&& forall|h: B256|
                h != keccak_v256(data) ==> (#[trigger] w.code.contains_key(h)
                    == v.code.contains_key(h)) && (v.code.contains_key(h) ==> w.code[h] == v.code[h])
            &&& w.deltas == v.deltas
            &&& w.buffered == v.buffered
            &&& w.headers == v.headers
            &&& w.seen_code == v.seen_code
        }),
{
}

/// A header that is received is kept, and takes the place only of one whose number differs from its
/// own by a multiple of 256.
pub proof fn lemma_header_is_kept(
    v: ProtocolView,
    data: Seq<u8>,
    header: HeaderView,
    in_db: Option<EthAccount>,
    stored: B256,
    i: int,
)
    requires
        v.headers.len() == 256,
        decoded_header(data) == Some(header),
        0 <= i < 256,
    ensures
        ({
            let (r, w) = v.upsert(SyncUpsertType::Header, data, in_db, stored);
            &&& r is Applied
            &&& w.headers.len() == 256
            &&& w.headers[header.number as int % 256] == Some(header)
            &&& i != header.number as int % 256 ==> w.headers[i] == v.headers[i]
            &&& w.deltas == v.deltas
            &&& w.buffered == v.buffered
            &&& w.code == v.code
        }),
{
}

/// The code of every account that is received is looked for in the end, unless it has none; code that
/// was looked for before still is.
pub proof fn lemma_code_of_accounts_is_looked_for(
    v: ProtocolView,
    data: Seq<u8>,
    addr: Address,
    acct: EthAccount,
    hash: B256,
    in_db: Option<EthAccount>,
    stored: B256,
)
    requires
        decoded_account(data) == Some((addr, acct)),
        v.agrees(addr, in_db is Some),
    ensures
        ({
            let w = v.upsert(SyncUpsertType::Account, data, in_db, stored).1;
            w.seen_code.contains(hash) <==> v.seen_code.contains(hash) || (acct.code_hash == Some(
                hash,
            ) && hash != B256::spec_zero())
        }),
{
}

/// Every upsert that is taken counts, and after each 1048576 of them a commit is due; a commit that
/// is due stays due.
pub proof fn lemma_upserts_are_counted(
    v: ProtocolView,
    upsert_type: SyncUpsertType,
    data: Seq<u8>,
    in_db: Option<EthAccount>,
    stored: B256,
)
    requires
        v.n_upserts < u64::MAX,
    ensures
        ({
            let (r, w) = v.upsert(upsert_type, data, in_db, stored);
            &&& r is Applied ==> w.n_upserts == v.n_upserts + 1
            &&& r is Contradiction ==> w == v
            &&& r is Applied && (v.n_upserts + 1) % 1_048_576 == 0 ==> w.should_commit()
            &&& v.needs_commit ==> w.should_commit()
        }),
{
}

/// A client asks for what comes right after what it has, and never for more than the target: the
/// request starts at the block after the one it is complete up to, and ends at the target or at 99
/// hundredths of it. What it asks for is what it was told to ask for.
pub proof fn lemma_request_goes_on_where_it_stopped(
    prefix: u64,
    prefix_bytes: u8,
    target: u64,
    progress: u64,
    old_target: u64,
)
    requires
        progress < target || progress == u64::MAX,
        target < u64::MAX,
    ensures
        ({
            let r = next_request(prefix, prefix_bytes, target, progress, old_target);
            &&& r.prefix == prefix
            &&& r.prefix_bytes == prefix_bytes
            &&& r.target == target
            &&& r.old_target == old_target
            &&& progress == u64::MAX ==> r.from == 0
            &&& progress != u64::MAX ==> r.from == progress + 1
            &&& r.from <= r.until <= r.target
            &&& r.until == target || (r.until * 100 <= target * 99 && target * 99 < (r.until + 1)
                * 100)
            &&& r.until < target ==> r.from < r.until
        }),
{
}

/// Two requests lead to any target: what the first leaves open, the second asks for.
pub proof fn lemma_two_requests_lead_to_the_target(
    prefix: u64,
    prefix_bytes: u8,
    target: u64,
    progress: u64,
    old_target: u64,
)
    requires
        progress < target || progress == u64::MAX,
        target < u64::MAX,
    ensures
        ({
            let first = next_request(prefix, prefix_bytes, target, progress, old_target);
            let second = next_request(prefix, prefix_bytes, target, first.until, target);
            first.until < target ==> second.from == first.until + 1 && second.until == target
        }),
{
}

/// Nothing was received at the start: there is nothing to be written, and nothing waits.
pub proof fn lemma_nothing_is_received_at_first()
    ensures
        ({
            let v = ProtocolView::empty();
            &&& !v.should_commit()
            &&& v.n_upserts == 0
            &&& v.pending_retry.len() == 0
            &&& v.headers.len() == 256
            &&& forall|a: Address| !#[trigger] v.deltas.contains_key(a)
            &&& forall|a: Address| !#[trigger] v.buffered.contains_key(a)
            &&& forall|h: B256| !#[trigger] v.code.contains_key(h)
            &&& forall|h: B256| !#[trigger] v.seen_code.contains(h)
            &&& forall|i: int| 0 <= i < 256 ==> (#[trigger] v.headers[i]) is None
        }),
{
}

/// What a session received is what its parts hold.
pub proof fn lemma_received_is_what_is_held(s: SyncProtocolState)
    ensures
        s@.n_upserts == s.n_upserts,
        s@.needs_commit == s.needs_commit,
        forall|a: Address| #[trigger] s@.deltas.contains_key(a) == s.deltas@.contains_key(a),
        forall|a: Address| #[trigger] s@.buffered.contains_key(a) == s.buffered@.contains_key(a),
        forall|h: B256| #[trigger] s@.code.contains_key(h) == s.code@.contains_key(h),
        forall|h: B256| #[trigger] s@.seen_code.contains(h) == s.seen_code@.contains_key(h),
        forall|a: Address| #[trigger]
            s.deltas@.contains_key(a) ==> match s.deltas@[a] {
                Some(d) => s@.deltas[a] is Some && (s@.deltas[a]->0).account == d.account && (
                s@.deltas[a]->0).storage == d.storage@,
                None => s@.deltas[a] is None,
            },
        forall|a: Address| #[trigger]
            s.buffered@.contains_key(a) ==> s@.buffered[a] == s.buffered@[a]@,
        forall|h: B256| #[trigger] s.code@.contains_key(h) ==> s@.code[h] == s.code@[h]@,
        s@.headers.len() == s.headers@.len(),
        s@.pending_retry.len() == s.pending_retry@.len(),
{
}

/// No commit is due before its time: upserts of code and headers make one due only by their number.
pub proof fn lemma_commits_are_due_by_number(
    v: ProtocolView,
    upsert_type: SyncUpsertType,
    data: Seq<u8>,
    in_db: Option<EthAccount>,
    stored: B256,
)
    requires
        upsert_type is Code || upsert_type is Header,
        v.n_upserts < u64::MAX,
    ensures
        v.upsert(upsert_type, data, in_db, stored).1.should_commit() <==> v.needs_commit || (
        v.n_upserts + 1) % 1_048_576 == 0,
{
}

/// An account makes a commit due only if it was deleted before, besides by its number.
pub proof fn lemma_accounts_make_no_early_commit(
    v: ProtocolView,
    data: Seq<u8>,
    addr: Address,
    acct: EthAccount,
    in_db: Option<EthAccount>,
    stored: B256,
)
    requires
        decoded_account(data) == Some((addr, acct)),
        v.agrees(addr, in_db is Some),
        v.deltas.contains_key(addr) ==> v.deltas[addr] is Some,
        v.n_upserts < u64::MAX,
    ensures
        v.upsert(SyncUpsertType::Account, data, in_db, stored).1.should_commit() <==> v.needs_commit
            || (v.n_upserts + 1) % 1_048_576 == 0,
{
}

/// An upsert contradicts what is known only if storage of its account is kept aside although the account
/// is known; and, for a slot, if it deletes a value of an account that is not there.
pub proof fn lemma_only_contradictions_are_refused(
    v: ProtocolView,
    upsert_type: SyncUpsertType,
    data: Seq<u8>,
    in_db: Option<EthAccount>,
    stored: B256,
)
    ensures
        match parsed(upsert_type, data) {
            Some(Received::Account(addr, _)) => v.upsert(upsert_type, data, in_db, stored).0
                is Contradiction <==> v.buffered.contains_key(addr) && (in_db is Some
                || v.deltas.contains_key(addr)),
            Some(Received::Storage(addr, _, value)) => v.upsert(
                upsert_type,
                data,
                in_db,
                stored,
            ).0 is Contradiction <==> {
                ||| v.buffered.contains_key(addr) && (in_db is Some || v.deltas.contains_key(addr))
                ||| !v.buffered.contains_key(addr) && in_db is None && !v.deltas.contains_key(addr)
                    && value == B256::spec_zero() && stored != B256::spec_zero()
            },
            Some(_) => v.upsert(upsert_type, data, in_db, stored).0 is Applied,
            None => v.upsert(upsert_type, data, in_db, stored).0 is Rejected,
        },
        v.upsert(upsert_type, data, in_db, stored).0 is Contradiction ==> v.upsert(
            upsert_type,
            data,
            in_db,
            stored,
        ).1 == v,
{
}

/// A slot of an account whose deletion was received and not committed yet makes a commit due, and waits
/// for the account to come again; the deletion stays.
pub proof fn lemma_slot_waits_for_a_deletion(
    v: ProtocolView,
    addr: Address,
    key: B256,
    value: B256,
    in_db: Option<EthAccount>,
    stored: B256,
)
    requires
        value != B256::spec_zero(),
        !v.buffered.contains_key(addr),
        v.deltas.contains_key(addr),
        v.deltas[addr] is None,
    ensures
        ({
            let (r, w) = v.upsert(SyncUpsertType::Storage, addr@ + key@ + value@, in_db, stored);
            &&& r is Applied
            &&& w.should_commit()
            &&& w.deltas == v.deltas
            &&& w.buffered.contains_key(addr)
            &&& w.buffered[addr].contains_key(key)
            &&& w.buffered[addr][key] == value
        }),
{
    lemma_slot_is_understood(addr, key, value);
}

/// Deleting a slot leaves the other slots of its account as they were.
pub proof fn lemma_deleting_a_slot_leaves_the_others(
    v: ProtocolView,
    addr: Address,
    key: B256,
    in_db: Option<EthAccount>,
    stored: B256,
    other: B256,
)
    requires
        other != key,
        v.storage_agrees(addr, B256::spec_zero(), in_db, stored),
    ensures
        ({
            let w = v.upsert(SyncUpsertType::StorageDelete, addr@ + key@, in_db, stored).1;
            &&& v.buffered.contains_key(addr) && v.buffered[addr].contains_key(other)
                ==> w.buffered.contains_key(addr) && w.buffered[addr].contains_key(other)
                && w.buffered[addr][other] == v.buffered[addr][other]
            &&& v.deltas.contains_key(addr) && v.deltas[addr] is Some ==> {
                &&& w.deltas.contains_key(addr)
                &&& w.deltas[addr] is Some
                &&& (w.deltas[addr]->0).storage.contains_key(other) == (
                v.deltas[addr]->0).storage.contains_key(other)
                &&& (v.deltas[addr]->0).storage.contains_key(other) ==> (
                w.deltas[addr]->0).storage[other] == (v.deltas[addr]->0).storage[other]
            }
            &&& v.deltas.contains_key(addr) && v.deltas[addr] is None ==> w.deltas.contains_key(addr)
                && w.deltas[addr] is None
        }),
{
    let data = addr@ + key@;
    assert(data.subrange(0, 20) =~= addr@);
    lemma_bytes_at(data, 0, addr);
    assert(data.subrange(20, 52) =~= key@);
    lemma_bytes_at(data, 20, key);
    if v.buffered.contains_key(addr) && v.buffered[addr].contains_key(other) {
        let rest = v.buffered[addr].remove(key);
        assert(rest.dom().contains(other));
    }
}

/// Accounts and slots change nothing of the code and the headers that were received.
pub proof fn lemma_state_upserts_leave_code_and_headers(
    v: ProtocolView,
    upsert_type: SyncUpsertType,
    data: Seq<u8>,
    in_db: Option<EthAccount>,
    stored: B256,
)
    requires
        !(upsert_type is Code),
        !(upsert_type is Header),
    ensures
        v.upsert(upsert_type, data, in_db, stored).1.code == v.code,
        v.upsert(upsert_type, data, in_db, stored).1.headers == v.headers,
{
}

} // verus!
