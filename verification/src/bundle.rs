//! The change of state that a block makes, with what is needed to take it back.

use vstd::prelude::*;

use crate::keymap::KeyMap;
use crate::primitives::{Address, B256, U256};
use crate::seqs::{
    lemma_push_contains, lemma_push_distinct, lemma_take_excludes, lemma_take_step,
};
use crate::statesync::types::Deletion;
use crate::transactions::copy_bytes;
use crate::types::{
    keccak_empty, spec_keccak_empty, AccountDelta, CodeMap, EthAccount, StateDeltas, StorageDelta,
};

verus! {

/// An account as the bundle keeps it: one without code has the hash of empty code.
#[derive(Clone, Copy, Debug, PartialEq, Eq)]
pub struct AccountInfo {
    pub balance: U256,
    pub nonce: u64,
    pub code_hash: B256,
}

/// How far an account was loaded and changed.
#[derive(Clone, Copy, Debug, PartialEq, Eq, Structural)]
pub enum AccountStatus {
    LoadedNotExisting,
    Loaded,
    LoadedEmptyEIP161,
    InMemoryChange,
    Changed,
    Destroyed,
    DestroyedChanged,
    DestroyedAgain,
}

/// The value of a storage slot before and after.
#[derive(Clone, Copy, Debug, PartialEq, Eq)]
pub struct StorageSlot {
    pub previous_or_original_value: U256,
    pub present_value: U256,
}

/// An account before and after.
pub struct BundleAccount {
    pub info: Option<AccountInfo>,
    pub original_info: Option<AccountInfo>,
    pub storage: KeyMap<U256, StorageSlot>,
    pub status: AccountStatus,
}

/// How a storage slot is taken back.
#[derive(Clone, Copy, Debug, PartialEq, Eq)]
pub enum RevertToSlot {
    Value(U256),
    Destroyed,
}

/// How an account is taken back.
#[derive(Clone, Copy, Debug, PartialEq, Eq)]
pub enum AccountInfoRevert {
    DoNothing,
    DeleteIt,
    RevertTo(AccountInfo),
}

/// How an account and its storage are taken back.
pub struct AccountRevert {
    pub account: AccountInfoRevert,
    pub storage: KeyMap<U256, RevertToSlot>,
    pub previous_status: AccountStatus,
    pub wipe_storage: bool,
}

/// The change of state of one or more blocks. The code of a contract is kept as it was deployed.
pub struct Bundle {
    pub state: KeyMap<Address, BundleAccount>,
    pub contracts: KeyMap<B256, Vec<u8>>,
    pub reverts: Vec<Vec<(Address, AccountRevert)>>,
    pub state_size: usize,
    pub reverts_size: u128,
}

#[verifier::ext_equal]
pub struct BundleAccountView {
    pub info: Option<AccountInfo>,
    pub original_info: Option<AccountInfo>,
    pub storage: Map<U256, StorageSlot>,
    pub status: AccountStatus,
}

#[verifier::ext_equal]
pub struct AccountRevertView {
    pub account: AccountInfoRevert,
    pub storage: Map<U256, RevertToSlot>,
    pub previous_status: AccountStatus,
    pub wipe_storage: bool,
}

#[verifier::ext_equal]
pub struct BundleView {
    pub state: Map<Address, BundleAccountView>,
    pub contracts: Map<B256, Seq<u8>>,
    pub reverts: Seq<Seq<(Address, AccountRevertView)>>,
    pub state_size: nat,
    pub reverts_size: nat,
}

impl View for BundleAccount {
    type V = BundleAccountView;

    open spec fn view(&self) -> BundleAccountView {
        BundleAccountView {
            info: self.info,
            original_info: self.original_info,
            storage: self.storage@,
            status: self.status,
        }
    }
}

impl View for AccountRevert {
    type V = AccountRevertView;

    open spec fn view(&self) -> AccountRevertView {
        AccountRevertView {
            account: self.account,
            storage: self.storage@,
            previous_status: self.previous_status,
            wipe_storage: self.wipe_storage,
        }
    }
}

/// What the reverts of one block say.
pub open spec fn reverts_view(reverts: Seq<(Address, AccountRevert)>) -> Seq<
    (Address, AccountRevertView),
> {
    reverts.map_values(|r: (Address, AccountRevert)| (r.0, r.1@))
}

impl View for Bundle {
    type V = BundleView;

    open spec fn view(&self) -> BundleView {
        BundleView {
            state: self.state@.map_values(|a: BundleAccount| a@),
            contracts: self.contracts@.map_values(|c: Vec<u8>| c@),
            reverts: self.reverts@.map_values(|b: Vec<(Address, AccountRevert)>| reverts_view(b@)),
            state_size: self.state_size as nat,
            reverts_size: self.reverts_size as nat,
        }
    }
}

/// A bundle that changes nothing.
pub open spec fn empty_bundle() -> BundleView {
    BundleView {
        state: Map::empty(),
        contracts: Map::empty(),
        reverts: Seq::empty(),
        state_size: 0,
        reverts_size: 0,
    }
}

impl Bundle {
    /// A bundle that changes nothing.
    pub fn empty() -> (r: Self)
        ensures
            r@ == empty_bundle(),
    {
        let r = Bundle {
            state: KeyMap::new(),
            contracts: KeyMap::new(),
            reverts: Vec::new(),
            state_size: 0,
            reverts_size: 0,
        };
        assert(r@ =~= empty_bundle());
        r
    }
}

impl Default for Bundle {
    fn default() -> (r: Self)
        ensures
            r@ == empty_bundle(),
    {
        Self::empty()
    }
}

/// An account as the bundle keeps it.
pub open spec fn account_info(acc: EthAccount) -> AccountInfo {
    AccountInfo {
        balance: acc.balance,
        nonce: acc.nonce,
        code_hash: match acc.code_hash {
            Some(h) => h,
            None => spec_keccak_empty(),
        },
    }
}

/// An account as the bundle keeps it.
pub fn monad_to_account_info(acc: &EthAccount) -> (r: AccountInfo)
    ensures
        r == account_info(*acc),
{
    AccountInfo {
        balance: acc.balance,
        nonce: acc.nonce,
        code_hash: match acc.code_hash {
            Some(h) => h,
            None => keccak_empty(),
        },
    }
}

/// An account from how the bundle keeps it: the hash of empty code stands for no code.
pub open spec fn eth_account(info: AccountInfo) -> EthAccount {
    EthAccount {
        nonce: info.nonce,
        balance: info.balance,
        code_hash: if info.code_hash == spec_keccak_empty() {
            None
        } else {
            Some(info.code_hash)
        },
        is_delegated: false,
    }
}

/// An account from how the bundle keeps it.
pub fn account_info_to_monad(info: &AccountInfo) -> (r: EthAccount)
    ensures
        r == eth_account(*info),
{
    EthAccount {
        nonce: info.nonce,
        balance: info.balance,
        code_hash: if info.code_hash == keccak_empty() {
            None
        } else {
            Some(info.code_hash)
        },
        is_delegated: false,
    }
}

/// An account that is not delegated and does not spell out the hash of empty code comes back from
/// the bundle as it went in.
pub proof fn lemma_account_round_trip(acc: EthAccount)
    requires
        !acc.is_delegated,
        acc.code_hash != Some(spec_keccak_empty()),
    ensures
        eth_account(account_info(acc)) == acc,
{
}

/// Whether code can be kept: code that starts as a delegation is one, of 23 bytes and version 0.
pub open spec fn valid_code(raw: Seq<u8>) -> bool {
    raw.len() >= 2 && raw[0] == 0xef && raw[1] == 0x01 ==> raw.len() == 23 && raw[2] == 0
}

/// Whether code can be kept.
pub fn is_valid_code(raw: &Vec<u8>) -> (r: bool)
    ensures
        r == valid_code(raw@),
{
    !(raw.len() >= 2 && raw[0] == 0xef && raw[1] == 0x01) || (raw.len() == 23 && raw[2] == 0)
}

/// The bytes that `revm::bytecode::Bytecode::new_raw` keeps for code.
pub uninterp spec fn executable_code(raw: Seq<u8>) -> Seq<u8>;

/// `revm::bytecode::Bytecode::new_raw`, then `Bytecode::bytes_slice`: the code as it is executed,
/// which depends on the code alone and is the code followed by zero bytes. How many zero bytes
/// there are is not stated.
#[verifier::external_body]
fn analyze_code(raw: &Vec<u8>) -> (r: Vec<u8>)
    requires
        valid_code(raw@),
    ensures
        r@ == executable_code(raw@),
        r@.len() >= raw@.len(),
        r@.take(raw@.len() as int) == raw@,
        forall|i: int| raw@.len() <= i < r@.len() ==> r@[i] == 0,
{
    revm::bytecode::Bytecode::new_raw(raw.clone().into()).bytes_slice().to_vec()
}

/// Code as it is executed. Code that cannot be kept is left as it is.
pub open spec fn executed(raw: Seq<u8>) -> Seq<u8> {
    if valid_code(raw) {
        executable_code(raw)
    } else {
        raw
    }
}

/// Code as it is executed.
pub fn executed_code(raw: Vec<u8>) -> (r: Vec<u8>)
    ensures
        r@ == executed(raw@),
        r@.len() >= raw@.len(),
        r@.take(raw@.len() as int) == raw@,
        forall|i: int| raw@.len() <= i < r@.len() ==> r@[i] == 0,
{
    if is_valid_code(&raw) {
        analyze_code(&raw)
    } else {
        assert(raw@.take(raw@.len() as int) =~= raw@);
        raw
    }
}

/// Whether a delta leaves a trace: one of an account that exists neither before nor after, without
/// storage, does not.
pub open spec fn has_effect(delta: AccountDelta) -> bool {
    delta.old_account is Some || delta.new_account is Some || delta.storage@.dom() != Set::<
        B256,
    >::empty()
}

/// How far an account is changed by a delta.
pub open spec fn delta_status(delta: AccountDelta) -> AccountStatus {
    match (delta.old_account, delta.new_account) {
        (Some(_), None) => AccountStatus::Destroyed,
        (Some(_), Some(_)) => AccountStatus::Changed,
        (None, _) => AccountStatus::InMemoryChange,
    }
}

/// The storage of a delta, before and after.
pub open spec fn delta_storage(storage: Map<B256, StorageDelta>) -> Map<U256, StorageSlot> {
    Map::new(
        |k: U256| storage.contains_key(k.0),
        |k: U256|
            StorageSlot {
                previous_or_original_value: U256(storage[k.0].old_value),
                present_value: U256(storage[k.0].new_value),
            },
    )
}

/// How the storage of a delta is taken back.
pub open spec fn delta_storage_revert(storage: Map<B256, StorageDelta>) -> Map<U256, RevertToSlot> {
    Map::new(
        |k: U256| storage.contains_key(k.0),
        |k: U256| RevertToSlot::Value(U256(storage[k.0].old_value)),
    )
}

/// The account that a delta gives.
pub open spec fn delta_account(delta: AccountDelta) -> BundleAccountView {
    BundleAccountView {
        info: match delta.new_account {
            Some(a) => Some(account_info(a)),
            None => None,
        },
        original_info: match delta.old_account {
            Some(a) => Some(account_info(a)),
            None => None,
        },
        storage: delta_storage(delta.storage@),
        status: delta_status(delta),
    }
}

/// How a delta is taken back.
pub open spec fn delta_revert(delta: AccountDelta) -> AccountRevertView {
    AccountRevertView {
        account: match (delta.old_account, delta.new_account) {
            (None, Some(_)) => AccountInfoRevert::DeleteIt,
            (Some(old), _) => AccountInfoRevert::RevertTo(account_info(old)),
            (None, None) => AccountInfoRevert::DoNothing,
        },
        storage: delta_storage_revert(delta.storage@),
        previous_status: if delta.old_account is Some {
            AccountStatus::Loaded
        } else {
            AccountStatus::LoadedNotExisting
        },
        wipe_storage: delta.incarnation_changed,
    }
}

/// How much the reverts of a block take: one for each account and one for each of its slots.
pub open spec fn reverts_size(reverts: Seq<(Address, AccountRevertView)>) -> nat
    decreases reverts.len(),
{
    if reverts.len() == 0 {
        0
    } else {
        reverts_size(reverts.drop_last()) + 1 + reverts.last().1.storage.dom().len()
    }
}

/// The accounts of a list of reverts.
pub open spec fn reverted(reverts: Seq<(Address, AccountRevertView)>) -> Seq<Address> {
    reverts.map_values(|r: (Address, AccountRevertView)| r.0)
}

/// Whether `reverts` takes back `deltas`: every account with an effect once, in some order.
pub open spec fn takes_back(
    reverts: Seq<(Address, AccountRevertView)>,
    deltas: Map<Address, AccountDelta>,
) -> bool {
    &&& reverted(reverts).no_duplicates()
    &&& forall|a: Address| #[trigger]
        reverted(reverts).contains(a) <==> deltas.contains_key(a) && has_effect(deltas[a])
    &&& forall|i: int|
        0 <= i < reverts.len() ==> (#[trigger] reverts[i]).1 == delta_revert(deltas[reverts[i].0])
}

/// The accounts that `deltas` gives.
pub open spec fn delta_accounts(deltas: Map<Address, AccountDelta>) -> Map<
    Address,
    BundleAccountView,
> {
    Map::new(
        |a: Address| deltas.contains_key(a) && has_effect(deltas[a]),
        |a: Address| delta_account(deltas[a]),
    )
}

/// What a code map says.
pub open spec fn deployed_contracts(code: Map<B256, Vec<u8>>) -> Map<B256, Seq<u8>> {
    code.map_values(|c: Vec<u8>| c@)
}

fn storage_of(storage: &KeyMap<B256, StorageDelta>) -> (r: (
    KeyMap<U256, StorageSlot>,
    KeyMap<U256, RevertToSlot>,
    usize,
))
    ensures
        r.0@ == delta_storage(storage@),
        r.1@ == delta_storage_revert(storage@),
        r.1@.dom().finite(),
        r.2 == r.1@.dom().len(),
{
    let mut slots: KeyMap<U256, StorageSlot> = KeyMap::new();
    let mut reverts: KeyMap<U256, RevertToSlot> = KeyMap::new();
    let keys = storage.keys();
    let mut i: usize = 0;
    while i < keys.len()
        invariant
            i <= keys@.len(),
            keys@.no_duplicates(),
            keys@.to_set() == storage@.dom(),
            forall|k: U256| #[trigger] slots@.contains_key(k) <==> keys@.take(i as int).contains(k.0),
            forall|k: U256| #[trigger] reverts@.contains_key(k) <==> keys@.take(i as int).contains(k.0),
            forall|k: U256|
                slots@.contains_key(k) ==> #[trigger] slots@[k] == delta_storage(storage@)[k],
            forall|k: U256|
                reverts@.contains_key(k) ==> #[trigger] reverts@[k] == delta_storage_revert(
                    storage@,
                )[k],
        decreases keys@.len() - i,
    {
        let key = keys[i];
        proof {
            assert(keys@.to_set().contains(key));
            lemma_take_step(keys@, i as int);
        }
        if let Some(sd) = storage.get(&key) {
            slots.insert(
                U256(key),
                StorageSlot {
                    previous_or_original_value: U256(sd.old_value),
                    present_value: U256(sd.new_value),
                },
            );
            reverts.insert(U256(key), RevertToSlot::Value(U256(sd.old_value)));
        }
        i = i + 1;
    }
    proof {
        assert(keys@.take(i as int) =~= keys@);
        assert forall|k: U256| keys@.contains(k.0) <==> storage@.contains_key(k.0) by {
            assert(keys@.to_set().contains(k.0) <==> keys@.contains(k.0));
        }
        assert(slots@ =~= delta_storage(storage@));
        assert(reverts@ =~= delta_storage_revert(storage@));
    }
    let n = reverts.len();
    (slots, reverts, n)
}

fn status_of(delta: &AccountDelta) -> (r: AccountStatus)
    ensures
        r == delta_status(*delta),
{
    match (&delta.old_account, &delta.new_account) {
        (Some(_), None) => AccountStatus::Destroyed,
        (Some(_), Some(_)) => AccountStatus::Changed,
        (None, _) => AccountStatus::InMemoryChange,
    }
}

fn account_revert_of(delta: &AccountDelta) -> (r: AccountInfoRevert)
    ensures
        r == delta_revert(*delta).account,
{
    match (&delta.old_account, &delta.new_account) {
        (None, Some(_)) => AccountInfoRevert::DeleteIt,
        (Some(old), _) => AccountInfoRevert::RevertTo(monad_to_account_info(old)),
        (None, None) => AccountInfoRevert::DoNothing,
    }
}

fn info_of(acc: &Option<EthAccount>) -> (r: Option<AccountInfo>)
    ensures
        r == match *acc {
            Some(a) => Some(account_info(a)),
            None => None,
        },
{
    match acc {
        Some(a) => Some(monad_to_account_info(a)),
        None => None,
    }
}

fn contracts_of(code: &CodeMap) -> (r: KeyMap<B256, Vec<u8>>)
    ensures
        r@.map_values(|c: Vec<u8>| c@) == deployed_contracts(code@),
{
    let mut r: KeyMap<B256, Vec<u8>> = KeyMap::new();
    let keys = code.keys();
    let mut i: usize = 0;
    while i < keys.len()
        invariant
            i <= keys@.len(),
            keys@.to_set() == code@.dom(),
            forall|h: B256| #[trigger] r@.contains_key(h) <==> keys@.take(i as int).contains(h),
            forall|h: B256| r@.contains_key(h) ==> (#[trigger] r@[h])@ == code@[h]@,
        decreases keys@.len() - i,
    {
        let key = keys[i];
        proof {
            assert(keys@.to_set().contains(key));
            lemma_take_step(keys@, i as int);
        }
        if let Some(raw) = code.get(&key) {
            r.insert(key, copy_bytes(raw));
        }
        i = i + 1;
    }
    proof {
        assert(keys@.take(i as int) =~= keys@);
        assert forall|h: B256| keys@.contains(h) <==> code@.contains_key(h) by {
            assert(keys@.to_set().contains(h) <==> keys@.contains(h));
        }
        assert(r@.map_values(|c: Vec<u8>| c@) =~= deployed_contracts(code@));
    }
    r
}

proof fn lemma_size_bound(size: int, n: int, m: int)
    requires
        0 <= n < usize::MAX,
        0 <= size <= n * (usize::MAX + 1),
        0 <= m <= usize::MAX,
    ensures
        size + 1 + m <= (n + 1) * (usize::MAX + 1),
        size + 1 + m <= u128::MAX,
{
    assert((n + 1) * (usize::MAX + 1) == n * (usize::MAX + 1) + usize::MAX + 1) by (nonlinear_arith);
    assert((n + 1) * (usize::MAX + 1) <= usize::MAX * (usize::MAX + 1)) by (nonlinear_arith)
        requires
            0 <= n < usize::MAX,
    ;
    assert(usize::MAX * (usize::MAX + 1) <= 0xffff_ffff_ffff_ffff * 0x1_0000_0000_0000_0000)
        by (nonlinear_arith)
        requires
            0 <= usize::MAX <= 0xffff_ffff_ffff_ffff,
    ;
}

/// The bundle of `state_deltas` and `code`: accounts before and after, storage before and after,
/// and how to take the changes back.
pub fn state_deltas_to_bundle(state_deltas: &StateDeltas, code: &CodeMap) -> (r: Bundle)
    requires
        forall|h: B256| #[trigger] code@.contains_key(h) ==> valid_code(code@[h]@),
    ensures
        r@.state == delta_accounts(state_deltas@),
        r@.contracts == deployed_contracts(code@),
        r@.reverts.len() == 1,
        takes_back(r@.reverts[0], state_deltas@),
        r@.state_size == 0,
        r@.reverts_size == reverts_size(r@.reverts[0]),
{
    let mut state: KeyMap<Address, BundleAccount> = KeyMap::new();
    let mut block_reverts: Vec<(Address, AccountRevert)> = Vec::new();
    let mut size: u128 = 0;
    let addresses = state_deltas.keys();
    let ghost deltas = state_deltas@;
    let mut i: usize = 0;
    proof {
        assert(reverted(reverts_view(block_reverts@)) =~= Seq::<Address>::empty());
    }
    while i < addresses.len()
        invariant
            i <= addresses@.len(),
            deltas == state_deltas@,
            addresses@.no_duplicates(),
            addresses@.to_set() == deltas.dom(),
            size == reverts_size(reverts_view(block_reverts@)),
            size <= i * (usize::MAX + 1),
            reverted(reverts_view(block_reverts@)).no_duplicates(),
            forall|a: Address| #[trigger]
                reverted(reverts_view(block_reverts@)).contains(a) <==> addresses@.take(
                    i as int,
                ).contains(a) && has_effect(deltas[a]),
            forall|j: int|
                0 <= j < block_reverts@.len() ==> (#[trigger] block_reverts@[j]).1@ == delta_revert(
                    deltas[block_reverts@[j].0],
                ),
            forall|a: Address| #[trigger]
                state@.contains_key(a) <==> addresses@.take(i as int).contains(a) && has_effect(
                    deltas[a],
                ),
            forall|a: Address|
                state@.contains_key(a) ==> (#[trigger] state@[a])@ == delta_account(deltas[a]),
        decreases addresses@.len() - i,
    {
        let address = addresses[i];
        proof {
            assert(addresses@.to_set().contains(address));
            lemma_take_step(addresses@, i as int);
            lemma_take_excludes(addresses@, i as int);
            assert(i * (usize::MAX + 1) <= (i + 1) * (usize::MAX + 1)) by (nonlinear_arith);
        }
        if let Some(delta) = state_deltas.get(&address) {
            let skip = delta.old_account.is_none() && delta.new_account.is_none()
                && delta.storage.is_empty();
            if !skip {
                let (storage, storage_revert, n) = storage_of(&delta.storage);
                let revert = AccountRevert {
                    account: account_revert_of(delta),
                    storage: storage_revert,
                    previous_status: if delta.old_account.is_some() {
                        AccountStatus::Loaded
                    } else {
                        AccountStatus::LoadedNotExisting
                    },
                    wipe_storage: delta.incarnation_changed,
                };
                proof {
                    lemma_size_bound(size as int, i as int, n as int);
                    let before = reverts_view(block_reverts@);
                    let after = reverts_view(block_reverts@.push((address, revert)));
                    assert(after =~= before.push((address, revert@)));
                    assert(after.drop_last() =~= before);
                    assert(reverted(after) =~= reverted(before).push(address));
                    lemma_push_contains(reverted(before), address);
                    lemma_push_distinct(reverted(before), address);
                }
                size = size + 1 + n as u128;
                block_reverts.push((address, revert));
                state.insert(
                    address,
                    BundleAccount {
                        info: info_of(&delta.new_account),
                        original_info: info_of(&delta.old_account),
                        storage,
                        status: status_of(delta),
                    },
                );
            }
        }
        i = i + 1;
    }
    let contracts = contracts_of(code);
    let mut reverts: Vec<Vec<(Address, AccountRevert)>> = Vec::new();
    reverts.push(block_reverts);
    let r = Bundle { state, contracts, reverts, state_size: 0, reverts_size: size };
    proof {
        assert(addresses@.take(i as int) =~= addresses@);
        assert forall|a: Address| addresses@.contains(a) <==> deltas.contains_key(a) by {
            assert(addresses@.to_set().contains(a) <==> addresses@.contains(a));
        }
        assert(r@.reverts[0] == reverts_view(block_reverts@));
        assert(r@.state =~= delta_accounts(deltas));
        assert(r@.contracts =~= deployed_contracts(code@));
    }
    r
}

/// Whether `d` is among the deletions of a bundle: an account that existed before and does not
/// after, or a slot, of an account that exists after, that is set to zero.
pub open spec fn is_bundle_deletion(state: Map<Address, BundleAccountView>, d: Deletion) -> bool {
    &&& state.contains_key(d.address)
    &&& match d.key {
        Some(key) => {
            let storage = state[d.address].storage;
            &&& state[d.address].info is Some
            &&& storage.contains_key(U256(key))
            &&& storage[U256(key)].previous_or_original_value != storage[U256(key)].present_value
            &&& storage[U256(key)].present_value == U256(B256::spec_zero())
        },
        None => state[d.address].original_info is Some && state[d.address].info is None,
    }
}

/// Every deletion of `bundle`, once.
pub fn extract_deletions_from_bundle(bundle: &Bundle) -> (r: Vec<Deletion>)
    ensures
        r@.no_duplicates(),
        forall|d: Deletion| #[trigger] r@.contains(d) <==> is_bundle_deletion(bundle@.state, d),
{
    let mut r: Vec<Deletion> = Vec::new();
    let addresses = bundle.state.keys();
    let mut i: usize = 0;
    while i < addresses.len()
        invariant
            i <= addresses@.len(),
            addresses@.no_duplicates(),
            addresses@.to_set() == bundle.state@.dom(),
            r@.no_duplicates(),
            forall|d: Deletion| #[trigger]
                r@.contains(d) <==> addresses@.take(i as int).contains(d.address)
                    && is_bundle_deletion(bundle@.state, d),
        decreases addresses@.len() - i,
    {
        let address = addresses[i];
        proof {
            assert(addresses@.to_set().contains(address));
            lemma_take_step(addresses@, i as int);
            lemma_take_excludes(addresses@, i as int);
        }
        if let Some(account) = bundle.state.get(&address) {
            assert(bundle@.state[address] == account@);
            push_slot_deletions(&mut r, address, account, Ghost(bundle@.state));
            if account.original_info.is_some() && account.info.is_none() {
                let d = Deletion { address, key: None };
                proof {
                    lemma_push_contains(r@, d);
                    lemma_push_distinct(r@, d);
                }
                r.push(d);
            }
        }
        i = i + 1;
    }
    proof {
        assert(addresses@.take(i as int) =~= addresses@);
        assert forall|d: Deletion| #[trigger] r@.contains(d) <==> is_bundle_deletion(
            bundle@.state,
            d,
        ) by {
            assert(addresses@.to_set().contains(d.address) <==> addresses@.contains(d.address));
        }
    }
    r
}

/// Adds the slots of one account that are deleted.
fn push_slot_deletions(
    r: &mut Vec<Deletion>,
    address: Address,
    account: &BundleAccount,
    Ghost(state): Ghost<Map<Address, BundleAccountView>>,
)
    requires
        state.contains_key(address),
        state[address] == account@,
        old(r)@.no_duplicates(),
        forall|d: Deletion| #[trigger] old(r)@.contains(d) ==> d.address != address,
    ensures
        final(r)@.no_duplicates(),
        forall|d: Deletion| #[trigger]
            final(r)@.contains(d) <==> old(r)@.contains(d) || (d.address == address && d.key is Some
                && is_bundle_deletion(state, d)),
{
    if account.info.is_none() {
        return;
    }
    let zero = U256(B256::zero());
    let slots = account.storage.keys();
    let mut j: usize = 0;
    while j < slots.len()
        invariant
            j <= slots@.len(),
            slots@.no_duplicates(),
            slots@.to_set() == account.storage@.dom(),
            zero == U256(B256::spec_zero()),
            state.contains_key(address),
            state[address] == account@,
            account.info is Some,
            r@.no_duplicates(),
            forall|d: Deletion| #[trigger] old(r)@.contains(d) ==> d.address != address,
            forall|d: Deletion| #[trigger]
                r@.contains(d) <==> old(r)@.contains(d) || (d.address == address && d.key is Some
                    && slots@.take(j as int).contains(U256(d.key->0)) && is_bundle_deletion(
                    state,
                    d,
                )),
        decreases slots@.len() - j,
    {
        let key = slots[j];
        proof {
            assert(slots@.to_set().contains(key));
            lemma_take_step(slots@, j as int);
            lemma_take_excludes(slots@, j as int);
        }
        if let Some(slot) = account.storage.get(&key) {
            if slot.previous_or_original_value != slot.present_value && slot.present_value == zero {
                let d = Deletion { address, key: Some(key.0) };
                proof {
                    assert(U256(d.key->0) == key);
                    lemma_push_contains(r@, d);
                    lemma_push_distinct(r@, d);
                }
                r.push(d);
            }
        }
        j = j + 1;
    }
    proof {
        assert(slots@.take(j as int) =~= slots@);
        assert forall|d: Deletion| #[trigger] r@.contains(d) <==> old(r)@.contains(d) || (d.address
            == address && d.key is Some && is_bundle_deletion(state, d)) by {
            if d.key is Some {
                let k = U256(d.key->0);
                assert(slots@.to_set().contains(k) <==> slots@.contains(k));
            }
        }
    }
}

/// The bundle of a block deletes what the block's deltas delete.
pub proof fn lemma_bundle_deletes_what_deltas_delete(
    deltas: Map<Address, AccountDelta>,
    d: Deletion,
)
    ensures
        is_bundle_deletion(delta_accounts(deltas), d)
            <==> crate::statesync::deletion_tracker::is_deletion(deltas, d),
{
    if d.key is Some {
        assert(U256(d.key->0).0 == d.key->0);
    }
}

/// What a block leaves of an account is what its delta says: the account that it becomes, or none if it
/// is deleted, beside the account that it was.
pub proof fn lemma_bundle_has_the_new_account(deltas: Map<Address, AccountDelta>, a: Address)
    requires
        deltas.contains_key(a),
    ensures
        ({
            let d = deltas[a];
            let state = delta_accounts(deltas);
            &&& d.new_account is Some || d.old_account is Some ==> state.contains_key(a)
            &&& state.contains_key(a) ==> {
                &&& state[a].info is Some <==> d.new_account is Some
                &&& state[a].original_info is Some <==> d.old_account is Some
                &&& d.new_account is Some ==> {
                    &&& (state[a].info->0).nonce == (d.new_account->0).nonce
                    &&& (state[a].info->0).balance == (d.new_account->0).balance
                    &&& (d.new_account->0).code_hash is Some ==> (state[a].info->0).code_hash == (
                    d.new_account->0).code_hash->0
                    &&& (d.new_account->0).code_hash is None ==> (state[a].info->0).code_hash
                        == spec_keccak_empty()
                }
                &&& d.old_account is Some ==> {
                    &&& (state[a].original_info->0).nonce == (d.old_account->0).nonce
                    &&& (state[a].original_info->0).balance == (d.old_account->0).balance
                }
                &&& (d.old_account is Some && d.new_account is None) == (state[a].status
                    is Destroyed)
                &&& (d.old_account is Some && d.new_account is Some) == (state[a].status is Changed)
            }
        }),
{
}

/// What a block leaves of a slot is what its delta says, beside what it was; no other slot changes.
pub proof fn lemma_bundle_has_the_new_slots(
    deltas: Map<Address, AccountDelta>,
    a: Address,
    key: B256,
)
    requires
        deltas.contains_key(a),
    ensures
        ({
            let state = delta_accounts(deltas);
            let storage = deltas[a].storage@;
            &&& storage.contains_key(key) ==> {
                &&& state.contains_key(a)
                &&& state[a].storage.contains_key(U256(key))
                &&& state[a].storage[U256(key)].present_value == U256(storage[key].new_value)
                &&& state[a].storage[U256(key)].previous_or_original_value == U256(
                    storage[key].old_value,
                )
            }
            &&& !storage.contains_key(key) && state.contains_key(a)
                ==> !state[a].storage.contains_key(U256(key))
        }),
{
    if deltas[a].storage@.contains_key(key) {
        assert(deltas[a].storage@.dom().contains(key));
    }
}

/// A block changes no account that it has no delta for, and deploys the code that it is given.
pub proof fn lemma_bundle_changes_nothing_else(
    deltas: Map<Address, AccountDelta>,
    a: Address,
    code: Map<B256, Vec<u8>>,
    hash: B256,
)
    ensures
        !deltas.contains_key(a) ==> !delta_accounts(deltas).contains_key(a),
        deployed_contracts(code).contains_key(hash) == code.contains_key(hash),
        code.contains_key(hash) ==> deployed_contracts(code)[hash] == code[hash]@,
{
}

/// What a block changes can be taken back: each account that it changes, to what it was before, or to
/// nothing if it was not there; and each slot to its old value.
pub proof fn lemma_changes_can_be_taken_back(
    reverts: Seq<(Address, AccountRevertView)>,
    deltas: Map<Address, AccountDelta>,
    i: int,
)
    requires
        takes_back(reverts, deltas),
        0 <= i < reverts.len(),
    ensures
        ({
            let (a, r) = reverts[i];
            let d = deltas[a];
            &&& deltas.contains_key(a)
            &&& d.old_account is Some ==> {
                &&& r.account is RevertTo
                &&& r.account->RevertTo_0.nonce == (d.old_account->0).nonce
                &&& r.account->RevertTo_0.balance == (d.old_account->0).balance
                &&& (d.old_account->0).code_hash is Some ==> r.account->RevertTo_0.code_hash == (
                d.old_account->0).code_hash->0
            }
            &&& d.old_account is None && d.new_account is Some ==> r.account is DeleteIt
            &&& d.old_account is None && d.new_account is None ==> r.account is DoNothing
            &&& r.wipe_storage == d.incarnation_changed
            &&& forall|k: B256|
                d.storage@.contains_key(k) ==> #[trigger] r.storage[U256(k)]
                    == RevertToSlot::Value(U256(d.storage@[k].old_value))
        }),
{
    assert(reverted(reverts)[i] == reverts[i].0);
    assert(reverted(reverts).contains(reverts[i].0));
}

/// Code is refused exactly if it starts as a delegation, with 0xef01, and is not one: of 23 bytes, the
/// third of them zero.
pub proof fn lemma_only_broken_delegations_are_refused(raw: Seq<u8>)
    ensures
        raw.len() < 2 ==> valid_code(raw),
        raw.len() >= 2 && (raw[0] != 0xef || raw[1] != 0x01) ==> valid_code(raw),
        raw.len() >= 2 && raw[0] == 0xef && raw[1] == 0x01 ==> (valid_code(raw) <==> raw.len() == 23
            && raw[2] == 0),
        !valid_code(raw) ==> executed(raw) == raw,
{
}

/// A bundle deletes an account that was there before and is not after, and a slot that becomes zero of
/// an account that is there after.
pub proof fn lemma_bundle_deletions(
    state: Map<Address, BundleAccountView>,
    address: Address,
    key: B256,
)
    requires
        state.contains_key(address),
    ensures
        is_bundle_deletion(state, Deletion { address, key: None }) <==> {
            &&& state[address].original_info is Some
            &&& state[address].info is None
        },
        state[address].storage.contains_key(U256(key)) ==> (is_bundle_deletion(
            state,
            Deletion { address, key: Some(key) },
        ) <==> {
            &&& state[address].info is Some
            &&& state[address].storage[U256(key)].present_value == U256(B256::spec_zero())
            &&& state[address].storage[U256(key)].previous_or_original_value != U256(
                B256::spec_zero(),
            )
        }),
        !state[address].storage.contains_key(U256(key)) ==> !is_bundle_deletion(
            state,
            Deletion { address, key: Some(key) },
        ),
{
}

/// A bundle that changes nothing has no account, no code and no reverts.
pub proof fn lemma_empty_bundle_changes_nothing(a: Address, hash: B256)
    ensures
        !empty_bundle().state.contains_key(a),
        !empty_bundle().contracts.contains_key(hash),
        empty_bundle().reverts.len() == 0,
        empty_bundle().state_size == 0,
        empty_bundle().reverts_size == 0,
{
}

/// What a bundle says is what it holds.
pub proof fn lemma_bundle_says_what_it_holds(b: Bundle, a: Address, hash: B256)
    ensures
        b@.state.contains_key(a) == b.state@.contains_key(a),
        b.state@.contains_key(a) ==> {
            &&& b@.state[a].info == b.state@[a].info
            &&& b@.state[a].original_info == b.state@[a].original_info
            &&& b@.state[a].storage == b.state@[a].storage@
            &&& b@.state[a].status == b.state@[a].status
        },
        b@.contracts.contains_key(hash) == b.contracts@.contains_key(hash),
        b.contracts@.contains_key(hash) ==> b@.contracts[hash] == b.contracts@[hash]@,
        b@.reverts.len() == b.reverts@.len(),
        b@.state_size == b.state_size,
        b@.reverts_size == b.reverts_size,
{
}

/// Every account that a block changes is among those that can be taken back, once.
pub proof fn lemma_every_change_can_be_taken_back(
    reverts: Seq<(Address, AccountRevertView)>,
    deltas: Map<Address, AccountDelta>,
    a: Address,
) -> (i: int)
    requires
        takes_back(reverts, deltas),
        deltas.contains_key(a),
        deltas[a].old_account is Some || deltas[a].new_account is Some,
    ensures
        0 <= i < reverts.len(),
        reverts[i].0 == a,
        forall|j: int| 0 <= j < reverts.len() && j != i ==> (#[trigger] reverts[j]).0 != a,
{
    assert(reverted(reverts).contains(a));
    let i = choose|i: int| 0 <= i < reverted(reverts).len() && reverted(reverts)[i] == a;
    assert forall|j: int| 0 <= j < reverts.len() && j != i implies (#[trigger] reverts[j]).0 != a by {
        assert(reverted(reverts)[j] != reverted(reverts)[i]);
    }
    i
}

} // verus!
