//! The change of state of a chain of blocks as one, as storage takes it.

use vstd::prelude::*;

use crate::bundle::{
    empty_bundle, is_valid_code, reverts_view, valid_code, AccountInfo, AccountInfoRevert,
    AccountRevert, AccountRevertView, AccountStatus, Bundle, BundleAccount, BundleAccountView,
    BundleView, RevertToSlot, StorageSlot,
};
use crate::db::overlay::{
    account_at, chain_ends, chain_to, code_at, lookup, lookup_ends, slot_at, staged_accounts,
    staged_storage, staged_views, StagedBlock, StagedView,
};
use crate::keymap::{BlockKey, SlotKey};
use crate::primitives::{Address, SeqNum, B256, U256};
use crate::seqs::lemma_take_step;
use alloy_primitives::U256 as Word;
use revm::bytecode::Bytecode;
use revm::database::states::reverts::AccountInfoRevert as RevmInfoRevert;
use revm::database::states::{
    AccountRevert as RevmRevert, AccountStatus as RevmStatus, BundleAccount as RevmAccount,
    BundleState, RevertToSlot as RevmSlotRevert, StorageSlot as RevmSlot,
};
use revm::state::AccountInfo as RevmInfo;

verus! {

#[verifier::external_type_specification]
#[verifier::external_body]
pub struct ExBundleState(BundleState);

/// What a bundle of `revm` holds: accounts without their code, contracts with the code that was
/// deployed, reverts, and the sizes of both.
pub uninterp spec fn bundle_contents(b: BundleState) -> BundleView;

/// What `revm::database::states::BundleState::extend` makes of two bundles.
pub uninterp spec fn extended(bundle: BundleView, other: BundleView) -> BundleView;

/// An account of which nothing but its info is known.
pub open spec fn bare_account(info: Option<AccountInfo>, original_info: Option<AccountInfo>) -> BundleAccountView {
    BundleAccountView {
        info,
        original_info,
        storage: Map::empty(),
        status: AccountStatus::LoadedNotExisting,
    }
}

/// A revert of which nothing but what becomes of the account is known.
pub open spec fn bare_revert(account: AccountInfoRevert, wipe_storage: bool) -> AccountRevertView {
    AccountRevertView {
        account,
        storage: Map::empty(),
        previous_status: AccountStatus::LoadedNotExisting,
        wipe_storage,
    }
}

impl BundleView {
    /// With an account under an address.
    pub open spec fn with_account(self, a: Address, account: BundleAccountView) -> BundleView {
        BundleView { state: self.state.insert(a, account), ..self }
    }

    /// With a revert in place of the last revert of the last block.
    pub open spec fn with_last_revert(self, revert: AccountRevertView) -> BundleView {
        let block = self.reverts.last();
        BundleView {
            reverts: self.reverts.drop_last().push(
                block.drop_last().push((block.last().0, revert)),
            ),
            ..self
        }
    }

    /// The last revert of the last block.
    pub open spec fn last_revert(self) -> AccountRevertView {
        self.reverts.last().last().1
    }

    /// Whether there is a last revert.
    pub open spec fn has_last_revert(self) -> bool {
        self.reverts.len() > 0 && self.reverts.last().len() > 0
    }
}

/// The value of a slot that a bundle changes.
pub open spec fn slot_in(bundle: BundleView, a: Address, k: U256) -> Option<U256> {
    if bundle.state.contains_key(a) && bundle.state[a].storage.contains_key(k) {
        Some(bundle.state[a].storage[k].present_value)
    } else {
        None
    }
}

/// Whether a bundle takes all storage from an account: the account was deleted, or a revert tells
/// that its storage was wiped.
pub open spec fn wipes_storage(bundle: BundleView, a: Address) -> bool {
    ||| bundle.state.contains_key(a) && (bundle.state[a].status is Destroyed
        || bundle.state[a].status is DestroyedChanged || bundle.state[a].status is DestroyedAgain)
    ||| exists|i: int, j: int|
        0 <= i < bundle.reverts.len() && 0 <= j < bundle.reverts[i].len() && (
        #[trigger] bundle.reverts[i][j]).0 == a && bundle.reverts[i][j].1.wipe_storage
}

/// The value of a slot after a bundle on top of another one: what the bundle on top says, or what
/// was there, unless the storage of the account was taken.
pub open spec fn slot_after(below: BundleView, above: BundleView, a: Address, k: U256) -> Option<U256> {
    if slot_in(above, a, k) is Some {
        slot_in(above, a, k)
    } else if wipes_storage(above, a) {
        None
    } else {
        slot_in(below, a, k)
    }
}

/// Whether the size of a bundle counts at least its accounts and their slots. A bundle that counts
/// fewer cannot be extended.
pub open spec fn counts_accounts(bundle: BundleView) -> bool {
    &&& bundle.state.dom().finite()
    &&& bundle.state.dom().fold(
        0nat,
        |n: nat, a: Address| n + 1nat + bundle.state[a].storage.dom().len(),
    ) <= bundle.state_size
}

/// `revm::database::states::BundleState::default`: a bundle that holds nothing.
#[verifier::external_body]
fn new_bundle() -> (r: BundleState)
    ensures
        bundle_contents(r) == empty_bundle(),
        counts_accounts(bundle_contents(r)),
{
    BundleState::default()
}

/// `revm::database::states::BundleAccount::new`, put under an address in the accounts of a bundle:
/// an account with this info, without storage, is there, and everything else stays.
#[verifier::external_body]
fn put_account(
    b: &mut BundleState,
    address: &Address,
    info: &Option<AccountInfo>,
    original_info: &Option<AccountInfo>,
)
    ensures
        bundle_contents(*final(b)) == bundle_contents(*old(b)).with_account(
            *address,
            bare_account(*info, *original_info),
        ),
{
    let convert = |i: &AccountInfo| RevmInfo {
        balance: Word::from_be_bytes(i.balance.0.0),
        nonce: i.nonce,
        code_hash: i.code_hash.0.into(),
        code: None,
        account_id: None,
    };
    let original = original_info.as_ref().map(convert);
    let status = RevmStatus::LoadedNotExisting;
    let account = RevmAccount::new(original, info.as_ref().map(convert), Default::default(), status);
    b.state.insert(address.0.into(), account);
}

/// `revm::database::states::StorageSlot::new_changed`, put under a key in the storage of an account
/// of a bundle: the slot is there, and everything else stays.
#[verifier::external_body]
fn put_slot(b: &mut BundleState, address: &Address, key: &U256, slot: &StorageSlot)
    requires
        bundle_contents(*old(b)).state.contains_key(*address),
    ensures
        bundle_contents(*final(b)) == bundle_contents(*old(b)).with_account(
            *address,
            BundleAccountView {
                storage: bundle_contents(*old(b)).state[*address].storage.insert(*key, *slot),
                ..bundle_contents(*old(b)).state[*address]
            },
        ),
{
    let word = |w: &U256| Word::from_be_bytes(w.0.0);
    let (before, now) = (word(&slot.previous_or_original_value), word(&slot.present_value));
    let account = b.state.get_mut(&alloy_primitives::Address::from(address.0)).unwrap();
    account.storage.insert(word(key), RevmSlot::new_changed(before, now));
}

/// The status of an account of a bundle of `revm` is set, and everything else stays.
#[verifier::external_body]
fn set_status(b: &mut BundleState, address: &Address, status: AccountStatus)
    requires
        bundle_contents(*old(b)).state.contains_key(*address),
    ensures
        bundle_contents(*final(b)) == bundle_contents(*old(b)).with_account(
            *address,
            BundleAccountView { status, ..bundle_contents(*old(b)).state[*address] },
        ),
{
    let account = b.state.get_mut(&alloy_primitives::Address::from(address.0)).unwrap();
    account.status = match status {
        AccountStatus::LoadedNotExisting => RevmStatus::LoadedNotExisting,
        AccountStatus::Loaded => RevmStatus::Loaded,
        AccountStatus::LoadedEmptyEIP161 => RevmStatus::LoadedEmptyEIP161,
        AccountStatus::InMemoryChange => RevmStatus::InMemoryChange,
        AccountStatus::Changed => RevmStatus::Changed,
        AccountStatus::Destroyed => RevmStatus::Destroyed,
        AccountStatus::DestroyedChanged => RevmStatus::DestroyedChanged,
        AccountStatus::DestroyedAgain => RevmStatus::DestroyedAgain,
    };
}

/// `revm::bytecode::Bytecode::new_raw`, put under a hash in the contracts of a bundle: the code is
/// there as it was deployed, and everything else stays.
#[verifier::external_body]
fn put_contract(b: &mut BundleState, hash: &B256, code: &Vec<u8>)
    requires
        valid_code(code@),
    ensures
        bundle_contents(*final(b)) == (BundleView {
            contracts: bundle_contents(*old(b)).contracts.insert(*hash, code@),
            ..bundle_contents(*old(b))
        }),
{
    b.contracts.insert(hash.0.into(), Bytecode::new_raw(code.clone().into()));
}

/// `Vec::push` on the reverts of a bundle of `revm`: one more block, without reverts.
#[verifier::external_body]
fn begin_block(b: &mut BundleState)
    ensures
        bundle_contents(*final(b)) == (BundleView {
            reverts: bundle_contents(*old(b)).reverts.push(Seq::empty()),
            ..bundle_contents(*old(b))
        }),
{
    b.reverts.push(Vec::new());
}

/// `Vec::push` on the reverts of the last block of a bundle of `revm`: a revert without storage comes
/// last there, and everything else stays.
#[verifier::external_body]
fn push_revert(
    b: &mut BundleState,
    address: &Address,
    account: &AccountInfoRevert,
    wipe_storage: bool,
)
    requires
        bundle_contents(*old(b)).reverts.len() > 0,
    ensures
        bundle_contents(*final(b)) == (BundleView {
            reverts: bundle_contents(*old(b)).reverts.drop_last().push(
                bundle_contents(*old(b)).reverts.last().push(
                    (*address, bare_revert(*account, wipe_storage)),
                ),
            ),
            ..bundle_contents(*old(b))
        }),
{
    let account = match account {
        AccountInfoRevert::DoNothing => RevmInfoRevert::DoNothing,
        AccountInfoRevert::DeleteIt => RevmInfoRevert::DeleteIt,
        AccountInfoRevert::RevertTo(i) => RevmInfoRevert::RevertTo(RevmInfo {
            balance: Word::from_be_bytes(i.balance.0.0),
            nonce: i.nonce,
            code_hash: i.code_hash.0.into(),
            code: None,
            account_id: None,
        }),
    };
    let revert = RevmRevert { account, wipe_storage, ..Default::default() };
    b.reverts.last_mut().unwrap().push((address.0.into(), revert));
}

/// A slot is put under a key in the storage of the last revert of a bundle of `revm`, and everything
/// else stays.
#[verifier::external_body]
fn put_revert_slot(b: &mut BundleState, key: &U256, slot: &RevertToSlot)
    requires
        bundle_contents(*old(b)).has_last_revert(),
    ensures
        bundle_contents(*final(b)) == bundle_contents(*old(b)).with_last_revert(
            AccountRevertView {
                storage: bundle_contents(*old(b)).last_revert().storage.insert(*key, *slot),
                ..bundle_contents(*old(b)).last_revert()
            },
        ),
{
    let word = |w: &U256| Word::from_be_bytes(w.0.0);
    let value = match slot {
        RevertToSlot::Value(v) => RevmSlotRevert::Some(word(v)),
        RevertToSlot::Destroyed => RevmSlotRevert::Destroyed,
    };
    b.reverts.last_mut().unwrap().last_mut().unwrap().1.storage.insert(word(key), value);
}

/// The previous status of the last revert of a bundle of `revm` is set, and everything else stays.
#[verifier::external_body]
fn set_previous_status(b: &mut BundleState, status: AccountStatus)
    requires
        bundle_contents(*old(b)).has_last_revert(),
    ensures
        bundle_contents(*final(b)) == bundle_contents(*old(b)).with_last_revert(
            AccountRevertView {
                previous_status: status,
                ..bundle_contents(*old(b)).last_revert()
            },
        ),
{
    b.reverts.last_mut().unwrap().last_mut().unwrap().1.previous_status = match status {
        AccountStatus::LoadedNotExisting => RevmStatus::LoadedNotExisting,
        AccountStatus::Loaded => RevmStatus::Loaded,
        AccountStatus::LoadedEmptyEIP161 => RevmStatus::LoadedEmptyEIP161,
        AccountStatus::InMemoryChange => RevmStatus::InMemoryChange,
        AccountStatus::Changed => RevmStatus::Changed,
        AccountStatus::Destroyed => RevmStatus::Destroyed,
        AccountStatus::DestroyedChanged => RevmStatus::DestroyedChanged,
        AccountStatus::DestroyedAgain => RevmStatus::DestroyedAgain,
    };
}

/// `revm::database::states::BundleState::extend`: the other bundle on top of this one, which
/// depends on what both hold alone. An account has the info that the other bundle gives it, if it
/// gives one; a slot has the value that the other bundle gives it and, where it gives none, keeps
/// its own, unless the other bundle takes the storage of the account; the code of the other bundle
/// comes to the code of this one; and its reverts come behind the reverts of this one. The size of
/// an account that is there already is taken off before it is added again, so the size has to count
/// it. What becomes of the status of an account and of what the reverts say is not stated.
#[verifier::external_body]
fn extend_bundle(b: &mut BundleState, other: BundleState)
    requires
        counts_accounts(bundle_contents(*old(b))),
    ensures
        counts_accounts(bundle_contents(*final(b))),
        bundle_contents(*final(b)) == extended(bundle_contents(*old(b)), bundle_contents(other)),
        bundle_contents(*final(b)).state.dom() == bundle_contents(*old(b)).state.dom().union(
            bundle_contents(other).state.dom(),
        ),
        forall|a: Address| #[trigger]
            bundle_contents(*final(b)).state.contains_key(a) ==> bundle_contents(
                *final(b),
            ).state[a].info == (if bundle_contents(other).state.contains_key(a) {
                bundle_contents(other).state[a].info
            } else {
                bundle_contents(*old(b)).state[a].info
            }),
        forall|a: Address, k: U256| #[trigger]
            slot_in(bundle_contents(*final(b)), a, k) == slot_after(
                bundle_contents(*old(b)),
                bundle_contents(other),
                a,
                k,
            ),
        bundle_contents(*final(b)).contracts == bundle_contents(
            *old(b),
        ).contracts.union_prefer_right(bundle_contents(other).contracts),
        bundle_contents(*final(b)).reverts.len() == bundle_contents(*old(b)).reverts.len()
            + bundle_contents(other).reverts.len(),
{
    b.extend(other);
}

fn add_account(b: &mut BundleState, address: &Address, account: &BundleAccount)
    ensures
        bundle_contents(*final(b)) == bundle_contents(*old(b)).with_account(*address, account@),
{
    let ghost before = bundle_contents(*b);
    put_account(b, address, &account.info, &account.original_info);
    set_status(b, address, account.status);
    let keys = account.storage.keys();
    let mut i: usize = 0;
    let ghost mut slots: Map<U256, StorageSlot> = Map::empty();
    assert(bundle_contents(*b) =~= before.with_account(
        *address,
        BundleAccountView { storage: slots, ..account@ },
    ));
    while i < keys.len()
        invariant
            i <= keys@.len(),
            keys@.to_set() == account.storage@.dom(),
            bundle_contents(*b) == before.with_account(
                *address,
                BundleAccountView { storage: slots, ..account@ },
            ),
            forall|k: U256| #[trigger] slots.contains_key(k) <==> keys@.take(i as int).contains(k),
            forall|k: U256| #[trigger] slots.contains_key(k) ==> slots[k] == account.storage@[k],
        decreases keys@.len() - i,
    {
        let key = keys[i];
        proof {
            assert(keys@.to_set().contains(key));
            lemma_take_step(keys@, i as int);
        }
        if let Some(slot) = account.storage.get(&key) {
            put_slot(b, address, &key, slot);
            proof {
                slots = slots.insert(key, *slot);
                assert(bundle_contents(*b) =~= before.with_account(
                    *address,
                    BundleAccountView { storage: slots, ..account@ },
                ));
            }
        }
        i = i + 1;
    }
    proof {
        assert(keys@.take(i as int) =~= keys@);
        assert forall|k: U256| keys@.contains(k) <==> account.storage@.contains_key(k) by {
            assert(keys@.to_set().contains(k) <==> keys@.contains(k));
        }
        assert(slots =~= account@.storage);
    }
}

fn add_revert(b: &mut BundleState, address: &Address, revert: &AccountRevert)
    requires
        bundle_contents(*old(b)).reverts.len() > 0,
    ensures
        bundle_contents(*final(b)) == (BundleView {
            reverts: bundle_contents(*old(b)).reverts.drop_last().push(
                bundle_contents(*old(b)).reverts.last().push((*address, revert@)),
            ),
            ..bundle_contents(*old(b))
        }),
{
    push_revert(b, address, &revert.account, revert.wipe_storage);
    let ghost base = bundle_contents(*b);
    set_previous_status(b, revert.previous_status);
    let keys = revert.storage.keys();
    let mut i: usize = 0;
    let ghost mut slots: Map<U256, RevertToSlot> = Map::empty();
    assert(bundle_contents(*b) =~= base.with_last_revert(
        AccountRevertView { storage: slots, ..revert@ },
    ));
    while i < keys.len()
        invariant
            i <= keys@.len(),
            keys@.to_set() == revert.storage@.dom(),
            base.has_last_revert(),
            bundle_contents(*b) == base.with_last_revert(
                AccountRevertView { storage: slots, ..revert@ },
            ),
            forall|k: U256| #[trigger] slots.contains_key(k) <==> keys@.take(i as int).contains(k),
            forall|k: U256| #[trigger] slots.contains_key(k) ==> slots[k] == revert.storage@[k],
        decreases keys@.len() - i,
    {
        let key = keys[i];
        proof {
            assert(keys@.to_set().contains(key));
            lemma_take_step(keys@, i as int);
        }
        if let Some(slot) = revert.storage.get(&key) {
            let ghost now = bundle_contents(*b);
            put_revert_slot(b, &key, slot);
            proof {
                slots = slots.insert(key, *slot);
                let next = AccountRevertView { storage: slots, ..revert@ };
                assert(now.reverts.drop_last() =~= base.reverts.drop_last());
                assert(now.reverts.last().drop_last() =~= base.reverts.last().drop_last());
                assert(bundle_contents(*b) =~= base.with_last_revert(next));
            }
        }
        i = i + 1;
    }
    proof {
        assert(keys@.take(i as int) =~= keys@);
        assert forall|k: U256| keys@.contains(k) <==> revert.storage@.contains_key(k) by {
            assert(keys@.to_set().contains(k) <==> keys@.contains(k));
        }
        assert(slots =~= revert@.storage);
        let block = bundle_contents(*old(b)).reverts.last();
        assert(base.reverts.drop_last() =~= bundle_contents(*old(b)).reverts.drop_last());
        assert(base.reverts.last().drop_last() =~= block);
        assert(bundle_contents(*b).reverts =~= bundle_contents(*old(b)).reverts.drop_last().push(
            block.push((*address, revert@)),
        ));
    }
}

/// A bundle without its sizes.
pub open spec fn bare(bundle: BundleView) -> BundleView {
    BundleView { state_size: 0, reverts_size: 0, ..bundle }
}

/// Whether all code of a bundle can be kept.
pub open spec fn has_valid_code(bundle: BundleView) -> bool {
    forall|h: B256| #[trigger] bundle.contracts.contains_key(h) ==> valid_code(bundle.contracts[h])
}

fn put_accounts(b: &mut BundleState, bundle: &Bundle)
    requires
        bundle_contents(*old(b)) == empty_bundle(),
    ensures
        bundle_contents(*final(b)) == (BundleView { state: bundle@.state, ..empty_bundle() }),
{
    let keys = bundle.state.keys();
    let mut i: usize = 0;
    while i < keys.len()
        invariant
            i <= keys@.len(),
            keys@.to_set() == bundle.state@.dom(),
            bundle_contents(*b) == (BundleView {
                state: bundle_contents(*b).state,
                ..empty_bundle()
            }),
            forall|a: Address| #[trigger]
                bundle_contents(*b).state.contains_key(a) <==> keys@.take(i as int).contains(a),
            forall|a: Address| #[trigger]
                bundle_contents(*b).state.contains_key(a) ==> bundle_contents(*b).state[a]
                    == bundle@.state[a],
        decreases keys@.len() - i,
    {
        let address = keys[i];
        proof {
            assert(keys@.to_set().contains(address));
            lemma_take_step(keys@, i as int);
        }
        if let Some(account) = bundle.state.get(&address) {
            add_account(b, &address, account);
        }
        i = i + 1;
    }
    proof {
        assert(keys@.take(i as int) =~= keys@);
        assert forall|a: Address| keys@.contains(a) <==> bundle@.state.contains_key(a) by {
            assert(keys@.to_set().contains(a) <==> keys@.contains(a));
        }
        assert(bundle_contents(*b).state =~= bundle@.state);
    }
}

fn put_contracts(b: &mut BundleState, bundle: &Bundle) -> (r: bool)
    requires
        bundle_contents(*old(b)).contracts == Map::<B256, Seq<u8>>::empty(),
    ensures
        r == has_valid_code(bundle@),
        r ==> bundle_contents(*final(b)) == (BundleView {
            contracts: bundle@.contracts,
            ..bundle_contents(*old(b))
        }),
{
    let ghost before = bundle_contents(*b);
    let keys = bundle.contracts.keys();
    let mut i: usize = 0;
    while i < keys.len()
        invariant
            i <= keys@.len(),
            keys@.to_set() == bundle.contracts@.dom(),
            bundle_contents(*b) == (BundleView {
                contracts: bundle_contents(*b).contracts,
                ..before
            }),
            forall|h: B256| #[trigger]
                bundle_contents(*b).contracts.contains_key(h) <==> keys@.take(i as int).contains(h),
            forall|h: B256| #[trigger]
                bundle_contents(*b).contracts.contains_key(h) ==> bundle_contents(*b).contracts[h]
                    == bundle@.contracts[h] && valid_code(bundle@.contracts[h]),
        decreases keys@.len() - i,
    {
        let hash = keys[i];
        proof {
            assert(keys@.to_set().contains(hash));
            lemma_take_step(keys@, i as int);
        }
        if let Some(code) = bundle.contracts.get(&hash) {
            assert(bundle@.contracts[hash] == code@);
            if !is_valid_code(code) {
                assert(bundle@.contracts.contains_key(hash));
                return false;
            }
            put_contract(b, &hash, code);
        }
        i = i + 1;
    }
    proof {
        assert(keys@.take(i as int) =~= keys@);
        assert forall|h: B256| keys@.contains(h) <==> bundle@.contracts.contains_key(h) by {
            assert(keys@.to_set().contains(h) <==> keys@.contains(h));
        }
        assert(bundle_contents(*b).contracts =~= bundle@.contracts);
        assert forall|h: B256| #[trigger] bundle@.contracts.contains_key(h) implies valid_code(
            bundle@.contracts[h],
        ) by {
            assert(bundle_contents(*b).contracts.contains_key(h));
        }
    }
    true
}

fn put_block_reverts(b: &mut BundleState, reverts: &Vec<(Address, AccountRevert)>)
    ensures
        bundle_contents(*final(b)) == (BundleView {
            reverts: bundle_contents(*old(b)).reverts.push(reverts_view(reverts@)),
            ..bundle_contents(*old(b))
        }),
{
    let ghost before = bundle_contents(*b);
    let ghost all = reverts_view(reverts@);
    begin_block(b);
    let mut i: usize = 0;
    assert(all.take(0) =~= Seq::empty());
    while i < reverts.len()
        invariant
            i <= reverts@.len(),
            all == reverts_view(reverts@),
            bundle_contents(*b) == (BundleView {
                reverts: before.reverts.push(all.take(i as int)),
                ..before
            }),
        decreases reverts@.len() - i,
    {
        let (address, revert) = (&reverts[i].0, &reverts[i].1);
        proof {
            assert(all.take(i + 1) =~= all.take(i as int).push((*address, revert@)));
            assert(before.reverts.push(all.take(i as int)).drop_last() =~= before.reverts);
        }
        add_revert(b, address, revert);
        i = i + 1;
    }
    assert(all.take(i as int) =~= all);
}

/// A bundle as storage takes it; none if it holds code that cannot be kept.
pub fn build_bundle(bundle: &Bundle) -> (r: Option<BundleState>)
    ensures
        match r {
            Some(b) => has_valid_code(bundle@) && bundle_contents(b) == bare(bundle@),
            None => !has_valid_code(bundle@),
        },
{
    let mut b = new_bundle();
    put_accounts(&mut b, bundle);
    if !put_contracts(&mut b, bundle) {
        return None;
    }
    let ghost before = bundle_contents(b);
    let ghost all = bundle@.reverts;
    let mut i: usize = 0;
    assert(all.take(0) =~= Seq::empty());
    while i < bundle.reverts.len()
        invariant
            i <= bundle.reverts@.len(),
            all == bundle@.reverts,
            before.reverts == Seq::<Seq<(Address, AccountRevertView)>>::empty(),
            bundle_contents(b) == (BundleView { reverts: all.take(i as int), ..before }),
        decreases bundle.reverts@.len() - i,
    {
        put_block_reverts(&mut b, &bundle.reverts[i]);
        proof {
            assert(all[i as int] == reverts_view(bundle.reverts@[i as int]@));
            assert(all.take(i + 1) =~= all.take(i as int).push(all[i as int]));
        }
        i = i + 1;
    }
    assert(all.take(i as int) =~= all);
    assert(bundle_contents(b) =~= bare(bundle@));
    Some(b)
}

/// The change of state of a chain of blocks as one: each block on top of those before it.
pub open spec fn merged(chain: Seq<StagedView>) -> BundleView
    decreases chain.len(),
{
    if chain.len() == 0 {
        empty_bundle()
    } else {
        extended(merged(chain.drop_last()), bare(chain.last().bundle))
    }
}

/// What the last block of a chain that changes an account leaves of it.
pub open spec fn last_info(chain: Seq<StagedView>, a: Address) -> Option<Option<AccountInfo>>
    decreases chain.len(),
{
    if chain.len() == 0 {
        None
    } else if chain.last().bundle.state.contains_key(a) {
        Some(chain.last().bundle.state[a].info)
    } else {
        last_info(chain.drop_last(), a)
    }
}

/// The code that a chain of blocks adds: the last block that adds code for a hash decides.
pub open spec fn all_contracts(chain: Seq<StagedView>) -> Map<B256, Seq<u8>>
    decreases chain.len(),
{
    if chain.len() == 0 {
        Map::empty()
    } else {
        all_contracts(chain.drop_last()).union_prefer_right(chain.last().bundle.contracts)
    }
}

/// The value that a chain of blocks leaves in a slot that it changes: the last block that changes it
/// decides, unless a later one takes the storage of the account.
pub open spec fn last_slot(chain: Seq<StagedView>, a: Address, k: U256) -> Option<U256>
    decreases chain.len(),
{
    if chain.len() == 0 {
        None
    } else if slot_in(chain.last().bundle, a, k) is Some {
        slot_in(chain.last().bundle, a, k)
    } else if wipes_storage(chain.last().bundle, a) {
        None
    } else {
        last_slot(chain.drop_last(), a, k)
    }
}

/// Whether a bundle leaves every account as the last block that changes it does.
pub open spec fn leaves_accounts(bundle: BundleView, chain: Seq<StagedView>) -> bool {
    forall|a: Address|
        (match last_info(chain, a) {
            Some(info) => #[trigger] bundle.state.contains_key(a) && bundle.state[a].info == info,
            None => !bundle.state.contains_key(a),
        })
}

/// The change of state of a chain of blocks as one, as storage takes it: every account and every
/// slot is left as the last block that changes it leaves it. None if a block holds code that cannot be kept.
pub fn merge_chain(chain: &Vec<&StagedBlock>) -> (r: Option<BundleState>)
    ensures
        match r {
            Some(b) => {
                &&& forall|i: int|
                    0 <= i < chain@.len() ==> has_valid_code((#[trigger] chain@[i])@.bundle)
                &&& bundle_contents(b) == merged(staged_views(chain@))
                &&& leaves_accounts(bundle_contents(b), staged_views(chain@))
                &&& forall|a: Address, k: U256| #[trigger]
                    slot_in(bundle_contents(b), a, k) == last_slot(staged_views(chain@), a, k)
                &&& bundle_contents(b).contracts == all_contracts(staged_views(chain@))
            },
            None => exists|i: int|
                0 <= i < chain@.len() && !has_valid_code((#[trigger] chain@[i])@.bundle),
        },
{
    let ghost all = staged_views(chain@);
    let mut b = new_bundle();
    let mut i: usize = 0;
    proof {
        assert(all.take(0) =~= Seq::empty());
        assert(leaves_accounts(bundle_contents(b), all.take(0)));
    }
    while i < chain.len()
        invariant
            i <= chain@.len(),
            all == staged_views(chain@),
            forall|j: int| 0 <= j < i ==> has_valid_code((#[trigger] chain@[j])@.bundle),
            counts_accounts(bundle_contents(b)),
            bundle_contents(b) == merged(all.take(i as int)),
            leaves_accounts(bundle_contents(b), all.take(i as int)),
            forall|a: Address, k: U256| #[trigger]
                slot_in(bundle_contents(b), a, k) == last_slot(all.take(i as int), a, k),
            bundle_contents(b).contracts == all_contracts(all.take(i as int)),
        decreases chain@.len() - i,
    {
        let staged = chain[i];
        let ghost more = all.take(i + 1);
        proof {
            assert(more.drop_last() =~= all.take(i as int));
            assert(more.last() == staged@);
        }
        match build_bundle(&staged.bundle) {
            Some(other) => {
                let ghost before = bundle_contents(b);
                extend_bundle(&mut b, other);
                proof {
                    let now = bundle_contents(b);
                    assert forall|a: Address, k: U256| #[trigger] slot_in(now, a, k) == last_slot(
                        more,
                        a,
                        k,
                    ) by {
                        assert(slot_in(before, a, k) == last_slot(all.take(i as int), a, k));
                        assert(slot_in(bundle_contents(other), a, k) == slot_in(
                            more.last().bundle,
                            a,
                            k,
                        ));
                        assert(wipes_storage(bundle_contents(other), a) == wipes_storage(
                            more.last().bundle,
                            a,
                        ));
                    }
                    assert forall|a: Address|
                        (match last_info(more, a) {
                            Some(info) => #[trigger] now.state.contains_key(a) && now.state[a].info
                                == info,
                            None => !now.state.contains_key(a),
                        }) by {
                        assert(now.state.dom().contains(a) <==> before.state.dom().contains(a)
                            || bundle_contents(other).state.dom().contains(a));
                        assert(match last_info(all.take(i as int), a) {
                            Some(info) => before.state.contains_key(a) && before.state[a].info
                                == info,
                            None => !before.state.contains_key(a),
                        });
                    }
                }
            },
            None => {
                assert(!has_valid_code(chain@[i as int]@.bundle));
                return None;
            },
        }
        i = i + 1;
    }
    assert(all.take(i as int) =~= all);
    Some(b)
}

/// What `f` gives for the last block of a chain for which it gives something.
pub open spec fn last_of<V>(chain: Seq<StagedView>, f: spec_fn(StagedView) -> Option<V>) -> Option<V>
    decreases chain.len(),
{
    if chain.len() == 0 {
        None
    } else if f(chain.last()) is Some {
        f(chain.last())
    } else {
        last_of(chain.drop_last(), f)
    }
}

/// What a read finds in the proposed blocks is what the last block says that is finalized along: no
/// read changes its answer because blocks are finalized.
pub proof fn lemma_reads_agree_with_chain<V>(
    blocks: Map<BlockKey, StagedView>,
    k: BlockKey,
    finalized: SeqNum,
    f: spec_fn(StagedView) -> Option<V>,
    n: nat,
)
    requires
        chain_ends(blocks, k, finalized, n),
        forall|k: BlockKey| #[trigger] blocks.contains_key(k) ==> k.seq.0 > finalized.0,
    ensures
        lookup_ends(blocks, k, finalized, f, n),
        lookup(blocks, k, finalized, f, n) == last_of(chain_to(blocks, k, finalized, n), f),
    decreases n,
{
    if blocks.contains_key(k) {
        let rest = chain_to(blocks, blocks[k].parent, finalized, (n - 1) as nat);
        lemma_reads_agree_with_chain(blocks, blocks[k].parent, finalized, f, (n - 1) as nat);
        assert(rest.push(blocks[k]).drop_last() =~= rest);
    }
}

/// An account that a chain of blocks changes reads, before the blocks are finalized, as what they
/// leave in storage. It is enough that every block keeps the accounts of its change of state, and
/// tells of every account that it changes whether there was or is one.
pub proof fn lemma_storage_gets_what_reads_see(chain: Seq<StagedView>, a: Address)
    requires
        forall|i: int|
            0 <= i < chain.len() ==> (#[trigger] chain[i]).accounts == staged_accounts(
                chain[i].bundle.state,
            ),
        forall|i: int|
            0 <= i < chain.len() && (#[trigger] chain[i]).bundle.state.contains_key(a)
                ==> chain[i].bundle.state[a].info is Some
                || chain[i].bundle.state[a].original_info is Some,
    ensures
        last_of(chain, account_at(a)) == match last_info(chain, a) {
            Some(Some(info)) => Some(Some(crate::bundle::eth_account(info))),
            Some(None) => Some(None),
            None => None,
        },
    decreases chain.len(),
{
    if chain.len() > 0 {
        let rest = chain.drop_last();
        assert forall|i: int| 0 <= i < rest.len() implies (#[trigger] rest[i]) == chain[i] by {
        }
        lemma_storage_gets_what_reads_see(rest, a);
        assert(chain.last() == chain[chain.len() - 1]);
    }
}

proof fn lemma_nothing_said<V>(chain: Seq<StagedView>, f: spec_fn(StagedView) -> Option<V>)
    requires
        forall|i: int| 0 <= i < chain.len() ==> f(#[trigger] chain[i]) is None,
    ensures
        last_of(chain, f) is None,
    decreases chain.len(),
{
    if chain.len() > 0 {
        assert(chain.last() == chain[chain.len() - 1]);
        let rest = chain.drop_last();
        assert forall|i: int| 0 <= i < rest.len() implies f(#[trigger] rest[i]) is None by {
            assert(rest[i] == chain[i]);
        }
        lemma_nothing_said(rest, f);
    }
}

/// A slot that a chain of blocks changes reads, before the blocks are finalized, as what they leave
/// in storage, unless a block takes the storage of its account and no later block changes the slot.
/// It is enough that every block keeps the slots of its change of state.
pub proof fn lemma_storage_gets_the_slots_that_reads_see(chain: Seq<StagedView>, key: SlotKey)
    requires
        forall|i: int|
            0 <= i < chain.len() ==> (#[trigger] chain[i]).storage == staged_storage(
                chain[i].bundle.state,
            ),
        forall|i: int, j: int|
            0 <= i < j < chain.len() && slot_at(key)(#[trigger] chain[i]) is Some && wipes_storage(
                (#[trigger] chain[j]).bundle,
                key.address,
            ) ==> exists|l: int|
                j <= l < chain.len() && slot_at(key)(#[trigger] chain[l]) is Some,
    ensures
        last_of(chain, slot_at(key)) == match last_slot(chain, key.address, U256(key.slot)) {
            Some(value) => Some(value.0),
            None => None,
        },
    decreases chain.len(),
{
    if chain.len() > 0 {
        let n = chain.len() - 1;
        let rest = chain.drop_last();
        assert(chain.last() == chain[n]);
        if slot_at(key)(chain[n]) is None {
            assert forall|i: int| 0 <= i < rest.len() implies (#[trigger] rest[i]) == chain[i] by {
            }
            if wipes_storage(chain[n].bundle, key.address) {
                assert forall|i: int| 0 <= i < rest.len() implies slot_at(key)(
                    #[trigger] rest[i],
                ) is None by {
                    assert(rest[i] == chain[i]);
                }
                lemma_nothing_said(rest, slot_at(key));
            } else {
                assert forall|i: int, j: int|
                    0 <= i < j < rest.len() && slot_at(key)(#[trigger] rest[i]) is Some
                        && wipes_storage((#[trigger] rest[j]).bundle, key.address) implies exists|
                    l: int,
                |
                    j <= l < rest.len() && slot_at(key)(#[trigger] rest[l]) is Some by {
                    assert(rest[i] == chain[i] && rest[j] == chain[j]);
                    let l = choose|l: int|
                        j <= l < chain.len() && slot_at(key)(#[trigger] chain[l]) is Some;
                    assert(rest[l] == chain[l]);
                }
                lemma_storage_gets_the_slots_that_reads_see(rest, key);
            }
        }
    }
}

/// Code that a chain of blocks adds reads, before the blocks are finalized, as what they leave in
/// storage.
pub proof fn lemma_storage_gets_the_code_that_reads_see(chain: Seq<StagedView>, hash: B256)
    ensures
        last_of(chain, code_at(hash)) == if all_contracts(chain).contains_key(hash) {
            Some(all_contracts(chain)[hash])
        } else {
            None
        },
    decreases chain.len(),
{
    if chain.len() > 0 {
        lemma_storage_gets_the_code_that_reads_see(chain.drop_last(), hash);
    }
}

/// What a chain of blocks leaves of an account is what the last block leaves that changes it.
pub proof fn lemma_last_change_of_an_account_counts(chain: Seq<StagedView>, a: Address, i: int)
    requires
        0 <= i < chain.len(),
        chain[i].bundle.state.contains_key(a),
        forall|j: int|
            i < j < chain.len() ==> !(#[trigger] chain[j]).bundle.state.contains_key(a),
    ensures
        last_info(chain, a) == Some(chain[i].bundle.state[a].info),
    decreases chain.len(),
{
    assert(chain.last() == chain[chain.len() - 1]);
    if i < chain.len() - 1 {
        let rest = chain.drop_last();
        assert forall|j: int| i < j < rest.len() implies !(
        #[trigger] rest[j]).bundle.state.contains_key(a) by {
            assert(rest[j] == chain[j]);
        }
        lemma_last_change_of_an_account_counts(rest, a, i);
    }
}

/// What a chain of blocks leaves in a slot is what the last block leaves that changes it, unless a later
/// block takes all storage of its account.
pub proof fn lemma_last_change_of_a_slot_counts(
    chain: Seq<StagedView>,
    a: Address,
    k: U256,
    i: int,
)
    requires
        0 <= i < chain.len(),
        chain[i].bundle.state.contains_key(a),
        chain[i].bundle.state[a].storage.contains_key(k),
        forall|j: int|
            i < j < chain.len() ==> slot_in((#[trigger] chain[j]).bundle, a, k) is None
                && !wipes_storage(chain[j].bundle, a),
    ensures
        last_slot(chain, a, k) == Some(chain[i].bundle.state[a].storage[k].present_value),
    decreases chain.len(),
{
    assert(chain.last() == chain[chain.len() - 1]);
    if i < chain.len() - 1 {
        let rest = chain.drop_last();
        assert forall|j: int| i < j < rest.len() implies slot_in(
            (#[trigger] rest[j]).bundle,
            a,
            k,
        ) is None && !wipes_storage(rest[j].bundle, a) by {
            assert(rest[j] == chain[j]);
        }
        lemma_last_change_of_a_slot_counts(rest, a, k, i);
    }
}

/// Code that a block of a chain deploys, and that no later block deploys anew, is kept as it was
/// deployed.
pub proof fn lemma_deployed_code_is_kept(chain: Seq<StagedView>, hash: B256, i: int)
    requires
        0 <= i < chain.len(),
        chain[i].bundle.contracts.contains_key(hash),
        forall|j: int|
            i < j < chain.len() ==> !(#[trigger] chain[j]).bundle.contracts.contains_key(hash),
    ensures
        all_contracts(chain).contains_key(hash),
        all_contracts(chain)[hash] == chain[i].bundle.contracts[hash],
    decreases chain.len(),
{
    assert(chain.last() == chain[chain.len() - 1]);
    if i < chain.len() - 1 {
        let rest = chain.drop_last();
        assert forall|j: int| i < j < rest.len() implies !(
        #[trigger] rest[j]).bundle.contracts.contains_key(hash) by {
            assert(rest[j] == chain[j]);
        }
        lemma_deployed_code_is_kept(rest, hash, i);
    }
}

} // verus!
