//! State sync on a database in memory.

use vstd::prelude::*;

use crate::hashing::{has_prefix, keccak256_bytes, keccak_v256, starts_with};
use crate::keymap::SlotKey;
use crate::mock::db::{InMemoryExecutionDb, MemoryView};
use crate::primitives::{Address, SeqNum, B256};
use crate::seqs::{lemma_push_contains, lemma_push_distinct, lemma_take_excludes, lemma_take_step};
use crate::statesync::protocol::{
    account_bytes, encode_account, lemma_account_is_understood, lemma_slot_is_understood, parsed,
    upserts_view, Received,
};
use crate::statesync::types::{SyncUpsertType, Upsert};
use crate::statesync::{ApplyOp, StateSyncApplierDb, StateSyncBatch, StateSyncTraversable};
use crate::transactions::copy_bytes;
use crate::types::EthAccount;

verus! {

/// Whether the state of an account is under `prefix`.
pub open spec fn account_under(a: Address, prefix: Seq<u8>) -> bool {
    prefix.len() == 0 || starts_with(keccak_v256(a@)@, prefix)
}

/// Whether a slot is sent with `prefix`: the first byte of its account's address is that of the
/// prefix.
pub open spec fn slot_under(k: SlotKey, prefix: Seq<u8>) -> bool {
    prefix.len() == 0 || k.address@[0] == prefix[0]
}

/// The accounts as they are sent.
pub open spec fn account_upserts(addrs: Seq<Address>, accounts: Map<Address, EthAccount>) -> Seq<
    (SyncUpsertType, Seq<u8>),
> {
    addrs.map_values(|a: Address| (SyncUpsertType::Account, account_bytes(a, accounts[a])))
}

/// The slots as they are sent.
pub open spec fn slot_upserts(keys: Seq<SlotKey>, storage: Map<SlotKey, B256>) -> Seq<
    (SyncUpsertType, Seq<u8>),
> {
    keys.map_values(
        |k: SlotKey| (SyncUpsertType::Storage, k.address@ + k.slot@ + storage[k]@),
    )
}

/// Whether `r` sends exactly the accounts and the slots under `prefix`, each once.
pub open spec fn sends_state(
    r: Seq<(SyncUpsertType, Seq<u8>)>,
    v: MemoryView,
    prefix: Seq<u8>,
    addrs: Seq<Address>,
    keys: Seq<SlotKey>,
) -> bool {
    &&& addrs.no_duplicates()
    &&& forall|a: Address| #[trigger]
        addrs.contains(a) <==> v.accounts.contains_key(a) && account_under(a, prefix)
    &&& keys.no_duplicates()
    &&& forall|k: SlotKey| #[trigger]
        keys.contains(k) <==> v.storage.contains_key(k) && slot_under(k, prefix)
    &&& r == account_upserts(addrs, v.accounts) + slot_upserts(keys, v.storage)
}

fn encode_slot(k: &SlotKey, value: &B256) -> (r: Vec<u8>)
    ensures
        r@ == k.address@ + k.slot@ + value@,
{
    let mut data = vstd::slice::slice_to_vec(k.address.as_slice());
    data.extend_from_slice(k.slot.as_slice());
    data.extend_from_slice(value.as_slice());
    assert(data@ =~= k.address@ + k.slot@ + value@);
    data
}

impl InMemoryExecutionDb {
    fn send_accounts(&self, prefix: &Vec<u8>) -> (r: (Vec<Upsert>, Ghost<Seq<Address>>))
        ensures
            r.1@.no_duplicates(),
            forall|a: Address| #[trigger]
                r.1@.contains(a) <==> self@.accounts.contains_key(a) && account_under(a, prefix@),
            upserts_view(r.0@) == account_upserts(r.1@, self@.accounts),
    {
        let mut out: Vec<Upsert> = Vec::new();
        let ghost mut addrs: Seq<Address> = Seq::empty();
        let all = self.accounts.keys();
        let mut i: usize = 0;
        assert(upserts_view(out@) =~= account_upserts(addrs, self@.accounts));
        while i < all.len()
            invariant
                i <= all@.len(),
                all@.no_duplicates(),
                all@.to_set() == self@.accounts.dom(),
                addrs.no_duplicates(),
                forall|a: Address| #[trigger]
                    addrs.contains(a) <==> all@.take(i as int).contains(a) && account_under(
                        a,
                        prefix@,
                    ),
                upserts_view(out@) == account_upserts(addrs, self@.accounts),
            decreases all@.len() - i,
        {
            let address = all[i];
            proof {
                assert(all@.to_set().contains(address));
                lemma_take_step(all@, i as int);
                lemma_take_excludes(all@, i as int);
            }
            let under = prefix.len() == 0 || has_prefix(
                keccak256_bytes(address.as_slice()).as_slice(),
                prefix.as_slice(),
            );
            if under {
                if let Some(acct) = self.accounts.get(&address) {
                    proof {
                        lemma_push_contains(addrs, address);
                        lemma_push_distinct(addrs, address);
                    }
                    let ghost before = out@;
                    out.push((SyncUpsertType::Account, encode_account(address, acct)));
                    proof {
                        assert(account_upserts(addrs.push(address), self@.accounts)
                            =~= account_upserts(addrs, self@.accounts).push(
                            (
                                SyncUpsertType::Account,
                                account_bytes(address, self@.accounts[address]),
                            ),
                        ));
                        assert(upserts_view(out@) =~= upserts_view(before).push(
                            (
                                SyncUpsertType::Account,
                                account_bytes(address, self@.accounts[address]),
                            ),
                        ));
                        addrs = addrs.push(address);
                    }
                }
            }
            i = i + 1;
        }
        proof {
            assert(all@.take(i as int) =~= all@);
            assert forall|a: Address| all@.contains(a) <==> self@.accounts.contains_key(a) by {
                assert(all@.to_set().contains(a) <==> all@.contains(a));
            }
        }
        (out, Ghost(addrs))
    }

    fn send_slots(&self, prefix: &Vec<u8>) -> (r: (Vec<Upsert>, Ghost<Seq<SlotKey>>))
        ensures
            r.1@.no_duplicates(),
            forall|k: SlotKey| #[trigger]
                r.1@.contains(k) <==> self@.storage.contains_key(k) && slot_under(k, prefix@),
            upserts_view(r.0@) == slot_upserts(r.1@, self@.storage),
    {
        let mut out: Vec<Upsert> = Vec::new();
        let ghost mut keys: Seq<SlotKey> = Seq::empty();
        let all = self.storage.keys();
        let mut i: usize = 0;
        assert(upserts_view(out@) =~= slot_upserts(keys, self@.storage));
        while i < all.len()
            invariant
                i <= all@.len(),
                all@.no_duplicates(),
                all@.to_set() == self@.storage.dom(),
                keys.no_duplicates(),
                forall|k: SlotKey| #[trigger]
                    keys.contains(k) <==> all@.take(i as int).contains(k) && slot_under(k, prefix@),
                upserts_view(out@) == slot_upserts(keys, self@.storage),
            decreases all@.len() - i,
        {
            let key = all[i];
            proof {
                assert(all@.to_set().contains(key));
                lemma_take_step(all@, i as int);
                lemma_take_excludes(all@, i as int);
            }
            let under = prefix.len() == 0 || key.address.as_slice()[0] == prefix[0];
            if under {
                if let Some(value) = self.storage.get(&key) {
                    proof {
                        lemma_push_contains(keys, key);
                        lemma_push_distinct(keys, key);
                    }
                    let ghost before = out@;
                    out.push((SyncUpsertType::Storage, encode_slot(&key, value)));
                    proof {
                        let data = key.address@ + key.slot@ + self@.storage[key]@;
                        assert(slot_upserts(keys.push(key), self@.storage) =~= slot_upserts(
                            keys,
                            self@.storage,
                        ).push((SyncUpsertType::Storage, data)));
                        assert(upserts_view(out@) =~= upserts_view(before).push(
                            (SyncUpsertType::Storage, data),
                        ));
                        keys = keys.push(key);
                    }
                }
            }
            i = i + 1;
        }
        proof {
            assert(all@.take(i as int) =~= all@);
            assert forall|k: SlotKey| all@.contains(k) <==> self@.storage.contains_key(k) by {
                assert(all@.to_set().contains(k) <==> all@.contains(k));
            }
        }
        (out, Ghost(keys))
    }
}

impl StateSyncTraversable for InMemoryExecutionDb {
    fn has_version(&self, target: u64) -> (r: bool)
        ensures
            r == (target <= self@.latest_finalized.0),
    {
        target <= self.latest_finalized.0
    }

    /// 32 zero bytes for every header that is there.
    fn read_block_header_at(&self, version: u64) -> (r: Option<Vec<u8>>)
        ensures
            match r {
                Some(data) => self@.headers.contains_key(SeqNum(version)) && data@ == Seq::new(
                    32,
                    |i: int| 0u8,
                ),
                None => !self@.headers.contains_key(SeqNum(version)),
            },
    {
        if !self.headers.contains_key(&SeqNum(version)) {
            return None;
        }
        let data = vec![0u8; 32];
        assert(data@ =~= Seq::new(32, |i: int| 0u8));
        Some(data)
    }

    fn traverse_state(&self, prefix: &Vec<u8>, from: u64, until: u64) -> (r: (Vec<Upsert>, bool))
        ensures
            r.1,
            exists|addrs: Seq<Address>, keys: Seq<SlotKey>| #[trigger]
                sends_state(upserts_view(r.0@), self@, prefix@, addrs, keys),
    {
        let (accounts, Ghost(addrs)) = self.send_accounts(prefix);
        let (slots, Ghost(keys)) = self.send_slots(prefix);
        let mut all = accounts;
        let mut rest = slots;
        all.append(&mut rest);
        let r = (all, true);
        proof {
            assert(upserts_view(all@) =~= upserts_view(accounts@) + upserts_view(slots@));
            assert(sends_state(upserts_view(r.0@), self@, prefix@, addrs, keys));
        }
        r
    }
}

impl StateSyncApplierDb for InMemoryExecutionDb {
    open spec fn applied(&self) -> Seq<ApplyOp> {
        self.apply_ops@
    }

    open spec fn applies(&self, op: ApplyOp, after: &Self) -> bool {
        &&& after.apply_ops@ == self.apply_ops@.push(op)
        &&& after.ops == self.ops
        &&& match op {
            ApplyOp::Batch { updates, .. } => after@ == self@.apply(updates),
            ApplyOp::Finalize { target, answer } => answer && after@ == (MemoryView {
                latest_finalized: SeqNum(target),
                ..self@
            }),
        }
    }

    fn get_latest_version(&self) -> (r: u64)
        ensures
            r == self@.latest_finalized.0,
    {
        self.latest_finalized.0
    }

    fn read_account(&self, addr: &Address) -> (r: Option<EthAccount>)
        ensures
            r == if self@.accounts.contains_key(*addr) {
                Some(self@.accounts[*addr])
            } else {
                None
            },
    {
        match self.accounts.get(addr) {
            Some(acct) => Some(*acct),
            None => None,
        }
    }

    fn read_storage(&self, addr: &Address, key: &B256) -> (r: B256)
        ensures
            r == self@.slot(*addr, *key),
    {
        match self.storage.get(&SlotKey { address: *addr, slot: *key }) {
            Some(value) => *value,
            None => B256::zero(),
        }
    }

    fn apply_batch(&mut self, updates: StateSyncBatch, version: u64)
        ensures
            final(self)@ == old(self)@.apply(updates@),
            final(self).ops == old(self).ops,
    {
        let ghost v = self@;
        let ghost u = updates@;
        let StateSyncBatch { accounts, storage, code } = updates;
        let mut i: usize = 0;
        assert(u.accounts.take(0) =~= Seq::empty());
        while i < accounts.len()
            invariant
                i <= accounts@.len(),
                u.accounts == accounts@,
                self@ == (MemoryView {
                    accounts: v.apply_accounts(u.accounts.take(i as int)),
                    ..v
                }),
                self.ops == old(self).ops,
                self.apply_ops == old(self).apply_ops,
            decreases accounts@.len() - i,
        {
            proof {
                let more = u.accounts.take(i + 1);
                assert(more.drop_last() =~= u.accounts.take(i as int));
                assert(more.last() == accounts@[i as int]);
            }
            let (address, account) = accounts[i];
            match account {
                Some(acct) => {
                    self.accounts.insert(address, acct);
                },
                None => {
                    self.accounts.remove(&address);
                },
            }
            i = i + 1;
        }
        assert(u.accounts.take(i as int) =~= u.accounts);
        let ghost w = self@;
        i = 0;
        assert(u.storage.take(0) =~= Seq::empty());
        while i < storage.len()
            invariant
                i <= storage@.len(),
                u.storage == storage@,
                w.storage == v.storage,
                self@ == (MemoryView { storage: v.apply_storage(u.storage.take(i as int)), ..w }),
                self.ops == old(self).ops,
                self.apply_ops == old(self).apply_ops,
            decreases storage@.len() - i,
        {
            proof {
                let more = u.storage.take(i + 1);
                assert(more.drop_last() =~= u.storage.take(i as int));
                assert(more.last() == storage@[i as int]);
            }
            let (address, slot, value) = storage[i];
            self.put_slot(SlotKey { address, slot }, value);
            i = i + 1;
        }
        assert(u.storage.take(i as int) =~= u.storage);
        let ghost x = self@;
        i = 0;
        assert(u.code.take(0) =~= Seq::empty());
        while i < code.len()
            invariant
                i <= code@.len(),
                u.code == code@.map_values(|c: (B256, Vec<u8>)| (c.0, c.1@)),
                x.code == v.code,
                self@ == (MemoryView { code: v.apply_code(u.code.take(i as int)), ..x }),
                self.ops == old(self).ops,
                self.apply_ops == old(self).apply_ops,
            decreases code@.len() - i,
        {
            proof {
                let more = u.code.take(i + 1);
                assert(more.drop_last() =~= u.code.take(i as int));
                assert(more.last() == (code@[i as int].0, code@[i as int].1@));
            }
            let ghost before = self@;
            let data = copy_bytes(&code[i].1);
            self.code.insert(code[i].0, data);
            assert(self@.code =~= before.code.insert(code@[i as int].0, code@[i as int].1@));
            i = i + 1;
        }
        assert(u.code.take(i as int) =~= u.code);
        self.apply_ops = Ghost(self.apply_ops@.push(ApplyOp::Batch { updates: u, version }));
        assert(self@ =~= v.apply(u));
    }

    fn finalize_statesync(&mut self, target: u64) -> (r: bool)
        ensures
            r,
            final(self)@ == (MemoryView { latest_finalized: SeqNum(target), ..old(self)@ }),
            final(self).ops == old(self).ops,
    {
        self.latest_finalized = SeqNum(target);
        self.apply_ops = Ghost(self.apply_ops@.push(ApplyOp::Finalize { target, answer: true }));
        true
    }

    /// Always zero: no trie is kept.
    fn state_root(&self) -> (r: B256)
        ensures
            r == B256::spec_zero(),
    {
        B256::zero()
    }

    fn code_exists(&self, hash: &B256) -> (r: bool)
        ensures
            r == self@.code.contains_key(*hash),
    {
        self.code.contains_key(hash)
    }
}

/// Every account and every slot that is sent is one that is held, under the prefix, and a client reads
/// from it what is held; and all of them are sent.
pub proof fn lemma_held_state_is_sent(
    r: Seq<(SyncUpsertType, Seq<u8>)>,
    v: MemoryView,
    prefix: Seq<u8>,
    addrs: Seq<Address>,
    keys: Seq<SlotKey>,
    i: int,
)
    requires
        sends_state(r, v, prefix, addrs, keys),
        0 <= i < r.len(),
    ensures
        r.len() == addrs.len() + keys.len(),
        i < addrs.len() ==> match parsed(r[i].0, r[i].1) {
            Some(Received::Account(a, Some(acct))) => {
                &&& a == addrs[i]
                &&& v.accounts.contains_key(a)
                &&& acct.nonce == v.accounts[a].nonce
                &&& acct.balance == v.accounts[a].balance
                &&& v.accounts[a].code_hash is Some ==> acct.code_hash == v.accounts[a].code_hash
                &&& prefix.len() == 0 || starts_with(keccak_v256(a@)@, prefix)
            },
            _ => false,
        },
        i >= addrs.len() ==> match parsed(r[i].0, r[i].1) {
            Some(Received::Storage(a, k, x)) => {
                &&& v.storage.contains_key(SlotKey { address: a, slot: k })
                &&& v.storage[SlotKey { address: a, slot: k }] == x
                &&& prefix.len() == 0 || a@[0] == prefix[0]
            },
            _ => false,
        },
        forall|a: Address|
            v.accounts.contains_key(a) && (prefix.len() == 0 || starts_with(
                keccak_v256(a@)@,
                prefix,
            )) ==> #[trigger] addrs.contains(a),
{
    if i < addrs.len() {
        let a = addrs[i];
        assert(addrs.contains(a));
        assert(r[i] == account_upserts(addrs, v.accounts)[i]);
        lemma_account_is_understood(a, v.accounts[a]);
    } else {
        let k = keys[i - addrs.len()];
        assert(keys.contains(k));
        assert(r[i] == slot_upserts(keys, v.storage)[i - addrs.len()]);
        lemma_slot_is_understood(k.address, k.slot, v.storage[k]);
    }
}

} // verus!
