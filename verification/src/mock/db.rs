//! A database in memory.

use vstd::prelude::*;

use crate::bundle::{account_info_to_monad, eth_account, BundleAccount, Bundle, BundleView};
use crate::header::{default_header, BlockHeader, HeaderView};
use crate::keymap::{BlockKey, KeyMap, SlotKey};
use crate::primitives::{Address, BlockId, SeqNum, B256, U256};
use crate::seqs::{lemma_take_excludes, lemma_take_step};
use crate::statesync::{ApplyOp, BatchView};
use crate::traits::{DbOp, ExecutionDb};
use crate::transactions::{copy_bytes, receipts_view, txs_view, ReceiptEnvelope, TxEnvelope};
use crate::types::EthAccount;

verus! {

/// A database in memory.
pub struct InMemoryExecutionDb {
    pub accounts: KeyMap<Address, EthAccount>,
    pub storage: KeyMap<SlotKey, B256>,
    pub code: KeyMap<B256, Vec<u8>>,
    pub headers: KeyMap<SeqNum, BlockHeader>,
    pub executed_blocks: KeyMap<BlockKey, ()>,
    pub latest_finalized: SeqNum,
    pub latest_verified: SeqNum,
    pub current: BlockKey,
    pub ops: Ghost<Seq<DbOp>>,
    pub apply_ops: Ghost<Seq<ApplyOp>>,
}

/// What a database in memory holds.
#[verifier::ext_equal]
pub struct MemoryView {
    pub accounts: Map<Address, EthAccount>,
    pub storage: Map<SlotKey, B256>,
    pub code: Map<B256, Seq<u8>>,
    pub headers: Map<SeqNum, HeaderView>,
    pub executed_blocks: Set<BlockKey>,
    pub latest_finalized: SeqNum,
    pub latest_verified: SeqNum,
    pub current: BlockKey,
}

impl View for InMemoryExecutionDb {
    type V = MemoryView;

    open spec fn view(&self) -> MemoryView {
        MemoryView {
            accounts: self.accounts@,
            storage: self.storage@,
            code: self.code@.map_values(|c: Vec<u8>| c@),
            headers: self.headers@.map_values(|h: BlockHeader| h@),
            executed_blocks: self.executed_blocks@.dom(),
            latest_finalized: self.latest_finalized,
            latest_verified: self.latest_verified,
            current: self.current,
        }
    }
}

impl MemoryView {
    pub open spec fn empty() -> MemoryView {
        MemoryView {
            accounts: Map::empty(),
            storage: Map::empty(),
            code: Map::empty(),
            headers: Map::empty(),
            executed_blocks: Set::empty(),
            latest_finalized: SeqNum(0),
            latest_verified: SeqNum(0),
            current: BlockKey { seq: SeqNum(0), id: BlockId(B256::spec_zero()) },
        }
    }

    /// Whether the account at `a` is there after `bundle`.
    pub open spec fn has_account_after(self, bundle: BundleView, a: Address) -> bool {
        if bundle.state.contains_key(a) {
            bundle.state[a].info is Some || (bundle.state[a].original_info is None
                && self.accounts.contains_key(a))
        } else {
            self.accounts.contains_key(a)
        }
    }

    /// Whether `bundle` says what is in a slot.
    pub open spec fn sets_slot(self, bundle: BundleView, k: SlotKey) -> bool {
        bundle.state.contains_key(k.address) && bundle.state[k.address].storage.contains_key(
            U256(k.slot),
        )
    }

    /// The value that `bundle` puts into a slot.
    pub open spec fn slot_value(self, bundle: BundleView, k: SlotKey) -> B256 {
        bundle.state[k.address].storage[U256(k.slot)].present_value.0
    }

    /// The state after a block with this header and this change of state. The block becomes the
    /// current one.
    pub open spec fn commit(
        self,
        block_id: BlockId,
        header: HeaderView,
        bundle: BundleView,
    ) -> MemoryView {
        let key = BlockKey { seq: SeqNum(header.number), id: block_id };
        MemoryView {
            accounts: Map::new(
                |a: Address| self.has_account_after(bundle, a),
                |a: Address|
                    if bundle.state.contains_key(a) && bundle.state[a].info is Some {
                        eth_account(bundle.state[a].info->0)
                    } else {
                        self.accounts[a]
                    },
            ),
            storage: Map::new(
                |k: SlotKey|
                    if self.sets_slot(bundle, k) {
                        self.slot_value(bundle, k) != B256::spec_zero()
                    } else {
                        self.storage.contains_key(k)
                    },
                |k: SlotKey|
                    if self.sets_slot(bundle, k) {
                        self.slot_value(bundle, k)
                    } else {
                        self.storage[k]
                    },
            ),
            code: self.code.union_prefer_right(bundle.contracts),
            headers: self.headers.insert(SeqNum(header.number), header),
            executed_blocks: self.executed_blocks.insert(key),
            current: key,
            ..self
        }
    }

    /// The state after a change that is asked for.
    pub open spec fn changed(self, op: DbOp) -> MemoryView {
        match op {
            DbOp::SetBlock { seq_num, block_id } => MemoryView {
                current: BlockKey { seq: seq_num, id: block_id },
                ..self
            },
            DbOp::Commit { block_id, header, bundle, .. } => self.commit(block_id, header, bundle),
            DbOp::Finalize { seq_num, .. } => MemoryView { latest_finalized: seq_num, ..self },
            DbOp::Verified { seq_num } => MemoryView { latest_verified: seq_num, ..self },
            DbOp::Voted { .. } | DbOp::Proposed { .. } => self,
        }
    }

    pub open spec fn apply_accounts(
        self,
        updates: Seq<(Address, Option<EthAccount>)>,
    ) -> Map<Address, EthAccount>
        decreases updates.len(),
    {
        if updates.len() == 0 {
            self.accounts
        } else {
            let before = self.apply_accounts(updates.drop_last());
            match updates.last().1 {
                Some(acct) => before.insert(updates.last().0, acct),
                None => before.remove(updates.last().0),
            }
        }
    }

    pub open spec fn apply_storage(self, updates: Seq<(Address, B256, B256)>) -> Map<SlotKey, B256>
        decreases updates.len(),
    {
        if updates.len() == 0 {
            self.storage
        } else {
            let before = self.apply_storage(updates.drop_last());
            let (address, slot, value) = updates.last();
            if value == B256::spec_zero() {
                before.remove(SlotKey { address, slot })
            } else {
                before.insert(SlotKey { address, slot }, value)
            }
        }
    }

    pub open spec fn apply_code(self, updates: Seq<(B256, Seq<u8>)>) -> Map<B256, Seq<u8>>
        decreases updates.len(),
    {
        if updates.len() == 0 {
            self.code
        } else {
            self.apply_code(updates.drop_last()).insert(updates.last().0, updates.last().1)
        }
    }

    /// The state after a batch of updates, taken in their order.
    pub open spec fn apply(self, updates: BatchView) -> MemoryView {
        MemoryView {
            accounts: self.apply_accounts(updates.accounts),
            storage: self.apply_storage(updates.storage),
            code: self.apply_code(updates.code),
            ..self
        }
    }

    /// The value of a slot; zero where nothing was stored.
    pub open spec fn slot(self, address: Address, slot: B256) -> B256 {
        if self.storage.contains_key(SlotKey { address, slot }) {
            self.storage[SlotKey { address, slot }]
        } else {
            B256::spec_zero()
        }
    }
}

impl InMemoryExecutionDb {
    /// An empty database.
    pub fn new() -> (r: Self)
        ensures
            r@ == MemoryView::empty(),
            r.history() == Seq::<DbOp>::empty(),
            r.apply_ops@ == Seq::<ApplyOp>::empty(),
    {
        let r = InMemoryExecutionDb {
            accounts: KeyMap::new(),
            storage: KeyMap::new(),
            code: KeyMap::new(),
            headers: KeyMap::new(),
            executed_blocks: KeyMap::new(),
            latest_finalized: SeqNum(0),
            latest_verified: SeqNum(0),
            current: BlockKey { seq: SeqNum(0), id: BlockId(B256::zero()) },
            ops: Ghost(Seq::empty()),
            apply_ops: Ghost(Seq::empty()),
        };
        assert(r@ =~= MemoryView::empty());
        r
    }

    /// An empty database whose latest finalized block is `finalized`.
    pub fn with_finalized(finalized: u64) -> (r: Self)
        ensures
            r@ == (MemoryView { latest_finalized: SeqNum(finalized), ..MemoryView::empty() }),
            r.history() == Seq::<DbOp>::empty(),
            r.apply_ops@ == Seq::<ApplyOp>::empty(),
    {
        let mut r = Self::new();
        r.latest_finalized = SeqNum(finalized);
        r
    }

    pub fn put_slot(&mut self, k: SlotKey, value: B256)
        ensures
            final(self)@ == (MemoryView {
                storage: if value == B256::spec_zero() {
                    old(self)@.storage.remove(k)
                } else {
                    old(self)@.storage.insert(k, value)
                },
                ..old(self)@
            }),
            final(self).ops == old(self).ops,
            final(self).apply_ops == old(self).apply_ops,
    {
        if value == B256::zero() {
            self.storage.remove(&k);
        } else {
            self.storage.insert(k, value);
        }
    }

    /// Writes the slots of one account of a bundle.
    fn put_slots(&mut self, address: Address, account: &BundleAccount)
        ensures
            final(self).ops == old(self).ops,
            final(self).apply_ops == old(self).apply_ops,
            final(self)@ == (MemoryView { storage: final(self)@.storage, ..old(self)@ }),
            forall|k: SlotKey|
                k.address == address && account@.storage.contains_key(U256(k.slot)) ==> (
                #[trigger] final(self)@.storage.contains_key(k)
                    <==> account@.storage[U256(k.slot)].present_value.0 != B256::spec_zero()) && (
                final(self)@.storage.contains_key(k) ==> final(self)@.storage[k]
                    == account@.storage[U256(k.slot)].present_value.0),
            forall|k: SlotKey|
                !(k.address == address && account@.storage.contains_key(U256(k.slot))) ==> (
                #[trigger] final(self)@.storage.contains_key(k) <==> old(self)@.storage.contains_key(
                    k,
                )) && (final(self)@.storage.contains_key(k) ==> final(self)@.storage[k]
                    == old(self)@.storage[k]),
    {
        let keys = account.storage.keys();
        let mut i: usize = 0;
        while i < keys.len()
            invariant
                i <= keys@.len(),
                keys@.to_set() == account@.storage.dom(),
                self.ops == old(self).ops,
                self.apply_ops == old(self).apply_ops,
                self@ == (MemoryView { storage: self@.storage, ..old(self)@ }),
                forall|k: SlotKey|
                    k.address == address && keys@.take(i as int).contains(U256(k.slot)) ==> (
                    #[trigger] self@.storage.contains_key(k)
                        <==> account@.storage[U256(k.slot)].present_value.0 != B256::spec_zero())
                        && (self@.storage.contains_key(k) ==> self@.storage[k]
                        == account@.storage[U256(k.slot)].present_value.0),
                forall|k: SlotKey|
                    !(k.address == address && keys@.take(i as int).contains(U256(k.slot))) ==> (
                    #[trigger] self@.storage.contains_key(k) <==> old(self)@.storage.contains_key(k))
                        && (self@.storage.contains_key(k) ==> self@.storage[k]
                        == old(self)@.storage[k]),
            decreases keys@.len() - i,
        {
            let key = keys[i];
            proof {
                assert(keys@.to_set().contains(key));
                lemma_take_step(keys@, i as int);
            }
            if let Some(slot) = account.storage.get(&key) {
                self.put_slot(SlotKey { address, slot: key.0 }, slot.present_value.0);
            }
            proof {
                assert forall|k: SlotKey| k.address == address && U256(k.slot) == key implies k == (
                SlotKey { address, slot: key.0 }) by {}
            }
            i = i + 1;
        }
        proof {
            assert(keys@.take(i as int) =~= keys@);
            assert forall|u: U256| keys@.contains(u) <==> account@.storage.contains_key(u) by {
                assert(keys@.to_set().contains(u) <==> keys@.contains(u));
            }
        }
    }
}

impl Default for InMemoryExecutionDb {
    fn default() -> (r: Self)
        ensures
            r@ == MemoryView::empty(),
    {
        Self::new()
    }
}

impl ExecutionDb for InMemoryExecutionDb {
    open spec fn history(&self) -> Seq<DbOp> {
        self.ops@
    }

    open spec fn becomes(&self, op: DbOp, after: &Self) -> bool {
        &&& after@ == self@.changed(op)
        &&& after.ops@ == self.ops@.push(op)
        &&& after.apply_ops == self.apply_ops
    }

    proof fn lemma_is_recorded(&self, op: DbOp, after: &Self) {
    }

    open spec fn wf(&self) -> bool {
        true
    }

    open spec fn finalizable(&self, seq_num: SeqNum, block_id: BlockId) -> bool {
        true
    }

    fn has_executed(&self, block_id: &BlockId, seq_num: SeqNum) -> (r: bool)
        ensures
            r == self@.executed_blocks.contains(BlockKey { seq: seq_num, id: *block_id }),
    {
        self.executed_blocks.contains_key(&BlockKey { seq: seq_num, id: *block_id })
    }

    fn get_latest_finalized_version(&self) -> (r: SeqNum)
        ensures
            r == self@.latest_finalized,
    {
        self.latest_finalized
    }

    fn read_account(&self, address: &Address) -> (r: Option<EthAccount>)
        ensures
            r == if self@.accounts.contains_key(*address) {
                Some(self@.accounts[*address])
            } else {
                None
            },
    {
        match self.accounts.get(address) {
            Some(acct) => Some(*acct),
            None => None,
        }
    }

    fn read_storage(&self, address: &Address, slot: &B256) -> (r: B256)
        ensures
            r == self@.slot(*address, *slot),
    {
        match self.storage.get(&SlotKey { address: *address, slot: *slot }) {
            Some(value) => *value,
            None => B256::zero(),
        }
    }

    fn read_code(&self, code_hash: &B256) -> (r: Option<Vec<u8>>)
        ensures
            match r {
                Some(c) => self@.code.contains_key(*code_hash) && c@ == self@.code[*code_hash],
                None => !self@.code.contains_key(*code_hash),
            },
    {
        match self.code.get(code_hash) {
            Some(c) => Some(copy_bytes(c)),
            None => None,
        }
    }

    fn read_eth_header(&self) -> (r: BlockHeader)
        ensures
            r@ == if self@.headers.contains_key(self@.current.seq) {
                self@.headers[self@.current.seq]
            } else {
                default_header()
            },
    {
        match self.headers.get(&self.current.seq) {
            Some(h) => h.copy(),
            None => BlockHeader::empty(),
        }
    }

    fn set_block_and_prefix(&mut self, seq_num: SeqNum, block_id: BlockId)
        ensures
            final(self)@ == (MemoryView {
                current: BlockKey { seq: seq_num, id: block_id },
                ..old(self)@
            }),
            final(self).apply_ops == old(self).apply_ops,
    {
        self.current = BlockKey { seq: seq_num, id: block_id };
        self.ops = Ghost(self.ops@.push(DbOp::SetBlock { seq_num, block_id }));
    }

    fn commit(
        &mut self,
        block_id: BlockId,
        header: &BlockHeader,
        bundle: Bundle,
        receipts: &Vec<ReceiptEnvelope>,
        transactions: &Vec<TxEnvelope>,
    )
        ensures
            final(self)@ == old(self)@.commit(block_id, header@, bundle@),
            final(self).apply_ops == old(self).apply_ops,
    {
        let ghost b = bundle@;
        let ghost v = self@;
        let addresses = bundle.state.keys();
        let mut i: usize = 0;
        while i < addresses.len()
            invariant
                i <= addresses@.len(),
                addresses@.no_duplicates(),
                addresses@.to_set() == bundle.state@.dom(),
                b == bundle@,
                v == old(self)@,
                self.ops == old(self).ops,
                self.apply_ops == old(self).apply_ops,
                self@ == (MemoryView { accounts: self@.accounts, storage: self@.storage, ..v }),
                forall|a: Address| #[trigger]
                    self@.accounts.contains_key(a) <==> if addresses@.take(i as int).contains(a) {
                        v.has_account_after(b, a)
                    } else {
                        v.accounts.contains_key(a)
                    },
                forall|a: Address|
                    self@.accounts.contains_key(a) ==> #[trigger] self@.accounts[a]
                        == if addresses@.take(i as int).contains(a) && b.state[a].info is Some {
                        eth_account(b.state[a].info->0)
                    } else {
                        v.accounts[a]
                    },
                forall|k: SlotKey| #[trigger]
                    self@.storage.contains_key(k) <==> if addresses@.take(i as int).contains(
                        k.address,
                    ) && v.sets_slot(b, k) {
                        v.slot_value(b, k) != B256::spec_zero()
                    } else {
                        v.storage.contains_key(k)
                    },
                forall|k: SlotKey|
                    self@.storage.contains_key(k) ==> #[trigger] self@.storage[k]
                        == if addresses@.take(i as int).contains(k.address) && v.sets_slot(b, k) {
                        v.slot_value(b, k)
                    } else {
                        v.storage[k]
                    },
            decreases addresses@.len() - i,
        {
            let address = addresses[i];
            proof {
                assert(addresses@.to_set().contains(address));
                lemma_take_step(addresses@, i as int);
                lemma_take_excludes(addresses@, i as int);
            }
            if let Some(account) = bundle.state.get(&address) {
                assert(b.state[address] == account@);
                match &account.info {
                    Some(info) => {
                        self.accounts.insert(address, account_info_to_monad(info));
                    },
                    None => {
                        if account.original_info.is_some() {
                            self.accounts.remove(&address);
                        }
                    },
                }
                self.put_slots(address, account);
            }
            i = i + 1;
        }
        proof {
            assert(addresses@.take(i as int) =~= addresses@);
            assert forall|a: Address| addresses@.contains(a) <==> b.state.contains_key(a) by {
                assert(addresses@.to_set().contains(a) <==> addresses@.contains(a));
            }
        }
        let mut contracts = bundle.contracts;
        let ghost added = contracts@;
        let ghost listed = contracts@.map_values(|c: Vec<u8>| c@);
        let hashes = contracts.keys();
        let mut j: usize = 0;
        let ghost w = self@;
        while j < hashes.len()
            invariant
                j <= hashes@.len(),
                hashes@.no_duplicates(),
                hashes@.to_set() == added.dom(),
                listed == added.map_values(|c: Vec<u8>| c@),
                self.ops == old(self).ops,
                self.apply_ops == old(self).apply_ops,
                self@ == (MemoryView { code: self@.code, ..w }),
                forall|h: B256| #[trigger]
                    contracts@.contains_key(h) <==> added.contains_key(h) && !hashes@.take(
                        j as int,
                    ).contains(h),
                forall|h: B256| contracts@.contains_key(h) ==> #[trigger] contracts@[h] == added[h],
                forall|h: B256| #[trigger]
                    self@.code.contains_key(h) <==> w.code.contains_key(h) || hashes@.take(
                        j as int,
                    ).contains(h),
                forall|h: B256|
                    self@.code.contains_key(h) ==> #[trigger] self@.code[h] == if hashes@.take(
                        j as int,
                    ).contains(h) {
                        listed[h]
                    } else {
                        w.code[h]
                    },
            decreases hashes@.len() - j,
        {
            let hash = hashes[j];
            proof {
                assert(hashes@.to_set().contains(hash));
                lemma_take_step(hashes@, j as int);
                lemma_take_excludes(hashes@, j as int);
            }
            if let Some(c) = contracts.remove(&hash) {
                let ghost before = self@;
                self.code.insert(hash, c);
                assert(self@.code =~= before.code.insert(hash, c@));
                assert(self@ =~= (MemoryView { code: self@.code, ..before }));
            }
            j = j + 1;
        }
        proof {
            assert(hashes@.take(j as int) =~= hashes@);
            assert forall|h: B256| hashes@.contains(h) <==> added.contains_key(h) by {
                assert(hashes@.to_set().contains(h) <==> hashes@.contains(h));
            }
        }
        let key = BlockKey { seq: SeqNum(header.number), id: block_id };
        let ghost before = self@;
        self.headers.insert(SeqNum(header.number), header.copy());
        assert(self@.headers =~= before.headers.insert(SeqNum(header.number), header@));
        self.executed_blocks.insert(key, ());
        assert(self@.executed_blocks =~= before.executed_blocks.insert(key));
        self.current = key;
        self.ops = Ghost(
            self.ops@.push(
                DbOp::Commit {
                    block_id,
                    header: header@,
                    bundle: b,
                    receipts: receipts_view(receipts@),
                    transactions: txs_view(transactions@),
                },
            ),
        );
        proof {
            let after = v.commit(block_id, header@, b);
            assert(self@.accounts =~= after.accounts);
            assert(self@.storage =~= after.storage);
            assert(self@.code =~= after.code);
            assert(self@ =~= after);
        }
    }

    fn can_finalize(&self, seq_num: SeqNum, block_id: BlockId) -> (r: bool) {
        true
    }

    fn finalize(&mut self, seq_num: SeqNum, block_id: BlockId)
        ensures
            final(self)@ == (MemoryView { latest_finalized: seq_num, ..old(self)@ }),
            final(self).apply_ops == old(self).apply_ops,
    {
        self.latest_finalized = seq_num;
        self.ops = Ghost(self.ops@.push(DbOp::Finalize { seq_num, block_id }));
    }

    fn update_voted_metadata(&mut self, seq_num: SeqNum, block_id: BlockId)
        ensures
            final(self)@ == old(self)@,
            final(self).apply_ops == old(self).apply_ops,
    {
        self.ops = Ghost(self.ops@.push(DbOp::Voted { seq_num, block_id }));
    }

    fn update_proposed_metadata(&mut self, seq_num: SeqNum, block_id: BlockId)
        ensures
            final(self)@ == old(self)@,
            final(self).apply_ops == old(self).apply_ops,
    {
        self.ops = Ghost(self.ops@.push(DbOp::Proposed { seq_num, block_id }));
    }

    fn update_verified_block(&mut self, seq_num: SeqNum)
        ensures
            final(self)@ == (MemoryView { latest_verified: seq_num, ..old(self)@ }),
            final(self).apply_ops == old(self).apply_ops,
    {
        self.latest_verified = seq_num;
        self.ops = Ghost(self.ops@.push(DbOp::Verified { seq_num }));
    }
}

impl MemoryView {
    /// A block leaves the accounts that it changes as its change of state does, deletes those that it
    /// deletes, and leaves the others alone.
    pub proof fn lemma_commit_leaves_accounts(
        self,
        block_id: BlockId,
        header: HeaderView,
        bundle: BundleView,
        a: Address,
    )
        ensures
            ({
                let w = self.commit(block_id, header, bundle);
                &&& !bundle.state.contains_key(a) ==> w.accounts.contains_key(a)
                    == self.accounts.contains_key(a) && (self.accounts.contains_key(a)
                    ==> w.accounts[a] == self.accounts[a])
                &&& bundle.state.contains_key(a) && bundle.state[a].info is Some ==> {
                    &&& w.accounts.contains_key(a)
                    &&& w.accounts[a].nonce == (bundle.state[a].info->0).nonce
                    &&& w.accounts[a].balance == (bundle.state[a].info->0).balance
                }
                &&& bundle.state.contains_key(a) && bundle.state[a].info is None
                    && bundle.state[a].original_info is Some ==> !w.accounts.contains_key(a)
            }),
    {
    }

    /// A block leaves the slots that it changes with the values that it gives them, and the others as
    /// they were. A slot that is zero reads as one that was never written.
    pub proof fn lemma_commit_leaves_slots(
        self,
        block_id: BlockId,
        header: HeaderView,
        bundle: BundleView,
        address: Address,
        slot: B256,
    )
        ensures
            ({
                let w = self.commit(block_id, header, bundle);
                let changed = bundle.state.contains_key(address)
                    && bundle.state[address].storage.contains_key(U256(slot));
                &&& changed ==> U256(w.slot(address, slot))
                    == bundle.state[address].storage[U256(slot)].present_value
                &&& !changed ==> w.slot(address, slot) == self.slot(address, slot)
            }),
    {
    }

    /// A block that was committed is the current one, was executed, and has its header under its number;
    /// its code is there.
    pub proof fn lemma_committed_block_is_current(
        self,
        block_id: BlockId,
        header: HeaderView,
        bundle: BundleView,
        hash: B256,
    )
        ensures
            ({
                let w = self.commit(block_id, header, bundle);
                let key = BlockKey { seq: SeqNum(header.number), id: block_id };
                &&& w.current == key
                &&& w.executed_blocks.contains(key)
                &&& w.headers.contains_key(SeqNum(header.number))
                &&& w.headers[SeqNum(header.number)] == header
                &&& bundle.contracts.contains_key(hash) ==> w.code.contains_key(hash)
                    && w.code[hash] == bundle.contracts[hash]
                &&& self.code.contains_key(hash) && !bundle.contracts.contains_key(hash)
                    ==> w.code.contains_key(hash) && w.code[hash] == self.code[hash]
                &&& w.latest_finalized == self.latest_finalized
                &&& w.latest_verified == self.latest_verified
            }),
    {
    }

    /// Of the updates of an account in a batch the last one counts, and accounts without an update stay.
    pub proof fn lemma_last_update_of_an_account_counts(
        self,
        updates: Seq<(Address, Option<EthAccount>)>,
        a: Address,
        i: int,
    )
        requires
            -1 <= i < updates.len(),
            i >= 0 ==> updates[i].0 == a,
            forall|j: int| i < j < updates.len() ==> (#[trigger] updates[j]).0 != a,
        ensures
            ({
                let w = self.apply_accounts(updates);
                if i < 0 {
                    &&& w.contains_key(a) == self.accounts.contains_key(a)
                    &&& self.accounts.contains_key(a) ==> w[a] == self.accounts[a]
                } else {
                    &&& w.contains_key(a) <==> updates[i].1 is Some
                    &&& updates[i].1 is Some ==> w[a] == updates[i].1->0
                }
            }),
        decreases updates.len(),
    {
        if updates.len() > 0 && i < updates.len() - 1 {
            let before = updates.drop_last();
            assert(updates[updates.len() - 1].0 != a);
            assert forall|j: int| i < j < before.len() implies (#[trigger] before[j]).0 != a by {
                assert(before[j] == updates[j]);
            }
            self.lemma_last_update_of_an_account_counts(before, a, i);
        }
    }

    /// Of the updates of a slot in a batch the last one counts, and slots without an update stay.
    pub proof fn lemma_last_update_of_a_slot_counts(
        self,
        updates: Seq<(Address, B256, B256)>,
        address: Address,
        slot: B256,
        i: int,
    )
        requires
            -1 <= i < updates.len(),
            i >= 0 ==> updates[i].0 == address && updates[i].1 == slot,
            forall|j: int|
                i < j < updates.len() ==> (#[trigger] updates[j]).0 != address || updates[j].1
                    != slot,
        ensures
            (MemoryView { storage: self.apply_storage(updates), ..self }).slot(address, slot)
                == if i < 0 {
                self.slot(address, slot)
            } else {
                updates[i].2
            },
        decreases updates.len(),
    {
        if updates.len() > 0 && i < updates.len() - 1 {
            let before = updates.drop_last();
            let last = updates[updates.len() - 1];
            assert(last.0 != address || last.1 != slot);
            assert(SlotKey { address: last.0, slot: last.1 } != SlotKey { address, slot });
            assert forall|j: int| i < j < before.len() implies (#[trigger] before[j]).0 != address
                || before[j].1 != slot by {
                assert(before[j] == updates[j]);
            }
            self.lemma_last_update_of_a_slot_counts(before, address, slot, i);
        }
    }

    /// A change that is asked for changes just that: which block is selected, finalized or verified.
    pub proof fn lemma_changes_are_what_was_asked_for(self, op: DbOp)
        requires
            !(op is Commit),
        ensures
            ({
                let w = self.changed(op);
                &&& op is SetBlock ==> w.current.seq == op->SetBlock_seq_num && w.current.id
                    == op->SetBlock_block_id
                &&& !(op is SetBlock) ==> w.current == self.current
                &&& op is Finalize ==> w.latest_finalized == op->Finalize_seq_num
                &&& !(op is Finalize) ==> w.latest_finalized == self.latest_finalized
                &&& op is Verified ==> w.latest_verified == op->Verified_seq_num
                &&& !(op is Verified) ==> w.latest_verified == self.latest_verified
                &&& w.accounts == self.accounts
                &&& w.storage == self.storage
                &&& w.code == self.code
                &&& w.headers == self.headers
                &&& w.executed_blocks == self.executed_blocks
            }),
    {
    }
}

/// What is asked of a database in memory is what it does, and all that was asked for is remembered.
pub proof fn lemma_memory_does_what_is_asked(
    db: InMemoryExecutionDb,
    op: DbOp,
    after: InMemoryExecutionDb,
)
    requires
        db.becomes(op, &after),
    ensures
        after.history() == db.history().push(op),
        op is SetBlock ==> after.current.seq == op->SetBlock_seq_num && after.current.id
            == op->SetBlock_block_id,
        op is Finalize ==> after.latest_finalized == op->Finalize_seq_num,
        op is Verified ==> after.latest_verified == op->Verified_seq_num,
        op is Commit ==> after.headers@.contains_key(SeqNum(op->Commit_header.number))
            && after.headers@[SeqNum(op->Commit_header.number)]@ == op->Commit_header
            && after.executed_blocks@.contains_key(
            BlockKey { seq: SeqNum(op->Commit_header.number), id: op->Commit_block_id },
        ),
        op is Voted || op is Proposed ==> after@ == db@,
{
    if op is Commit {
        db@.lemma_committed_block_is_current(
            op->Commit_block_id,
            op->Commit_header,
            op->Commit_bundle,
            B256::spec_zero(),
        );
        assert(after@.headers.contains_key(SeqNum(op->Commit_header.number)));
        assert(after@.executed_blocks.contains(
            BlockKey { seq: SeqNum(op->Commit_header.number), id: op->Commit_block_id },
        ));
    } else {
        db@.lemma_changes_are_what_was_asked_for(op);
    }
}

} // verus!
