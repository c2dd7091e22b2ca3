//! Blocks that were proposed and are not finalized yet.

use vstd::prelude::*;

use crate::bundle::{account_info_to_monad, eth_account, BundleAccountView, Bundle, BundleView};
use crate::header::{BlockHeader, HeaderView};
use crate::keymap::{BlockKey, KeyMap, SlotKey};
use crate::primitives::{Address, BlockId, SeqNum, B256, U256};
use crate::seqs::{lemma_take_excludes, lemma_take_step};
use crate::transactions::{
    copy_bytes, copy_receipts, copy_txs, receipts_view, txs_view, ReceiptEnvelope, ReceiptView,
    TxEnvelope, TxType,
};
use crate::types::EthAccount;

verus! {

/// The change of state of one proposed block.
pub struct StagedBlock {
    pub seq: SeqNum,
    pub parent_seq: SeqNum,
    pub parent_id: BlockId,
    pub header: BlockHeader,
    pub receipts: Vec<ReceiptEnvelope>,
    pub transactions: Vec<TxEnvelope>,
    /// The accounts that the block changes; none where it deletes one.
    pub accounts: KeyMap<Address, Option<EthAccount>>,
    /// The slots that the block changes.
    pub storage: KeyMap<SlotKey, B256>,
    /// The whole change, with what was there before.
    pub bundle: Bundle,
}

#[verifier::ext_equal]
pub struct StagedView {
    pub seq: SeqNum,
    pub parent: BlockKey,
    pub header: HeaderView,
    pub receipts: Seq<(TxType, ReceiptView)>,
    pub transactions: Seq<Seq<u8>>,
    pub accounts: Map<Address, Option<EthAccount>>,
    pub storage: Map<SlotKey, B256>,
    pub bundle: BundleView,
}

impl View for StagedBlock {
    type V = StagedView;

    open spec fn view(&self) -> StagedView {
        StagedView {
            seq: self.seq,
            parent: BlockKey { seq: self.parent_seq, id: self.parent_id },
            header: self.header@,
            receipts: receipts_view(self.receipts@),
            transactions: txs_view(self.transactions@),
            accounts: self.accounts@,
            storage: self.storage@,
            bundle: self.bundle@,
        }
    }
}

/// The accounts that a bundle changes; none where it deletes one.
pub open spec fn staged_accounts(state: Map<Address, BundleAccountView>) -> Map<
    Address,
    Option<EthAccount>,
> {
    Map::new(
        |a: Address|
            state.contains_key(a) && (state[a].info is Some || state[a].original_info is Some),
        |a: Address|
            match state[a].info {
                Some(info) => Some(eth_account(info)),
                None => None,
            },
    )
}

/// The slots that a bundle changes.
pub open spec fn staged_storage(state: Map<Address, BundleAccountView>) -> Map<SlotKey, B256> {
    Map::new(
        |k: SlotKey|
            state.contains_key(k.address) && state[k.address].storage.contains_key(U256(k.slot)),
        |k: SlotKey| state[k.address].storage[U256(k.slot)].present_value.0,
    )
}

impl StagedBlock {
    /// A proposed block, with the change of state that it makes.
    pub fn from_bundle(
        seq: SeqNum,
        parent_seq: SeqNum,
        parent_id: BlockId,
        header: &BlockHeader,
        bundle: Bundle,
        receipts: &Vec<ReceiptEnvelope>,
        transactions: &Vec<TxEnvelope>,
    ) -> (r: Self)
        ensures
            r@ == (StagedView {
                seq,
                parent: BlockKey { seq: parent_seq, id: parent_id },
                header: header@,
                receipts: receipts_view(receipts@),
                transactions: txs_view(transactions@),
                accounts: staged_accounts(bundle@.state),
                storage: staged_storage(bundle@.state),
                bundle: bundle@,
            }),
    {
        let ghost state = bundle@.state;
        let mut accounts: KeyMap<Address, Option<EthAccount>> = KeyMap::new();
        let mut storage: KeyMap<SlotKey, B256> = KeyMap::new();
        let addresses = bundle.state.keys();
        let mut i: usize = 0;
        while i < addresses.len()
            invariant
                i <= addresses@.len(),
                addresses@.no_duplicates(),
                addresses@.to_set() == bundle.state@.dom(),
                state == bundle@.state,
                forall|a: Address| #[trigger]
                    accounts@.contains_key(a) <==> addresses@.take(i as int).contains(a)
                        && staged_accounts(state).contains_key(a),
                forall|a: Address|
                    accounts@.contains_key(a) ==> #[trigger] accounts@[a] == staged_accounts(
                        state,
                    )[a],
                forall|k: SlotKey| #[trigger]
                    storage@.contains_key(k) <==> addresses@.take(i as int).contains(k.address)
                        && staged_storage(state).contains_key(k),
                forall|k: SlotKey|
                    storage@.contains_key(k) ==> #[trigger] storage@[k] == staged_storage(state)[k],
            decreases addresses@.len() - i,
        {
            let address = addresses[i];
            proof {
                assert(addresses@.to_set().contains(address));
                lemma_take_step(addresses@, i as int);
                lemma_take_excludes(addresses@, i as int);
            }
            if let Some(account) = bundle.state.get(&address) {
                assert(state[address] == account@);
                match &account.info {
                    Some(info) => {
                        accounts.insert(address, Some(account_info_to_monad(info)));
                    },
                    None => {
                        if account.original_info.is_some() {
                            accounts.insert(address, None);
                        }
                    },
                }
                let slots = account.storage.keys();
                let mut j: usize = 0;
                let ghost before = storage@;
                while j < slots.len()
                    invariant
                        j <= slots@.len(),
                        slots@.to_set() == account@.storage.dom(),
                        state.contains_key(address),
                        state[address] == account@,
                        forall|k: SlotKey| #[trigger] before.contains_key(k) ==> k.address != address,
                        forall|k: SlotKey| #[trigger]
                            storage@.contains_key(k) <==> before.contains_key(k) || (k.address
                                == address && slots@.take(j as int).contains(U256(k.slot))),
                        forall|k: SlotKey|
                            storage@.contains_key(k) ==> #[trigger] storage@[k] == if k.address
                                == address {
                                staged_storage(state)[k]
                            } else {
                                before[k]
                            },
                    decreases slots@.len() - j,
                {
                    let slot = slots[j];
                    proof {
                        assert(slots@.to_set().contains(slot));
                        lemma_take_step(slots@, j as int);
                    }
                    if let Some(value) = account.storage.get(&slot) {
                        storage.insert(SlotKey { address, slot: slot.0 }, value.present_value.0);
                    }
                    j = j + 1;
                }
                proof {
                    assert(slots@.take(j as int) =~= slots@);
                    assert forall|u: U256| slots@.contains(u) <==> account@.storage.contains_key(
                        u,
                    ) by {
                        assert(slots@.to_set().contains(u) <==> slots@.contains(u));
                    }
                }
            }
            i = i + 1;
        }
        let r = StagedBlock {
            seq,
            parent_seq,
            parent_id,
            accounts,
            storage,
            header: header.copy(),
            receipts: copy_receipts(receipts),
            transactions: copy_txs(transactions),
            bundle,
        };
        proof {
            assert(addresses@.take(i as int) =~= addresses@);
            assert forall|a: Address| addresses@.contains(a) <==> state.contains_key(a) by {
                assert(addresses@.to_set().contains(a) <==> addresses@.contains(a));
            }
            assert(r@.accounts =~= staged_accounts(state));
            assert(r@.storage =~= staged_storage(state));
        }
        r
    }
}

/// The proposed blocks that are not finalized yet. Several may be proposed at one height, each on
/// top of its own parent.
pub struct Overlay {
    blocks: KeyMap<BlockKey, StagedBlock>,
}

/// What is found on the way from block `k` back to the finalized blocks, within `n` steps: the
/// first thing that `f` gives. The way ends at a block that is not staged, and at one that is not
/// above `finalized`.
pub open spec fn lookup<V>(
    blocks: Map<BlockKey, StagedView>,
    k: BlockKey,
    finalized: SeqNum,
    f: spec_fn(StagedView) -> Option<V>,
    n: nat,
) -> Option<V>
    decreases n,
{
    if n == 0 || !blocks.contains_key(k) {
        None
    } else if f(blocks[k]) is Some {
        f(blocks[k])
    } else if k.seq.0 <= finalized.0 {
        None
    } else {
        lookup(blocks, blocks[k].parent, finalized, f, (n - 1) as nat)
    }
}

/// Whether the way that `lookup` goes ends within `n` steps.
pub open spec fn lookup_ends<V>(
    blocks: Map<BlockKey, StagedView>,
    k: BlockKey,
    finalized: SeqNum,
    f: spec_fn(StagedView) -> Option<V>,
    n: nat,
) -> bool
    decreases n,
{
    n > 0 && (!blocks.contains_key(k) || f(blocks[k]) is Some || k.seq.0 <= finalized.0
        || lookup_ends(blocks, blocks[k].parent, finalized, f, (n - 1) as nat))
}

/// The blocks on the way from block `k` back to the finalized blocks, oldest first, within `n`
/// steps.
pub open spec fn chain_to(
    blocks: Map<BlockKey, StagedView>,
    k: BlockKey,
    finalized: SeqNum,
    n: nat,
) -> Seq<StagedView>
    decreases n,
{
    if n == 0 || k.seq.0 <= finalized.0 || !blocks.contains_key(k) {
        Seq::empty()
    } else {
        chain_to(blocks, blocks[k].parent, finalized, (n - 1) as nat).push(blocks[k])
    }
}

/// Whether the way that `chain_to` goes ends within `n` steps.
pub open spec fn chain_ends(
    blocks: Map<BlockKey, StagedView>,
    k: BlockKey,
    finalized: SeqNum,
    n: nat,
) -> bool
    decreases n,
{
    n > 0 && (k.seq.0 <= finalized.0 || !blocks.contains_key(k) || chain_ends(
        blocks,
        blocks[k].parent,
        finalized,
        (n - 1) as nat,
    ))
}

/// Whether every block is above its parent.
pub open spec fn ascending(blocks: Map<BlockKey, StagedView>) -> bool {
    forall|k: BlockKey| #[trigger] blocks.contains_key(k) ==> blocks[k].parent.seq.0 < k.seq.0
}

/// What a block says of an account.
pub open spec fn account_at(address: Address) -> spec_fn(StagedView) -> Option<Option<EthAccount>> {
    |s: StagedView|
        if s.accounts.contains_key(address) {
            Some(s.accounts[address])
        } else {
            None
        }
}

/// What a block says of a slot.
pub open spec fn slot_at(key: SlotKey) -> spec_fn(StagedView) -> Option<B256> {
    |s: StagedView|
        if s.storage.contains_key(key) {
            Some(s.storage[key])
        } else {
            None
        }
}

/// What a block says of code.
pub open spec fn code_at(hash: B256) -> spec_fn(StagedView) -> Option<Seq<u8>> {
    |s: StagedView|
        if s.bundle.contracts.contains_key(hash) {
            Some(s.bundle.contracts[hash])
        } else {
            None
        }
}

impl View for Overlay {
    type V = Map<BlockKey, StagedView>;

    closed spec fn view(&self) -> Map<BlockKey, StagedView> {
        self.blocks@.map_values(|s: StagedBlock| s@)
    }
}

impl Overlay {
    /// No blocks.
    pub fn new() -> (r: Self)
        ensures
            r@ == Map::<BlockKey, StagedView>::empty(),
    {
        let r = Overlay { blocks: KeyMap::new() };
        assert(r@ =~= Map::<BlockKey, StagedView>::empty());
        r
    }

    /// Keeps a proposed block.
    pub fn insert(&mut self, seq: SeqNum, block_id: BlockId, staged: StagedBlock)
        ensures
            final(self)@ == old(self)@.insert(BlockKey { seq, id: block_id }, staged@),
    {
        self.blocks.insert(BlockKey { seq, id: block_id }, staged);
        assert(self@ =~= old(self)@.insert(BlockKey { seq, id: block_id }, staged@));
    }

    /// Whether a block is kept.
    pub fn contains(&self, seq: SeqNum, block_id: &BlockId) -> (r: bool)
        ensures
            r == self@.contains_key(BlockKey { seq, id: *block_id }),
    {
        self.blocks.contains_key(&BlockKey { seq, id: *block_id })
    }

    /// What the chain that ends at a block says of an account: the account, that it is deleted, or
    /// nothing.
    pub fn read_account_in_chain(
        &self,
        seq: SeqNum,
        block_id: BlockId,
        address: &Address,
        finalized_seq: SeqNum,
    ) -> (r: Option<Option<EthAccount>>)
        requires
            exists|n: nat|
                lookup_ends(
                    self@,
                    BlockKey { seq, id: block_id },
                    finalized_seq,
                    account_at(*address),
                    n,
                ),
        ensures
            forall|n: nat|
                #![trigger lookup_ends(self@, BlockKey { seq, id: block_id }, finalized_seq, account_at(*address), n)]
                lookup_ends(
                    self@,
                    BlockKey { seq, id: block_id },
                    finalized_seq,
                    account_at(*address),
                    n,
                ) ==> r == lookup(
                    self@,
                    BlockKey { seq, id: block_id },
                    finalized_seq,
                    account_at(*address),
                    n,
                ),
    {
        let ghost f = account_at(*address);
        let ghost start = BlockKey { seq, id: block_id };
        let ghost total = choose|n: nat| lookup_ends(self@, start, finalized_seq, f, n);
        let ghost mut left = total;
        let mut cur = BlockKey { seq, id: block_id };
        loop
            invariant
                f == account_at(*address),
                start == (BlockKey { seq, id: block_id }),
                lookup_ends(self@, start, finalized_seq, f, total),
                lookup_ends(self@, cur, finalized_seq, f, left),
                lookup(self@, cur, finalized_seq, f, left) == lookup(
                    self@,
                    start,
                    finalized_seq,
                    f,
                    total,
                ),
            decreases left,
        {
            proof {
                assert forall|n: nat| lookup_ends(self@, start, finalized_seq, f, n) implies lookup(
                    self@,
                    start,
                    finalized_seq,
                    f,
                    n,
                ) == lookup(self@, start, finalized_seq, f, total) by {
                    lemma_lookup_unique(self@, start, finalized_seq, f, n, total);
                }
            }
            match self.blocks.get(&cur) {
                Some(staged) => {
                    assert(self@[cur] == staged@);
                    if let Some(acc) = staged.accounts.get(address) {
                        return Some(*acc);
                    }
                    if cur.seq.0 <= finalized_seq.0 {
                        return None;
                    }
                    cur = BlockKey { seq: staged.parent_seq, id: staged.parent_id };
                    proof {
                        left = (left - 1) as nat;
                    }
                },
                None => {
                    return None;
                },
            }
        }
    }

    /// What the chain that ends at a block says of a slot.
    pub fn read_storage_in_chain(
        &self,
        seq: SeqNum,
        block_id: BlockId,
        address: &Address,
        slot: &B256,
        finalized_seq: SeqNum,
    ) -> (r: Option<B256>)
        requires
            exists|n: nat|
                lookup_ends(
                    self@,
                    BlockKey { seq, id: block_id },
                    finalized_seq,
                    slot_at(SlotKey { address: *address, slot: *slot }),
                    n,
                ),
        ensures
            forall|n: nat|
                #![trigger lookup_ends(self@, BlockKey { seq, id: block_id }, finalized_seq, slot_at(SlotKey { address: *address, slot: *slot }), n)]
                lookup_ends(
                    self@,
                    BlockKey { seq, id: block_id },
                    finalized_seq,
                    slot_at(SlotKey { address: *address, slot: *slot }),
                    n,
                ) ==> r == lookup(
                    self@,
                    BlockKey { seq, id: block_id },
                    finalized_seq,
                    slot_at(SlotKey { address: *address, slot: *slot }),
                    n,
                ),
    {
        let key = SlotKey { address: *address, slot: *slot };
        let ghost f = slot_at(key);
        let ghost start = BlockKey { seq, id: block_id };
        let ghost total = choose|n: nat| lookup_ends(self@, start, finalized_seq, f, n);
        let ghost mut left = total;
        let mut cur = BlockKey { seq, id: block_id };
        loop
            invariant
                key == (SlotKey { address: *address, slot: *slot }),
                f == slot_at(key),
                start == (BlockKey { seq, id: block_id }),
                lookup_ends(self@, start, finalized_seq, f, total),
                lookup_ends(self@, cur, finalized_seq, f, left),
                lookup(self@, cur, finalized_seq, f, left) == lookup(
                    self@,
                    start,
                    finalized_seq,
                    f,
                    total,
                ),
            decreases left,
        {
            proof {
                assert forall|n: nat| lookup_ends(self@, start, finalized_seq, f, n) implies lookup(
                    self@,
                    start,
                    finalized_seq,
                    f,
                    n,
                ) == lookup(self@, start, finalized_seq, f, total) by {
                    lemma_lookup_unique(self@, start, finalized_seq, f, n, total);
                }
            }
            match self.blocks.get(&cur) {
                Some(staged) => {
                    assert(self@[cur] == staged@);
                    if let Some(value) = staged.storage.get(&key) {
                        return Some(*value);
                    }
                    if cur.seq.0 <= finalized_seq.0 {
                        return None;
                    }
                    cur = BlockKey { seq: staged.parent_seq, id: staged.parent_id };
                    proof {
                        left = (left - 1) as nat;
                    }
                },
                None => {
                    return None;
                },
            }
        }
    }

    /// What the chain that ends at a block says of code.
    pub fn read_code_in_chain(
        &self,
        seq: SeqNum,
        block_id: BlockId,
        code_hash: &B256,
        finalized_seq: SeqNum,
    ) -> (r: Option<Vec<u8>>)
        requires
            exists|n: nat|
                lookup_ends(
                    self@,
                    BlockKey { seq, id: block_id },
                    finalized_seq,
                    code_at(*code_hash),
                    n,
                ),
        ensures
            forall|n: nat|
                #![trigger lookup_ends(self@, BlockKey { seq, id: block_id }, finalized_seq, code_at(*code_hash), n)]
                lookup_ends(
                    self@,
                    BlockKey { seq, id: block_id },
                    finalized_seq,
                    code_at(*code_hash),
                    n,
                ) ==> bytes_of(r) == lookup(
                    self@,
                    BlockKey { seq, id: block_id },
                    finalized_seq,
                    code_at(*code_hash),
                    n,
                ),
    {
        let ghost f = code_at(*code_hash);
        let ghost start = BlockKey { seq, id: block_id };
        let ghost total = choose|n: nat| lookup_ends(self@, start, finalized_seq, f, n);
        let ghost mut left = total;
        let mut cur = BlockKey { seq, id: block_id };
        loop
            invariant
                f == code_at(*code_hash),
                start == (BlockKey { seq, id: block_id }),
                lookup_ends(self@, start, finalized_seq, f, total),
                lookup_ends(self@, cur, finalized_seq, f, left),
                lookup(self@, cur, finalized_seq, f, left) == lookup(
                    self@,
                    start,
                    finalized_seq,
                    f,
                    total,
                ),
            decreases left,
        {
            proof {
                assert forall|n: nat| lookup_ends(self@, start, finalized_seq, f, n) implies lookup(
                    self@,
                    start,
                    finalized_seq,
                    f,
                    n,
                ) == lookup(self@, start, finalized_seq, f, total) by {
                    lemma_lookup_unique(self@, start, finalized_seq, f, n, total);
                }
            }
            match self.blocks.get(&cur) {
                Some(staged) => {
                    assert(self@[cur] == staged@);
                    if let Some(code) = staged.bundle.contracts.get(code_hash) {
                        return Some(copy_bytes(code));
                    }
                    if cur.seq.0 <= finalized_seq.0 {
                        return None;
                    }
                    cur = BlockKey { seq: staged.parent_seq, id: staged.parent_id };
                    proof {
                        left = (left - 1) as nat;
                    }
                },
                None => {
                    return None;
                },
            }
        }
    }

    /// The header of a block that is kept.
    pub fn read_header(&self, seq: SeqNum, block_id: &BlockId) -> (r: Option<&BlockHeader>)
        ensures
            match r {
                Some(h) => {
                    &&& self@.contains_key(BlockKey { seq, id: *block_id })
                    &&& h@ == self@[BlockKey { seq, id: *block_id }].header
                },
                None => !self@.contains_key(BlockKey { seq, id: *block_id }),
            },
    {
        match self.blocks.get(&BlockKey { seq, id: *block_id }) {
            Some(staged) => Some(&staged.header),
            None => None,
        }
    }

    /// The blocks from the first one above `finalized_seq` up to a block, oldest first.
    pub fn collect_chain<'a>(
        &'a self,
        target_seq: SeqNum,
        target_id: BlockId,
        finalized_seq: SeqNum,
    ) -> (r: Vec<&'a StagedBlock>)
        requires
            exists|n: nat|
                chain_ends(self@, BlockKey { seq: target_seq, id: target_id }, finalized_seq, n),
        ensures
            forall|n: nat|
                #![trigger chain_ends(self@, BlockKey { seq: target_seq, id: target_id }, finalized_seq, n)]
                chain_ends(self@, BlockKey { seq: target_seq, id: target_id }, finalized_seq, n)
                    ==> staged_views(r@) == chain_to(
                    self@,
                    BlockKey { seq: target_seq, id: target_id },
                    finalized_seq,
                    n,
                ),
    {
        let ghost start = BlockKey { seq: target_seq, id: target_id };
        let ghost total = choose|n: nat| chain_ends(self@, start, finalized_seq, n);
        let ghost mut left = total;
        let ghost whole = chain_to(self@, start, finalized_seq, total);
        let mut back: Vec<&'a StagedBlock> = Vec::new();
        let mut cur = BlockKey { seq: target_seq, id: target_id };
        assert(staged_views(back@).reverse() =~= Seq::empty());
        loop
            invariant
                chain_ends(self@, cur, finalized_seq, left),
                whole == chain_to(self@, cur, finalized_seq, left) + staged_views(back@).reverse(),
            ensures
                whole == staged_views(back@).reverse(),
            decreases left,
        {
            if cur.seq.0 <= finalized_seq.0 {
                assert(whole =~= staged_views(back@).reverse());
                break;
            }
            match self.blocks.get(&cur) {
                Some(staged) => {
                    proof {
                        assert(self@[cur] == staged@);
                        let now = staged_views(back@);
                        assert(staged_views(back@.push(staged)) =~= now.push(staged@));
                        let rest = chain_to(
                            self@,
                            self@[cur].parent,
                            finalized_seq,
                            (left - 1) as nat,
                        );
                        assert(rest.push(staged@) + now.reverse() =~= rest + now.push(
                            staged@,
                        ).reverse());
                    }
                    back.push(staged);
                    cur = BlockKey { seq: staged.parent_seq, id: staged.parent_id };
                    proof {
                        left = (left - 1) as nat;
                    }
                },
                None => {
                    assert(whole =~= staged_views(back@).reverse());
                    break;
                },
            }
        }
        let mut r: Vec<&'a StagedBlock> = Vec::new();
        let mut i: usize = back.len();
        while i > 0
            invariant
                i <= back@.len(),
                r@ == back@.skip(i as int).reverse(),
            decreases i,
        {
            i = i - 1;
            r.push(back[i]);
            assert(r@ =~= back@.skip(i as int).reverse());
        }
        proof {
            assert(back@.skip(0) =~= back@);
            assert(staged_views(r@) =~= staged_views(back@).reverse());
            assert forall|n: nat| chain_ends(self@, start, finalized_seq, n) implies staged_views(r@)
                == chain_to(self@, start, finalized_seq, n) by {
                lemma_chain_unique(self@, start, finalized_seq, n, total);
            }
        }
        r
    }

    /// Whether the way from a block back to the finalized blocks ends.
    pub fn chain_is_finite(&self, seq: SeqNum, block_id: BlockId, finalized_seq: SeqNum) -> (r: bool)
        ensures
            r == exists|n: nat|
                chain_ends(self@, BlockKey { seq, id: block_id }, finalized_seq, n),
    {
        let ghost start = BlockKey { seq, id: block_id };
        let limit = self.blocks.len();
        assert(self@.dom() =~= self.blocks@.dom());
        let mut cur = BlockKey { seq, id: block_id };
        let mut steps: usize = 0;
        loop
            invariant
                start == (BlockKey { seq, id: block_id }),
                self@.dom().finite(),
                limit == self@.dom().len(),
                steps <= limit,
                forall|n: nat|
                    #![trigger chain_ends(self@, cur, finalized_seq, n)]
                    chain_ends(self@, start, finalized_seq, n + steps as nat) == chain_ends(
                        self@,
                        cur,
                        finalized_seq,
                        n,
                    ),
            decreases limit - steps,
        {
            if cur.seq.0 <= finalized_seq.0 {
                proof {
                    assert(chain_ends(self@, cur, finalized_seq, 1));
                    assert(chain_ends(self@, start, finalized_seq, 1 + steps as nat));
                }
                return true;
            }
            match self.blocks.get(&cur) {
                Some(staged) => {
                    assert(self@[cur] == staged@);
                    let ghost here = cur;
                    if steps == limit {
                        proof {
                            assert forall|n: nat| !chain_ends(self@, start, finalized_seq, n) by {
                                if chain_ends(self@, start, finalized_seq, n) {
                                    lemma_short_way(self@, start, finalized_seq, n);
                                    assert(chain_ends(
                                        self@,
                                        start,
                                        finalized_seq,
                                        1 + steps as nat,
                                    ));
                                    assert(chain_ends(self@, cur, finalized_seq, 1));
                                    assert(!chain_ends(
                                        self@,
                                        self@[here].parent,
                                        finalized_seq,
                                        0,
                                    ));
                                }
                            }
                        }
                        return false;
                    }
                    cur = BlockKey { seq: staged.parent_seq, id: staged.parent_id };
                    proof {
                        assert forall|n: nat|
                            #![trigger chain_ends(self@, cur, finalized_seq, n)]
                            chain_ends(self@, start, finalized_seq, n + steps as nat + 1) == chain_ends(
                                self@,
                                cur,
                                finalized_seq,
                                n,
                            ) by {
                            assert(chain_ends(self@, here, finalized_seq, n + 1) == chain_ends(
                                self@,
                                cur,
                                finalized_seq,
                                n,
                            ));
                        }
                    }
                    steps = steps + 1;
                },
                None => {
                    proof {
                        assert(chain_ends(self@, cur, finalized_seq, 1));
                        assert(chain_ends(self@, start, finalized_seq, 1 + steps as nat));
                    }
                    return true;
                },
            }
        }
    }

    /// Drops the blocks that are not above `finalized_seq`.
    pub fn gc(&mut self, finalized_seq: SeqNum)
        ensures
            final(self)@ == old(self)@.restrict(
                Set::new(|k: BlockKey| old(self)@.contains_key(k) && k.seq.0 > finalized_seq.0),
            ),
    {
        let keys = self.blocks.keys();
        let mut i: usize = 0;
        assert(self@.dom() =~= self.blocks@.dom());
        while i < keys.len()
            invariant
                i <= keys@.len(),
                keys@.to_set() == old(self)@.dom(),
                forall|k: BlockKey| #[trigger]
                    self@.contains_key(k) <==> old(self)@.contains_key(k) && !(keys@.take(
                        i as int,
                    ).contains(k) && k.seq.0 <= finalized_seq.0),
                forall|k: BlockKey| self@.contains_key(k) ==> #[trigger] self@[k] == old(self)@[k],
            decreases keys@.len() - i,
        {
            let key = keys[i];
            proof {
                assert(keys@.to_set().contains(key));
                lemma_take_step(keys@, i as int);
            }
            if key.seq.0 <= finalized_seq.0 {
                let ghost before = self@;
                self.blocks.remove(&key);
                assert(self@ =~= before.remove(key));
            }
            i = i + 1;
        }
        proof {
            assert(keys@.take(i as int) =~= keys@);
            assert forall|k: BlockKey| keys@.contains(k) <==> old(self)@.contains_key(k) by {
                assert(keys@.to_set().contains(k) <==> keys@.contains(k));
            }
            assert(self@ =~= old(self)@.restrict(
                Set::new(|k: BlockKey| old(self)@.contains_key(k) && k.seq.0 > finalized_seq.0),
            ));
        }
    }
}

/// What a list of staged blocks says.
pub open spec fn staged_views(blocks: Seq<&StagedBlock>) -> Seq<StagedView> {
    blocks.map_values(|s: &StagedBlock| s@)
}

/// Some bytes, if they are there.
pub open spec fn bytes_of(v: Option<Vec<u8>>) -> Option<Seq<u8>> {
    match v {
        Some(v) => Some(v@),
        None => None,
    }
}

/// A way that ends within some number of steps finds the same within any number of steps in which it
/// ends.
pub proof fn lemma_lookup_unique<V>(
    blocks: Map<BlockKey, StagedView>,
    k: BlockKey,
    finalized: SeqNum,
    f: spec_fn(StagedView) -> Option<V>,
    n: nat,
    m: nat,
)
    requires
        lookup_ends(blocks, k, finalized, f, n),
        lookup_ends(blocks, k, finalized, f, m),
    ensures
        lookup(blocks, k, finalized, f, n) == lookup(blocks, k, finalized, f, m),
    decreases n,
{
    if blocks.contains_key(k) && f(blocks[k]) is None && k.seq.0 > finalized.0 {
        lemma_lookup_unique(
            blocks,
            blocks[k].parent,
            finalized,
            f,
            (n - 1) as nat,
            (m - 1) as nat,
        );
    }
}

/// The `i`th block on the way back from `k`.
spec fn ancestor(blocks: Map<BlockKey, StagedView>, k: BlockKey, i: nat) -> BlockKey
    decreases i,
{
    if i == 0 {
        k
    } else {
        blocks[ancestor(blocks, k, (i - 1) as nat)].parent
    }
}

/// The rest of the way ends in the rest of the steps.
proof fn lemma_ancestor_ends(
    blocks: Map<BlockKey, StagedView>,
    k: BlockKey,
    finalized: SeqNum,
    i: nat,
    n: nat,
)
    requires
        i <= n,
        !chain_ends(blocks, k, finalized, i),
    ensures
        chain_ends(blocks, k, finalized, n) == chain_ends(
            blocks,
            ancestor(blocks, k, i),
            finalized,
            (n - i) as nat,
        ),
    decreases i,
{
    if i > 0 {
        lemma_fewer_steps(blocks, k, finalized, (i - 1) as nat, i);
        lemma_ancestor_ends(blocks, k, finalized, (i - 1) as nat, n);
        lemma_ancestor_ends(blocks, k, finalized, (i - 1) as nat, i);
        let a = ancestor(blocks, k, (i - 1) as nat);
        assert(!chain_ends(blocks, a, finalized, 1));
        assert(!chain_ends(blocks, blocks[a].parent, finalized, 0));
    }
}

proof fn lemma_fewer_steps(
    blocks: Map<BlockKey, StagedView>,
    k: BlockKey,
    finalized: SeqNum,
    n: nat,
    m: nat,
)
    requires
        n <= m,
        !chain_ends(blocks, k, finalized, m),
    ensures
        !chain_ends(blocks, k, finalized, n),
    decreases n,
{
    if n > 0 && m > 0 {
        lemma_fewer_steps(blocks, blocks[k].parent, finalized, (n - 1) as nat, (m - 1) as nat);
    }
}

/// A way that ends does so within as many steps as there are blocks, and one.
proof fn lemma_short_way(
    blocks: Map<BlockKey, StagedView>,
    k: BlockKey,
    finalized: SeqNum,
    n: nat,
)
    requires
        blocks.dom().finite(),
        chain_ends(blocks, k, finalized, n),
    ensures
        chain_ends(blocks, k, finalized, (blocks.dom().len() + 1) as nat),
    decreases n,
{
    let size = blocks.dom().len();
    if n > size + 1 {
        if chain_ends(blocks, k, finalized, (n - 1) as nat) {
            lemma_short_way(blocks, k, finalized, (n - 1) as nat);
        } else {
            let m = (n - 1) as nat;
            let way = Seq::new(m, |i: int| ancestor(blocks, k, i as nat));
            assert forall|i: int| 0 <= i < m implies blocks.dom().contains(#[trigger] way[i]) by {
                lemma_fewer_steps(blocks, k, finalized, (i + 1) as nat, m);
                lemma_fewer_steps(blocks, k, finalized, i as nat, m);
                lemma_ancestor_ends(blocks, k, finalized, i as nat, (i + 1) as nat);
            }
            assert forall|i: int, j: int| 0 <= i < j < m implies way[i] != way[j] by {
                if way[i] == way[j] {
                    lemma_fewer_steps(blocks, k, finalized, i as nat, m);
                    lemma_fewer_steps(blocks, k, finalized, j as nat, m);
                    lemma_ancestor_ends(blocks, k, finalized, j as nat, n);
                    lemma_ancestor_ends(blocks, k, finalized, i as nat, (n - (j - i)) as nat);
                    lemma_fewer_steps(blocks, k, finalized, (n - (j - i)) as nat, m);
                }
            }
            assert(way.no_duplicates());
            way.unique_seq_to_set();
            assert(way.to_set().subset_of(blocks.dom())) by {
                assert forall|x: BlockKey| way.to_set().contains(x) implies blocks.dom().contains(
                    x,
                ) by {
                    let i = choose|i: int| 0 <= i < way.len() && way[i] == x;
                    assert(blocks.dom().contains(way[i]));
                }
            }
            vstd::set_lib::lemma_len_subset(way.to_set(), blocks.dom());
        }
    } else {
        if !chain_ends(blocks, k, finalized, (size + 1) as nat) {
            lemma_fewer_steps(blocks, k, finalized, n, (size + 1) as nat);
        }
    }
}

/// A way whose blocks are finite in number ends for every read.
pub proof fn lemma_finite_chain_reads_end<V>(
    blocks: Map<BlockKey, StagedView>,
    k: BlockKey,
    finalized: SeqNum,
    f: spec_fn(StagedView) -> Option<V>,
    n: nat,
)
    requires
        chain_ends(blocks, k, finalized, n),
    ensures
        lookup_ends(blocks, k, finalized, f, n),
    decreases n,
{
    if blocks.contains_key(k) && k.seq.0 > finalized.0 {
        lemma_finite_chain_reads_end(blocks, blocks[k].parent, finalized, f, (n - 1) as nat);
    }
}

/// As `lemma_lookup_unique`, for `chain_to`.
pub proof fn lemma_chain_unique(
    blocks: Map<BlockKey, StagedView>,
    k: BlockKey,
    finalized: SeqNum,
    n: nat,
    m: nat,
)
    requires
        chain_ends(blocks, k, finalized, n),
        chain_ends(blocks, k, finalized, m),
    ensures
        chain_to(blocks, k, finalized, n) == chain_to(blocks, k, finalized, m),
    decreases n,
{
    if blocks.contains_key(k) && k.seq.0 > finalized.0 {
        lemma_chain_unique(blocks, blocks[k].parent, finalized, (n - 1) as nat, (m - 1) as nat);
    }
}

/// Where every block is above its parent, every way ends.
pub proof fn lemma_ascending_ends<V>(
    blocks: Map<BlockKey, StagedView>,
    k: BlockKey,
    finalized: SeqNum,
    f: spec_fn(StagedView) -> Option<V>,
)
    requires
        ascending(blocks),
    ensures
        lookup_ends(blocks, k, finalized, f, k.seq.0 as nat + 1),
        chain_ends(blocks, k, finalized, k.seq.0 as nat + 1),
    decreases k.seq.0,
{
    if blocks.contains_key(k) {
        let p = blocks[k].parent;
        lemma_ascending_ends(blocks, p, finalized, f);
        lemma_more_steps(blocks, p, finalized, f, p.seq.0 as nat + 1, k.seq.0 as nat);
    }
}

proof fn lemma_more_steps<V>(
    blocks: Map<BlockKey, StagedView>,
    k: BlockKey,
    finalized: SeqNum,
    f: spec_fn(StagedView) -> Option<V>,
    n: nat,
    m: nat,
)
    requires
        n <= m,
    ensures
        lookup_ends(blocks, k, finalized, f, n) ==> lookup_ends(blocks, k, finalized, f, m),
        chain_ends(blocks, k, finalized, n) ==> chain_ends(blocks, k, finalized, m),
    decreases n,
{
    if n > 0 && blocks.contains_key(k) {
        lemma_more_steps(
            blocks,
            blocks[k].parent,
            finalized,
            f,
            (n - 1) as nat,
            (m - 1) as nat,
        );
    }
}

/// A block that is above its parent keeps every block above its parent, and so does dropping
/// blocks.
pub proof fn lemma_stays_ascending(
    blocks: Map<BlockKey, StagedView>,
    k: BlockKey,
    s: StagedView,
    keep: Set<BlockKey>,
)
    requires
        ascending(blocks),
    ensures
        s.parent.seq.0 < k.seq.0 ==> ascending(blocks.insert(k, s)),
        ascending(blocks.restrict(keep)),
{
}

/// A read from a block that says something gives what the block says, whatever other blocks there
/// are.
pub proof fn lemma_own_change_is_seen<V>(
    blocks: Map<BlockKey, StagedView>,
    k: BlockKey,
    finalized: SeqNum,
    f: spec_fn(StagedView) -> Option<V>,
    n: nat,
)
    requires
        blocks.contains_key(k),
        f(blocks[k]) is Some,
        n > 0,
    ensures
        lookup_ends(blocks, k, finalized, f, n),
        lookup(blocks, k, finalized, f, n) == f(blocks[k]),
{
}

/// A read from a block that says nothing gives what a read from its parent gives.
pub proof fn lemma_parent_is_seen<V>(
    blocks: Map<BlockKey, StagedView>,
    k: BlockKey,
    finalized: SeqNum,
    f: spec_fn(StagedView) -> Option<V>,
    n: nat,
)
    requires
        blocks.contains_key(k),
        f(blocks[k]) is None,
        k.seq.0 > finalized.0,
    ensures
        lookup(blocks, k, finalized, f, n + 1) == lookup(
            blocks,
            blocks[k].parent,
            finalized,
            f,
            n,
        ),
{
}

/// Keeping another block does not change what a chain says that the block is not part of.
pub proof fn lemma_forks_are_isolated<V>(
    blocks: Map<BlockKey, StagedView>,
    k: BlockKey,
    finalized: SeqNum,
    f: spec_fn(StagedView) -> Option<V>,
    n: nat,
    other: BlockKey,
    s: StagedView,
)
    requires
        !on_way(blocks, k, n, other),
        k != other,
    ensures
        lookup(blocks.insert(other, s), k, finalized, f, n) == lookup(blocks, k, finalized, f, n),
    decreases n,
{
    if n > 0 && blocks.contains_key(k) {
        lemma_forks_are_isolated(
            blocks,
            blocks[k].parent,
            finalized,
            f,
            (n - 1) as nat,
            other,
            s,
        );
    }
}

/// Whether `other` is one of the `n` blocks before `k`.
pub open spec fn on_way(
    blocks: Map<BlockKey, StagedView>,
    k: BlockKey,
    n: nat,
    other: BlockKey,
) -> bool
    decreases n,
{
    n > 0 && blocks.contains_key(k) && (blocks[k].parent == other || on_way(
        blocks,
        blocks[k].parent,
        (n - 1) as nat,
        other,
    ))
}

/// The blocks that are finalized along with a block are the block itself, last, and before it those on
/// the way from its parent; a block that is not proposed, or not above the finalized ones, takes none
/// along.
pub proof fn lemma_chain_leads_back_to_the_finalized_blocks(
    blocks: Map<BlockKey, StagedView>,
    k: BlockKey,
    finalized: SeqNum,
    n: nat,
)
    requires
        chain_ends(blocks, k, finalized, n),
    ensures
        ({
            let chain = chain_to(blocks, k, finalized, n);
            &&& chain.len() > 0 <==> blocks.contains_key(k) && k.seq.0 > finalized.0
            &&& chain.len() > 0 ==> {
                let before = chain_to(blocks, blocks[k].parent, finalized, (n - 1) as nat);
                &&& chain.last() == blocks[k]
                &&& chain_ends(blocks, blocks[k].parent, finalized, (n - 1) as nat)
                &&& chain.drop_last() == before
                &&& chain.len() > 1 ==> blocks.contains_key(blocks[k].parent)
                    && chain[chain.len() - 2] == blocks[blocks[k].parent]
                    && blocks[k].parent.seq.0 > finalized.0
                &&& chain.len() == 1 ==> !blocks.contains_key(blocks[k].parent)
                    || blocks[k].parent.seq.0 <= finalized.0
            }
        }),
{
    if blocks.contains_key(k) && k.seq.0 > finalized.0 {
        let parent = blocks[k].parent;
        let before = chain_to(blocks, parent, finalized, (n - 1) as nat);
        assert(chain_to(blocks, k, finalized, n).drop_last() =~= before);
    }
}

/// What a change of state says of an account is the account that it leaves, or that it is gone; it says
/// nothing of an account that neither was nor is there.
pub proof fn lemma_staged_accounts_are_those_left(state: Map<Address, BundleAccountView>, a: Address)
    ensures
        staged_accounts(state).contains_key(a) <==> state.contains_key(a) && (state[a].info is Some
            || state[a].original_info is Some),
        staged_accounts(state).contains_key(a) && state[a].info is None ==> staged_accounts(
            state,
        )[a] is None,
        staged_accounts(state).contains_key(a) && state[a].info is Some ==> {
            let left = staged_accounts(state)[a];
            let info = state[a].info->0;
            &&& left is Some
            &&& (left->0).nonce == info.nonce
            &&& (left->0).balance == info.balance
            &&& (left->0).code_hash is Some ==> (left->0).code_hash == Some(info.code_hash)
        },
{
}

/// What a change of state says of a slot is the value that it leaves.
pub proof fn lemma_staged_slots_are_those_left(
    state: Map<Address, BundleAccountView>,
    address: Address,
    slot: B256,
)
    ensures
        ({
            let key = SlotKey { address, slot };
            let says = state.contains_key(address) && state[address].storage.contains_key(
                U256(slot),
            );
            &&& staged_storage(state).contains_key(key) == says
            &&& says ==> U256(staged_storage(state)[key])
                == state[address].storage[U256(slot)].present_value
        }),
{
}

/// What a proposed block says is what it holds.
pub proof fn lemma_staged_block_says_what_it_holds(s: StagedBlock)
    ensures
        s@.seq == s.seq,
        s@.parent.seq == s.parent_seq,
        s@.parent.id == s.parent_id,
        s@.header == s.header@,
        s@.receipts == receipts_view(s.receipts@),
        s@.transactions == txs_view(s.transactions@),
        s@.accounts == s.accounts@,
        s@.storage == s.storage@,
        s@.bundle == s.bundle@,
{
}

} // verus!
