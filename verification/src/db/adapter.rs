//! The database itself: reads look at the proposed blocks first and then at storage; finalizing a
//! block moves its chain to storage.

use vstd::prelude::*;

use crate::bundle::{
    delta_accounts, deployed_contracts, executed, executed_code, lemma_account_round_trip,
    lemma_bundle_has_the_new_account, lemma_bundle_has_the_new_slots, state_deltas_to_bundle,
    takes_back, valid_code, Bundle, BundleView,
};
use crate::db::bridge::{
    receipt_envelope_to_reth, stored_receipt, StoredReceipt, StoredReceiptView,
};
use crate::db::overlay::{
    account_at, bytes_of, chain_ends, chain_to, code_at,
    lemma_chain_leads_back_to_the_finalized_blocks, lemma_chain_unique, lemma_lookup_unique, lookup,
    lookup_ends, slot_at, staged_accounts, staged_storage, staged_views, Overlay, StagedBlock,
    StagedView,
};
use crate::header::{default_header, header_hash, BlockHeader, HeaderView};
use crate::keymap::{BlockKey, SlotKey};
use crate::primitives::{Address, BlockId, SeqNum, B256};
use crate::transactions::{
    receipts_view, txs_view, Eip658Value, ReceiptEnvelope, ReceiptView, TxEnvelope, TxType,
};
use crate::types::{spec_keccak_empty, AccountDelta, CodeMap, EthAccount, StateDeltas};
use crate::validation::compute_block_hash;

verus! {

/// The proposed blocks, and where reads start.
pub struct RethExecutionDb {
    overlay: Overlay,
    current: BlockKey,
    latest_finalized: SeqNum,
    latest_verified: SeqNum,
}

#[verifier::ext_equal]
pub struct DbView {
    pub blocks: Map<BlockKey, StagedView>,
    pub current: BlockKey,
    pub latest_finalized: SeqNum,
    pub latest_verified: SeqNum,
}

impl View for RethExecutionDb {
    type V = DbView;

    closed spec fn view(&self) -> DbView {
        DbView {
            blocks: self.overlay@,
            current: self.current,
            latest_finalized: self.latest_finalized,
            latest_verified: self.latest_verified,
        }
    }
}

impl DbView {
    /// Whether a read of what `f` gives ends.
    pub open spec fn read_ends<V>(self, f: spec_fn(StagedView) -> Option<V>) -> bool {
        exists|n: nat| lookup_ends(self.blocks, self.current, self.latest_finalized, f, n)
    }

    /// What the proposed blocks say of what `f` gives.
    pub open spec fn staged<V>(self, f: spec_fn(StagedView) -> Option<V>) -> Option<V> {
        let n = choose|n: nat|
            lookup_ends(self.blocks, self.current, self.latest_finalized, f, n);
        lookup(self.blocks, self.current, self.latest_finalized, f, n)
    }

    /// The proposed blocks that are finalized along with a block, oldest first.
    pub open spec fn chain(self, k: BlockKey) -> Seq<StagedView> {
        let n = choose|n: nat| chain_ends(self.blocks, k, self.latest_finalized, n);
        chain_to(self.blocks, k, self.latest_finalized, n)
    }

    /// Whether the way from a block back to the finalized blocks ends.
    pub open spec fn chain_is_finite(self, k: BlockKey) -> bool {
        exists|n: nat| chain_ends(self.blocks, k, self.latest_finalized, n)
    }

    /// With one more proposed block, on top of the selected one.
    pub open spec fn committed(
        self,
        block_id: BlockId,
        header: HeaderView,
        bundle: BundleView,
        receipts: Seq<(TxType, ReceiptView)>,
        transactions: Seq<Seq<u8>>,
    ) -> DbView {
        DbView {
            blocks: self.blocks.insert(
                BlockKey { seq: SeqNum(header.number), id: block_id },
                StagedView {
                    seq: SeqNum(header.number),
                    parent: self.current,
                    header,
                    receipts,
                    transactions,
                    accounts: staged_accounts(bundle.state),
                    storage: staged_storage(bundle.state),
                    bundle,
                },
            ),
            ..self
        }
    }

    /// Once the chain of a block was written to storage: the proposed blocks that are not above it
    /// are gone.
    pub open spec fn finalized(self, seq_num: SeqNum) -> DbView {
        DbView {
            blocks: self.blocks.restrict(
                Set::new(|k: BlockKey| self.blocks.contains_key(k) && k.seq.0 > seq_num.0),
            ),
            latest_finalized: seq_num,
            ..self
        }
    }
}

/// What is stored for a block.
pub struct BlockRow {
    pub number: u64,
    pub hash: B256,
    pub header: BlockHeader,
    pub first_tx_num: u64,
    pub tx_count: u64,
}

#[verifier::ext_equal]
pub struct BlockRowView {
    pub number: u64,
    pub hash: B256,
    pub header: HeaderView,
    pub first_tx_num: u64,
    pub tx_count: u64,
}

impl View for BlockRow {
    type V = BlockRowView;

    open spec fn view(&self) -> BlockRowView {
        BlockRowView {
            number: self.number,
            hash: self.hash,
            header: self.header@,
            first_tx_num: self.first_tx_num,
            tx_count: self.tx_count,
        }
    }
}

/// Where the transactions of a block are in storage.
#[derive(Clone, Copy, Debug, PartialEq, Eq, Structural)]
pub struct StoredBlockBodyIndices {
    pub first_tx_num: u64,
    pub tx_count: u64,
}

/// The number of the next transaction, after the block that was stored last.
pub open spec fn next_tx_num(last: Option<StoredBlockBodyIndices>) -> int {
    match last {
        Some(i) => i.first_tx_num + i.tx_count,
        None => 0,
    }
}

/// How many transactions some blocks have together.
pub open spec fn tx_total(chain: Seq<StagedView>) -> nat
    decreases chain.len(),
{
    if chain.len() == 0 {
        0
    } else {
        tx_total(chain.drop_last()) + chain.last().transactions.len()
    }
}

/// What is stored for some blocks: their transactions are numbered on, from `next` on.
pub open spec fn block_rows(chain: Seq<StagedView>, next: int) -> Seq<BlockRowView>
    decreases chain.len(),
{
    if chain.len() == 0 {
        Seq::empty()
    } else {
        let b = chain.last();
        block_rows(chain.drop_last(), next).push(
            BlockRowView {
                number: b.seq.0,
                hash: header_hash(b.header),
                header: b.header,
                first_tx_num: (next + tx_total(chain.drop_last())) as u64,
                tx_count: b.transactions.len() as u64,
            },
        )
    }
}

/// The receipts that are stored for some blocks.
pub open spec fn receipt_rows(chain: Seq<StagedView>) -> Seq<Seq<StoredReceiptView>> {
    chain.map_values(|b: StagedView| b.receipts.map_values(|r| stored_receipt(r)))
}

/// What is written to storage when blocks are finalized, besides the change of state: rows for
/// blocks `first_block` to `last_block`, and their receipts.
pub struct FlushPlan {
    pub first_block: u64,
    pub last_block: u64,
    pub rows: Vec<BlockRow>,
    pub receipts: Vec<Vec<StoredReceipt>>,
}

/// What has to be done to finalize a block.
pub enum FinalizePlan {
    /// No proposed block leads to it.
    Nothing,
    /// This has to be written.
    Flush(FlushPlan),
    /// There are no numbers left for its transactions.
    OutOfNumbers,
}

/// What some rows say.
pub open spec fn rows_view(rows: Seq<BlockRow>) -> Seq<BlockRowView> {
    rows.map_values(|r: BlockRow| r@)
}

/// What the receipts of some blocks say.
pub open spec fn stored_view(receipts: Seq<Vec<StoredReceipt>>) -> Seq<Seq<StoredReceiptView>> {
    receipts.map_values(|b: Vec<StoredReceipt>| b@.map_values(|r: StoredReceipt| r@))
}

fn convert_block_receipts(receipts: &Vec<ReceiptEnvelope>) -> (r: Vec<StoredReceipt>)
    ensures
        r@.map_values(|r: StoredReceipt| r@) == receipts_view(receipts@).map_values(
            |r| stored_receipt(r),
        ),
{
    let mut out: Vec<StoredReceipt> = Vec::new();
    let mut i: usize = 0;
    let ghost all = receipts_view(receipts@).map_values(|r| stored_receipt(r));
    while i < receipts.len()
        invariant
            i <= receipts@.len(),
            all == receipts_view(receipts@).map_values(|r| stored_receipt(r)),
            out@.len() == i,
            forall|j: int| 0 <= j < i ==> (#[trigger] out@[j])@ == all[j],
        decreases receipts@.len() - i,
    {
        out.push(receipt_envelope_to_reth(&receipts[i]));
        i = i + 1;
    }
    assert(out@.map_values(|r: StoredReceipt| r@) =~= all);
    out
}

/// The rows of some blocks, where `next` is the number of the next transaction; none if numbers run
/// out.
fn rows_of(chain: &Vec<&StagedBlock>, next: u64) -> (r: Option<Vec<BlockRow>>)
    ensures
        match r {
            Some(rows) => {
                &&& next + tx_total(staged_views(chain@)) <= u64::MAX
                &&& rows_view(rows@) == block_rows(staged_views(chain@), next as int)
            },
            None => next + tx_total(staged_views(chain@)) > u64::MAX,
        },
{
    let ghost all = staged_views(chain@);
    let mut rows: Vec<BlockRow> = Vec::new();
    let mut num: u64 = next;
    let mut i: usize = 0;
    assert(rows_view(rows@) =~= block_rows(all.take(0), next as int));
    while i < chain.len()
        invariant
            i <= chain@.len(),
            all == staged_views(chain@),
            num == next + tx_total(all.take(i as int)),
            rows_view(rows@) == block_rows(all.take(i as int), next as int),
        decreases chain@.len() - i,
    {
        let staged = chain[i];
        proof {
            let more = all.take(i + 1);
            assert(more.drop_last() =~= all.take(i as int));
            assert(more.last() == staged@);
            lemma_tx_total_monotonic(all, i + 1);
        }
        let tx_count = staged.transactions.len() as u64;
        if tx_count > u64::MAX - num {
            return None;
        }
        rows.push(
            BlockRow {
                number: staged.seq.0,
                hash: compute_block_hash(&staged.header),
                header: staged.header.copy(),
                first_tx_num: num,
                tx_count,
            },
        );
        assert(rows_view(rows@) =~= block_rows(all.take(i + 1), next as int));
        num = num + tx_count;
        i = i + 1;
    }
    assert(all.take(i as int) =~= all);
    Some(rows)
}

proof fn lemma_tx_total_monotonic(chain: Seq<StagedView>, i: int)
    requires
        0 <= i <= chain.len(),
    ensures
        tx_total(chain.take(i)) <= tx_total(chain),
    decreases chain.len() - i,
{
    if i < chain.len() {
        lemma_tx_total_monotonic(chain, i + 1);
        assert(chain.take(i + 1).drop_last() =~= chain.take(i));
    } else {
        assert(chain.take(i) =~= chain);
    }
}

fn receipts_of(chain: &Vec<&StagedBlock>) -> (r: Vec<Vec<StoredReceipt>>)
    ensures
        stored_view(r@) == receipt_rows(staged_views(chain@)),
{
    let ghost all = receipt_rows(staged_views(chain@));
    let mut out: Vec<Vec<StoredReceipt>> = Vec::new();
    let mut i: usize = 0;
    while i < chain.len()
        invariant
            i <= chain@.len(),
            all == receipt_rows(staged_views(chain@)),
            stored_view(out@) == all.take(i as int),
        decreases chain@.len() - i,
    {
        let staged = chain[i];
        let block = convert_block_receipts(&staged.receipts);
        let ghost before = out@;
        out.push(block);
        proof {
            assert(all[i as int] == staged@.receipts.map_values(|r| stored_receipt(r)));
            assert(stored_view(out@) =~= stored_view(before).push(all[i as int]));
            assert(all.take(i + 1) =~= all.take(i as int).push(all[i as int]));
        }
        i = i + 1;
    }
    assert(all.take(i as int) =~= all);
    out
}

impl RethExecutionDb {
    /// A database on storage whose highest block is `last`, with the hash that is stored for it.
    /// Reads start at that block.
    pub fn recover(last: Option<u64>, canonical_hash: Option<B256>) -> (r: Self)
        ensures
            ({
                let n = match last {
                    Some(n) => n,
                    None => 0u64,
                };
                r@ == (DbView {
                    blocks: Map::empty(),
                    current: BlockKey {
                        seq: SeqNum(n),
                        id: if n > 0 && canonical_hash is Some {
                            BlockId(canonical_hash->0)
                        } else {
                            BlockId(B256::spec_zero())
                        },
                    },
                    latest_finalized: SeqNum(n),
                    latest_verified: SeqNum(n),
                })
            }),
    {
        let n: u64 = match last {
            Some(n) => n,
            None => 0,
        };
        let id = if n > 0 {
            match canonical_hash {
                Some(hash) => BlockId(hash),
                None => BlockId(B256::zero()),
            }
        } else {
            BlockId(B256::zero())
        };
        RethExecutionDb {
            overlay: Overlay::new(),
            current: BlockKey { seq: SeqNum(n), id },
            latest_finalized: SeqNum(n),
            latest_verified: SeqNum(n),
        }
    }

    /// The latest finalized block.
    pub fn latest_finalized(&self) -> (r: SeqNum)
        ensures
            r == self@.latest_finalized,
    {
        self.latest_finalized
    }

    /// Sets the latest finalized block.
    pub fn set_latest_finalized(&mut self, seq: SeqNum)
        ensures
            final(self)@ == (DbView { latest_finalized: seq, ..old(self)@ }),
    {
        self.latest_finalized = seq;
    }

    /// The block that reads start at.
    pub fn current(&self) -> (r: BlockKey)
        ensures
            r == self@.current,
    {
        self.current
    }

    /// Whether a block was executed: it is proposed, or its height is final.
    pub fn has_executed(&self, block_id: &BlockId, seq_num: SeqNum) -> (r: bool)
        ensures
            r == (self@.blocks.contains_key(BlockKey { seq: seq_num, id: *block_id }) || seq_num.0
                <= self@.latest_finalized.0),
    {
        self.overlay.contains(seq_num, block_id) || seq_num.0 <= self.latest_finalized.0
    }

    /// The latest finalized block.
    pub fn get_latest_finalized_version(&self) -> (r: SeqNum)
        ensures
            r == self@.latest_finalized,
    {
        self.latest_finalized
    }

    /// Whether the way from the block that reads start at back to the finalized blocks ends.
    pub fn reads_end(&self) -> (r: bool)
        ensures
            r == self@.chain_is_finite(self@.current),
    {
        self.chain_is_finite(self.current.seq, self.current.id)
    }

    /// An account: what the proposed blocks say of it and, if they say nothing, what `persisted`
    /// reads from storage.
    pub fn read_account<F: Fn(&Address) -> Option<EthAccount>>(
        &self,
        address: &Address,
        persisted: F,
    ) -> (r: Option<EthAccount>)
        requires
            self@.read_ends(account_at(*address)),
            call_requires(persisted, (address,)),
        ensures
            match self@.staged(account_at(*address)) {
                Some(account) => r == account,
                None => call_ensures(persisted, (address,), r),
            },
    {
        match self.overlay.read_account_in_chain(
            self.current.seq,
            self.current.id,
            address,
            self.latest_finalized,
        ) {
            Some(account) => account,
            None => persisted(address),
        }
    }

    /// The value of a slot: what the proposed blocks say of it and, if they say nothing, what
    /// `persisted` reads from storage.
    pub fn read_storage<F: Fn(&Address, &B256) -> B256>(
        &self,
        address: &Address,
        slot: &B256,
        persisted: F,
    ) -> (r: B256)
        requires
            self@.read_ends(slot_at(SlotKey { address: *address, slot: *slot })),
            call_requires(persisted, (address, slot)),
        ensures
            match self@.staged(slot_at(SlotKey { address: *address, slot: *slot })) {
                Some(value) => r == value,
                None => call_ensures(persisted, (address, slot), r),
            },
    {
        match self.overlay.read_storage_in_chain(
            self.current.seq,
            self.current.id,
            address,
            slot,
            self.latest_finalized,
        ) {
            Some(value) => value,
            None => persisted(address, slot),
        }
    }

    /// Code as it is executed: what the proposed blocks say of it and, if they say nothing, what
    /// `persisted` reads from storage.
    pub fn read_code<F: Fn(&B256) -> Option<Vec<u8>>>(
        &self,
        code_hash: &B256,
        persisted: F,
    ) -> (r: Option<Vec<u8>>)
        requires
            self@.read_ends(code_at(*code_hash)),
            call_requires(persisted, (code_hash,)),
        ensures
            match self@.staged(code_at(*code_hash)) {
                Some(code) => bytes_of(r) == Some(executed(code)),
                None => call_ensures(persisted, (code_hash,), r),
            },
    {
        match self.overlay.read_code_in_chain(
            self.current.seq,
            self.current.id,
            code_hash,
            self.latest_finalized,
        ) {
            Some(code) => Some(executed_code(code)),
            None => persisted(code_hash),
        }
    }

    /// The header of the block that reads start at: that of the proposed block and, if the block is
    /// not proposed, what `persisted` reads from storage. A block without a header has that of an
    /// empty block.
    pub fn read_eth_header<F: Fn(SeqNum) -> Option<BlockHeader>>(&self, persisted: F) -> (r:
        BlockHeader)
        requires
            call_requires(persisted, (self@.current.seq,)),
        ensures
            if self@.blocks.contains_key(self@.current) {
                r@ == self@.blocks[self@.current].header
            } else {
                call_ensures(persisted, (self@.current.seq,), Some(r)) || (call_ensures(
                    persisted,
                    (self@.current.seq,),
                    None,
                ) && r@ == default_header())
            },
    {
        match self.overlay.read_header(self.current.seq, &self.current.id) {
            Some(h) => h.copy(),
            None => match persisted(self.current.seq) {
                Some(h) => h,
                None => BlockHeader::empty(),
            },
        }
    }

    /// Selects the block that reads start at, and that the next block is committed on.
    pub fn set_block_and_prefix(&mut self, seq_num: SeqNum, block_id: BlockId)
        ensures
            final(self)@ == (DbView {
                current: BlockKey { seq: seq_num, id: block_id },
                ..old(self)@
            }),
    {
        self.current = BlockKey { seq: seq_num, id: block_id };
    }

    /// Keeps a proposed block on top of the selected one.
    pub fn commit(
        &mut self,
        block_id: BlockId,
        header: &BlockHeader,
        bundle: Bundle,
        receipts: &Vec<ReceiptEnvelope>,
        transactions: &Vec<TxEnvelope>,
    )
        ensures
            final(self)@ == old(self)@.committed(
                block_id,
                header@,
                bundle@,
                receipts_view(receipts@),
                txs_view(transactions@),
            ),
    {
        let block_seq = SeqNum(header.number);
        let staged = StagedBlock::from_bundle(
            block_seq,
            self.current.seq,
            self.current.id,
            header,
            bundle,
            receipts,
            transactions,
        );
        self.overlay.insert(block_seq, block_id, staged);
    }

    /// Whether the way from a block back to the finalized blocks ends.
    pub fn chain_is_finite(&self, seq_num: SeqNum, block_id: BlockId) -> (r: bool)
        ensures
            r == self@.chain_is_finite(BlockKey { seq: seq_num, id: block_id }),
    {
        let r = self.overlay.chain_is_finite(seq_num, block_id, self.latest_finalized);
        proof {
            let k = BlockKey { seq: seq_num, id: block_id };
            if r {
                let n = choose|n: nat| chain_ends(self.overlay@, k, self.latest_finalized, n);
                assert(chain_ends(self@.blocks, k, self@.latest_finalized, n));
            }
        }
        r
    }

    /// The proposed blocks that are finalized along with a block, oldest first.
    pub fn chain<'a>(&'a self, seq_num: SeqNum, block_id: BlockId) -> (r: Vec<&'a StagedBlock>)
        requires
            self@.chain_is_finite(BlockKey { seq: seq_num, id: block_id }),
        ensures
            staged_views(r@) == self@.chain(BlockKey { seq: seq_num, id: block_id }),
    {
        self.overlay.collect_chain(seq_num, block_id, self.latest_finalized)
    }

    /// What has to be written to finalize a block, where `last` tells where the transactions of the
    /// block that was stored last are.
    pub fn plan_finalize(
        &self,
        seq_num: SeqNum,
        block_id: BlockId,
        last: Option<StoredBlockBodyIndices>,
    ) -> (r: FinalizePlan)
        requires
            self@.chain_is_finite(BlockKey { seq: seq_num, id: block_id }),
        ensures
            ({
                let chain = self@.chain(BlockKey { seq: seq_num, id: block_id });
                let next = next_tx_num(last);
                match r {
                    FinalizePlan::Nothing => chain.len() == 0,
                    FinalizePlan::Flush(plan) => {
                        &&& chain.len() > 0
                        &&& next + tx_total(chain) <= u64::MAX
                        &&& plan.first_block == chain[0].seq.0
                        &&& plan.last_block == chain.last().seq.0
                        &&& rows_view(plan.rows@) == block_rows(chain, next)
                        &&& stored_view(plan.receipts@) == receipt_rows(chain)
                    },
                    FinalizePlan::OutOfNumbers => chain.len() > 0 && next + tx_total(chain)
                        > u64::MAX,
                }
            }),
    {
        let chain = self.chain(seq_num, block_id);
        let n = chain.len();
        if n == 0 {
            return FinalizePlan::Nothing;
        }
        let next: u64 = match last {
            Some(i) => {
                if i.tx_count > u64::MAX - i.first_tx_num {
                    return FinalizePlan::OutOfNumbers;
                }
                i.first_tx_num + i.tx_count
            },
            None => 0,
        };
        let first_block = chain[0].seq.0;
        let last_block = chain[n - 1].seq.0;
        proof {
            assert(staged_views(chain@)[0] == chain@[0]@);
            assert(staged_views(chain@).last() == chain@[n - 1]@);
        }
        match rows_of(&chain, next) {
            Some(rows) => {
                let receipts = receipts_of(&chain);
                FinalizePlan::Flush(FlushPlan { first_block, last_block, rows, receipts })
            },
            None => FinalizePlan::OutOfNumbers,
        }
    }

    /// Takes note that the chain of a block was written to storage: the block is the latest
    /// finalized one, and the proposed blocks that are not above it are dropped.
    pub fn complete_finalize(&mut self, seq_num: SeqNum)
        ensures
            final(self)@ == old(self)@.finalized(seq_num),
    {
        self.latest_finalized = seq_num;
        self.overlay.gc(seq_num);
    }

    /// Takes note that the execution of a block was verified.
    pub fn update_verified_block(&mut self, seq_num: SeqNum)
        ensures
            final(self)@ == (DbView { latest_verified: seq_num, ..old(self)@ }),
    {
        self.latest_verified = seq_num;
    }
}

/// What is written for the first block: its row and its state. Nothing, if the first block is there
/// already.
pub fn init_genesis(
    has_genesis: bool,
    header: &BlockHeader,
    state_deltas: &StateDeltas,
    code: &CodeMap,
) -> (r: Option<(BlockRow, Bundle)>)
    requires
        forall|h: B256| #[trigger] code@.contains_key(h) ==> valid_code(code@[h]@),
    ensures
        match r {
            Some((row, bundle)) => {
                &&& !has_genesis
                &&& row@ == (BlockRowView {
                    number: 0,
                    hash: header_hash(header@),
                    header: header@,
                    first_tx_num: 0,
                    tx_count: 0,
                })
                &&& bundle@.state == delta_accounts(state_deltas@)
                &&& bundle@.contracts == deployed_contracts(code@)
                &&& bundle@.reverts.len() == 1
                &&& takes_back(bundle@.reverts[0], state_deltas@)
            },
            None => has_genesis,
        },
{
    if has_genesis {
        return None;
    }
    let bundle = state_deltas_to_bundle(state_deltas, code);
    let row = BlockRow {
        number: 0,
        hash: compute_block_hash(header),
        header: header.copy(),
        first_tx_num: 0,
        tx_count: 0,
    };
    Some((row, bundle))
}

/// The transactions of finalized blocks are numbered without a gap and without an overlap.
pub proof fn lemma_tx_numbers_are_consecutive(chain: Seq<StagedView>, next: int, i: int)
    requires
        0 <= next,
        next + tx_total(chain) <= u64::MAX,
        0 <= i < chain.len(),
    ensures
        block_rows(chain, next).len() == chain.len(),
        i == 0 ==> block_rows(chain, next)[i].first_tx_num == next,
        i > 0 ==> block_rows(chain, next)[i].first_tx_num == block_rows(chain, next)[i
            - 1].first_tx_num + block_rows(chain, next)[i - 1].tx_count,
    decreases chain.len(),
{
    let rest = chain.drop_last();
    if rest.len() > 0 {
        lemma_tx_numbers_are_consecutive(rest, next, if i < rest.len() {
            i
        } else {
            i - 1
        });
        assert(rest.drop_last().push(rest.last()) =~= rest);
        assert(block_rows(rest, next).last().tx_count == rest.last().transactions.len());
    } else {
        assert(tx_total(rest) == 0);
    }
}

/// After a block is finalized, its height counts as executed for every block id, and blocks above
/// it that were proposed still do.
pub proof fn lemma_finalized_counts_as_executed(v: DbView, seq_num: SeqNum, k: BlockKey)
    requires
        v.blocks.contains_key(k),
    ensures
        ({
            let after = v.finalized(seq_num);
            after.blocks.contains_key(k) || k.seq.0 <= after.latest_finalized.0
        }),
{
}

/// A block that is committed is staged under its number and id, on top of the block that is selected,
/// with its header, its receipts and its transactions; the blocks that were staged before stay.
pub proof fn lemma_committed_block_is_staged(
    v: DbView,
    block_id: BlockId,
    header: HeaderView,
    bundle: BundleView,
    receipts: Seq<(TxType, ReceiptView)>,
    transactions: Seq<Seq<u8>>,
    k: BlockKey,
)
    ensures
        ({
            let w = v.committed(block_id, header, bundle, receipts, transactions);
            let key = BlockKey { seq: SeqNum(header.number), id: block_id };
            &&& w.blocks.contains_key(key)
            &&& w.blocks[key].seq.0 == header.number
            &&& w.blocks[key].parent == v.current
            &&& w.blocks[key].header == header
            &&& w.blocks[key].receipts == receipts
            &&& w.blocks[key].transactions == transactions
            &&& w.blocks[key].bundle == bundle
            &&& k != key ==> w.blocks.contains_key(k) == v.blocks.contains_key(k) && (
            v.blocks.contains_key(k) ==> w.blocks[k] == v.blocks[k])
            &&& w.current == v.current
            &&& w.latest_finalized == v.latest_finalized
            &&& w.latest_verified == v.latest_verified
        }),
{
}

/// Once a block is final, exactly the blocks above it are still proposed, unchanged; the block counts as
/// the latest finalized one, and the block that is selected stays selected.
pub proof fn lemma_blocks_above_stay_proposed(v: DbView, seq_num: SeqNum, k: BlockKey)
    ensures
        ({
            let w = v.finalized(seq_num);
            &&& w.latest_finalized == seq_num
            &&& w.current == v.current
            &&& w.latest_verified == v.latest_verified
            &&& w.blocks.contains_key(k) <==> v.blocks.contains_key(k) && k.seq.0 > seq_num.0
            &&& w.blocks.contains_key(k) ==> w.blocks[k] == v.blocks[k]
        }),
{
}

/// What is stored of a block is the block: its number, the hash of its header, its header, and how many
/// transactions it has. The first block goes on where the numbers of transactions ended.
pub proof fn lemma_stored_row_is_the_block(chain: Seq<StagedView>, next: int, i: int)
    requires
        0 <= i < chain.len(),
        0 <= next,
        next + tx_total(chain) <= u64::MAX,
    ensures
        block_rows(chain, next).len() == chain.len(),
        ({
            let row = block_rows(chain, next)[i];
            &&& row.number == chain[i].seq.0
            &&& row.hash == header_hash(chain[i].header)
            &&& row.header == chain[i].header
            &&& row.tx_count == chain[i].transactions.len()
            &&& i == 0 ==> row.first_tx_num == next
        }),
    decreases chain.len(),
{
    let rest = chain.drop_last();
    lemma_tx_numbers_are_consecutive(chain, next, i);
    if i < rest.len() {
        assert(rest[i] == chain[i]);
        lemma_stored_row_is_the_block(rest, next, i);
    }
}

/// The numbers of transactions go on after those of the block that was stored last, and start at 0 where
/// none was.
pub proof fn lemma_transaction_numbers_go_on(last: Option<StoredBlockBodyIndices>)
    ensures
        last is None ==> next_tx_num(last) == 0,
        last is Some ==> next_tx_num(last) == (last->0).first_tx_num + (last->0).tx_count,
{
}

/// What is stored of a receipt is what execution gave: its kind, its gas and its logs, and that it
/// succeeded unless its status says that it failed.
pub proof fn lemma_stored_receipt_is_the_receipt(chain: Seq<StagedView>, i: int, j: int)
    requires
        0 <= i < chain.len(),
        0 <= j < chain[i].receipts.len(),
    ensures
        receipt_rows(chain).len() == chain.len(),
        receipt_rows(chain)[i].len() == chain[i].receipts.len(),
        ({
            let stored = receipt_rows(chain)[i][j];
            let given = chain[i].receipts[j];
            &&& stored.tx_type == given.0
            &&& stored.cumulative_gas_used == given.1.cumulative_gas_used
            &&& stored.logs == given.1.logs
            &&& stored.success <==> given.1.status != Eip658Value::Eip658(false)
        }),
{
}

/// A proposed block says of an account what its change of state leaves: the account that it becomes, or
/// that it is gone.
pub proof fn lemma_staged_account_is_the_new_one(
    v: DbView,
    block_id: BlockId,
    header: HeaderView,
    deltas: Map<Address, AccountDelta>,
    bundle: BundleView,
    receipts: Seq<(TxType, ReceiptView)>,
    transactions: Seq<Seq<u8>>,
    a: Address,
)
    requires
        bundle.state == delta_accounts(deltas),
        deltas.contains_key(a),
        deltas[a].old_account is Some || deltas[a].new_account is Some,
        deltas[a].new_account is Some ==> !(deltas[a].new_account->0).is_delegated && (
        deltas[a].new_account->0).code_hash != Some(spec_keccak_empty()),
    ensures
        ({
            let w = v.committed(block_id, header, bundle, receipts, transactions);
            let staged = w.blocks[BlockKey { seq: SeqNum(header.number), id: block_id }];
            account_at(a)(staged) == Some(deltas[a].new_account)
        }),
{
    lemma_bundle_has_the_new_account(deltas, a);
    if deltas[a].new_account is Some {
        lemma_account_round_trip(deltas[a].new_account->0);
    }
}

/// A proposed block says of a slot what its change of state leaves.
pub proof fn lemma_staged_slot_is_the_new_one(
    v: DbView,
    block_id: BlockId,
    header: HeaderView,
    deltas: Map<Address, AccountDelta>,
    bundle: BundleView,
    receipts: Seq<(TxType, ReceiptView)>,
    transactions: Seq<Seq<u8>>,
    a: Address,
    key: B256,
)
    requires
        bundle.state == delta_accounts(deltas),
        deltas.contains_key(a),
        deltas[a].storage@.contains_key(key),
    ensures
        ({
            let w = v.committed(block_id, header, bundle, receipts, transactions);
            let staged = w.blocks[BlockKey { seq: SeqNum(header.number), id: block_id }];
            slot_at(SlotKey { address: a, slot: key })(staged) == Some(
                deltas[a].storage@[key].new_value,
            )
        }),
{
    lemma_bundle_has_the_new_slots(deltas, a, key);
}

/// A proposed block says nothing of accounts that it does not change, nor of their slots.
pub proof fn lemma_staged_block_is_silent_on_the_rest(
    v: DbView,
    block_id: BlockId,
    header: HeaderView,
    bundle: BundleView,
    receipts: Seq<(TxType, ReceiptView)>,
    transactions: Seq<Seq<u8>>,
    a: Address,
    key: B256,
    hash: B256,
)
    requires
        !bundle.state.contains_key(a),
    ensures
        ({
            let w = v.committed(block_id, header, bundle, receipts, transactions);
            let staged = w.blocks[BlockKey { seq: SeqNum(header.number), id: block_id }];
            &&& account_at(a)(staged) is None
            &&& slot_at(SlotKey { address: a, slot: key })(staged) is None
            &&& code_at(hash)(staged) is Some <==> bundle.contracts.contains_key(hash)
            &&& bundle.contracts.contains_key(hash) ==> code_at(hash)(staged) == Some(
                bundle.contracts[hash],
            )
        }),
{
}

/// What is stored of a block, and what is written, is what the rows hold.
pub proof fn lemma_row_says_what_it_holds(row: BlockRow)
    ensures
        row@.number == row.number,
        row@.hash == row.hash,
        row@.header == row.header@,
        row@.first_tx_num == row.first_tx_num,
        row@.tx_count == row.tx_count,
{
}

/// A read from a block that was just committed gives what the block left: an account that it changed is
/// the new one, or gone.
pub proof fn lemma_committed_account_is_read(
    v: DbView,
    block_id: BlockId,
    header: HeaderView,
    deltas: Map<Address, AccountDelta>,
    bundle: BundleView,
    receipts: Seq<(TxType, ReceiptView)>,
    transactions: Seq<Seq<u8>>,
    a: Address,
)
    requires
        bundle.state == delta_accounts(deltas),
        deltas.contains_key(a),
        deltas[a].old_account is Some || deltas[a].new_account is Some,
        deltas[a].new_account is Some ==> !(deltas[a].new_account->0).is_delegated && (
        deltas[a].new_account->0).code_hash != Some(spec_keccak_empty()),
    ensures
        ({
            let key = BlockKey { seq: SeqNum(header.number), id: block_id };
            let w = DbView {
                current: key,
                ..v.committed(block_id, header, bundle, receipts, transactions)
            };
            w.staged(account_at(a)) == Some(deltas[a].new_account)
        }),
{
    let key = BlockKey { seq: SeqNum(header.number), id: block_id };
    let w = DbView { current: key, ..v.committed(block_id, header, bundle, receipts, transactions) };
    lemma_staged_account_is_the_new_one(
        v,
        block_id,
        header,
        deltas,
        bundle,
        receipts,
        transactions,
        a,
    );
    lemma_read_gives_what_the_block_says(w, account_at(a));
}

/// A read from a block that was just committed gives the value that the block left in a slot.
pub proof fn lemma_committed_slot_is_read(
    v: DbView,
    block_id: BlockId,
    header: HeaderView,
    deltas: Map<Address, AccountDelta>,
    bundle: BundleView,
    receipts: Seq<(TxType, ReceiptView)>,
    transactions: Seq<Seq<u8>>,
    a: Address,
    key: B256,
)
    requires
        bundle.state == delta_accounts(deltas),
        deltas.contains_key(a),
        deltas[a].storage@.contains_key(key),
    ensures
        ({
            let current = BlockKey { seq: SeqNum(header.number), id: block_id };
            let w = DbView {
                current,
                ..v.committed(block_id, header, bundle, receipts, transactions)
            };
            w.staged(slot_at(SlotKey { address: a, slot: key })) == Some(
                deltas[a].storage@[key].new_value,
            )
        }),
{
    let current = BlockKey { seq: SeqNum(header.number), id: block_id };
    let w = DbView { current, ..v.committed(block_id, header, bundle, receipts, transactions) };
    lemma_staged_slot_is_the_new_one(
        v,
        block_id,
        header,
        deltas,
        bundle,
        receipts,
        transactions,
        a,
        key,
    );
    lemma_read_gives_what_the_block_says(w, slot_at(SlotKey { address: a, slot: key }));
}

/// A read gives what the selected block says, if it says something.
pub proof fn lemma_read_gives_what_the_block_says<V>(v: DbView, f: spec_fn(StagedView) -> Option<V>)
    requires
        v.blocks.contains_key(v.current),
        f(v.blocks[v.current]) is Some,
    ensures
        v.read_ends(f),
        v.staged(f) == f(v.blocks[v.current]),
{
    assert(lookup_ends(v.blocks, v.current, v.latest_finalized, f, 1));
    let n = choose|n: nat| lookup_ends(v.blocks, v.current, v.latest_finalized, f, n);
    assert(lookup_ends(v.blocks, v.current, v.latest_finalized, f, n));
}

/// A read gives what a read from the parent gives, if the selected block says nothing and is above the
/// finalized ones.
pub proof fn lemma_read_goes_on_to_the_parent<V>(v: DbView, f: spec_fn(StagedView) -> Option<V>)
    requires
        v.blocks.contains_key(v.current),
        f(v.blocks[v.current]) is None,
        v.current.seq.0 > v.latest_finalized.0,
        v.read_ends(f),
    ensures
        ({
            let parent = DbView { current: v.blocks[v.current].parent, ..v };
            &&& parent.read_ends(f)
            &&& v.staged(f) == parent.staged(f)
        }),
{
    let parent = DbView { current: v.blocks[v.current].parent, ..v };
    let n = choose|n: nat| lookup_ends(v.blocks, v.current, v.latest_finalized, f, n);
    let m = (n - 1) as nat;
    assert(lookup_ends(v.blocks, parent.current, v.latest_finalized, f, m));
    let l = choose|l: nat| lookup_ends(v.blocks, parent.current, v.latest_finalized, f, l);
    lemma_lookup_unique(v.blocks, parent.current, v.latest_finalized, f, m, l);
}

/// A read says nothing, and so is left to storage, where no block is proposed at the selected place.
pub proof fn lemma_read_is_left_to_storage<V>(v: DbView, f: spec_fn(StagedView) -> Option<V>)
    requires
        !v.blocks.contains_key(v.current),
    ensures
        v.read_ends(f),
        v.staged(f) is None,
{
    assert(lookup_ends(v.blocks, v.current, v.latest_finalized, f, 1));
}

/// The chain of a proposed block ends with the block itself, and before it has the chain of its parent; a
/// block that is not proposed has none.
pub proof fn lemma_chain_is_the_parents_and_the_block(v: DbView, k: BlockKey)
    requires
        v.chain_is_finite(k),
    ensures
        !v.blocks.contains_key(k) || k.seq.0 <= v.latest_finalized.0 ==> v.chain(k).len() == 0,
        v.blocks.contains_key(k) && k.seq.0 > v.latest_finalized.0 ==> {
            &&& v.chain(k).len() > 0
            &&& v.chain(k).last() == v.blocks[k]
            &&& v.chain_is_finite(v.blocks[k].parent)
            &&& v.chain(k).drop_last() == v.chain(v.blocks[k].parent)
        },
{
    let n = choose|n: nat| chain_ends(v.blocks, k, v.latest_finalized, n);
    lemma_chain_leads_back_to_the_finalized_blocks(v.blocks, k, v.latest_finalized, n);
    if v.blocks.contains_key(k) && k.seq.0 > v.latest_finalized.0 {
        let parent = v.blocks[k].parent;
        let m = choose|m: nat| chain_ends(v.blocks, parent, v.latest_finalized, m);
        assert(chain_ends(v.blocks, parent, v.latest_finalized, (n - 1) as nat));
        lemma_chain_unique(v.blocks, parent, v.latest_finalized, (n - 1) as nat, m);
    }
}

/// The transactions of some blocks are counted one by one.
pub proof fn lemma_each_transaction_counts_once(chain: Seq<StagedView>, b: StagedView)
    ensures
        tx_total(Seq::<StagedView>::empty()) == 0,
        tx_total(chain.push(b)) == tx_total(chain) + b.transactions.len(),
{
    assert(chain.push(b).drop_last() =~= chain);
}

} // verus!
