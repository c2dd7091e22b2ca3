//! Transactions, receipts and logs as the engine passes them on.

use vstd::prelude::*;

use crate::primitives::{Address, FixedBytes, B256};

verus! {

/// A copy of some bytes.
pub fn copy_bytes(v: &Vec<u8>) -> (r: Vec<u8>)
    ensures
        r@ == v@,
{
    vstd::slice::slice_to_vec(v.as_slice())
}

/// A signed transaction, in its RLP encoding.
#[derive(Clone, Debug, PartialEq, Eq)]
pub struct TxEnvelope {
    pub rlp: Vec<u8>,
}

impl View for TxEnvelope {
    type V = Seq<u8>;

    open spec fn view(&self) -> Seq<u8> {
        self.rlp@
    }
}

impl TxEnvelope {
    pub fn copy(&self) -> (r: Self)
        ensures
            r@ == self@,
    {
        TxEnvelope { rlp: copy_bytes(&self.rlp) }
    }
}

/// What a list of transactions says.
pub open spec fn txs_view(txs: Seq<TxEnvelope>) -> Seq<Seq<u8>> {
    txs.map_values(|t: TxEnvelope| t@)
}

/// A copy of a list of transactions.
pub fn copy_txs(txs: &Vec<TxEnvelope>) -> (r: Vec<TxEnvelope>)
    ensures
        txs_view(r@) == txs_view(txs@),
{
    let mut r: Vec<TxEnvelope> = Vec::new();
    let mut i: usize = 0;
    while i < txs.len()
        invariant
            i <= txs@.len(),
            txs_view(r@) == txs_view(txs@).take(i as int),
        decreases txs@.len() - i,
    {
        r.push(txs[i].copy());
        proof {
            assert(txs_view(r@) =~= txs_view(txs@).take(i as int).push(txs_view(txs@)[i as int]));
            assert(txs_view(txs@).take(i + 1) =~= txs_view(txs@).take(i as int).push(
                txs_view(txs@)[i as int],
            ));
        }
        i = i + 1;
    }
    assert(txs_view(txs@).take(i as int) =~= txs_view(txs@));
    r
}

/// An ommer of a block, in its RLP encoding.
#[derive(Clone, Debug, PartialEq, Eq)]
pub struct Ommer {
    pub rlp: Vec<u8>,
}

/// A withdrawal of a block.
#[derive(Clone, Copy, Debug, PartialEq, Eq)]
pub struct Withdrawal {
    pub index: u64,
    pub validator_index: u64,
    pub address: Address,
    pub amount: u64,
}

/// A copy of a list of ommers.
pub fn copy_ommers(ommers: &Vec<Ommer>) -> (r: Vec<Ommer>)
    ensures
        r@.len() == ommers@.len(),
        forall|i: int| 0 <= i < r@.len() ==> (#[trigger] r@[i]).rlp@ == ommers@[i].rlp@,
{
    let mut r: Vec<Ommer> = Vec::new();
    let mut i: usize = 0;
    while i < ommers.len()
        invariant
            i <= ommers@.len(),
            r@.len() == i,
            forall|j: int| 0 <= j < i ==> (#[trigger] r@[j]).rlp@ == ommers@[j].rlp@,
        decreases ommers@.len() - i,
    {
        r.push(Ommer { rlp: copy_bytes(&ommers[i].rlp) });
        i = i + 1;
    }
    r
}

/// What a contract logged.
#[derive(Clone, Debug, PartialEq, Eq)]
pub struct Log {
    pub address: Address,
    pub topics: Vec<B256>,
    pub data: Vec<u8>,
}

/// What a log says.
#[verifier::ext_equal]
pub struct LogView {
    pub address: Address,
    pub topics: Seq<B256>,
    pub data: Seq<u8>,
}

impl View for Log {
    type V = LogView;

    open spec fn view(&self) -> LogView {
        LogView { address: self.address, topics: self.topics@, data: self.data@ }
    }
}

impl Log {
    pub fn copy(&self) -> (r: Self)
        ensures
            r@ == self@,
    {
        Log {
            address: self.address,
            topics: vstd::slice::slice_to_vec(self.topics.as_slice()),
            data: copy_bytes(&self.data),
        }
    }
}

/// How a transaction ended: whether it succeeded, or the state root after it.
#[derive(Clone, Copy, Debug, PartialEq, Eq)]
pub enum Eip658Value {
    Eip658(bool),
    PostState(B256),
}

/// What a transaction did, with the bloom filter over its logs.
#[derive(Clone, Debug, PartialEq, Eq)]
pub struct ReceiptWithBloom {
    pub status: Eip658Value,
    pub cumulative_gas_used: u64,
    pub logs: Vec<Log>,
    pub logs_bloom: FixedBytes<256>,
}

/// What a receipt says.
#[verifier::ext_equal]
pub struct ReceiptView {
    pub status: Eip658Value,
    pub cumulative_gas_used: u64,
    pub logs: Seq<LogView>,
    pub logs_bloom: FixedBytes<256>,
}

/// What a list of logs says.
pub open spec fn logs_view(logs: Seq<Log>) -> Seq<LogView> {
    logs.map_values(|l: Log| l@)
}

impl View for ReceiptWithBloom {
    type V = ReceiptView;

    open spec fn view(&self) -> ReceiptView {
        ReceiptView {
            status: self.status,
            cumulative_gas_used: self.cumulative_gas_used,
            logs: logs_view(self.logs@),
            logs_bloom: self.logs_bloom,
        }
    }
}

impl ReceiptWithBloom {
    pub fn copy(&self) -> (r: Self)
        ensures
            r@ == self@,
    {
        let mut logs: Vec<Log> = Vec::new();
        let mut i: usize = 0;
        while i < self.logs.len()
            invariant
                i <= self.logs@.len(),
                logs_view(logs@) == logs_view(self.logs@).take(i as int),
            decreases self.logs@.len() - i,
        {
            logs.push(self.logs[i].copy());
            proof {
                let all = logs_view(self.logs@);
                assert(logs_view(logs@) =~= all.take(i as int).push(all[i as int]));
                assert(all.take(i + 1) =~= all.take(i as int).push(all[i as int]));
            }
            i = i + 1;
        }
        assert(logs_view(self.logs@).take(i as int) =~= logs_view(self.logs@));
        ReceiptWithBloom {
            status: self.status,
            cumulative_gas_used: self.cumulative_gas_used,
            logs,
            logs_bloom: self.logs_bloom,
        }
    }
}

/// The kind of a transaction.
#[derive(Clone, Copy, Debug, PartialEq, Eq, Structural)]
pub enum TxType {
    Legacy,
    Eip2930,
    Eip1559,
    Eip4844,
    Eip7702,
}

/// A receipt, marked with the kind of its transaction.
#[derive(Clone, Debug, PartialEq, Eq)]
pub enum ReceiptEnvelope {
    Legacy(ReceiptWithBloom),
    Eip2930(ReceiptWithBloom),
    Eip1559(ReceiptWithBloom),
    Eip4844(ReceiptWithBloom),
    Eip7702(ReceiptWithBloom),
}

impl ReceiptEnvelope {
    pub open spec fn spec_tx_type(&self) -> TxType {
        match *self {
            ReceiptEnvelope::Legacy(_) => TxType::Legacy,
            ReceiptEnvelope::Eip2930(_) => TxType::Eip2930,
            ReceiptEnvelope::Eip1559(_) => TxType::Eip1559,
            ReceiptEnvelope::Eip4844(_) => TxType::Eip4844,
            ReceiptEnvelope::Eip7702(_) => TxType::Eip7702,
        }
    }

    pub open spec fn spec_receipt(&self) -> ReceiptWithBloom {
        match *self {
            ReceiptEnvelope::Legacy(r) => r,
            ReceiptEnvelope::Eip2930(r) => r,
            ReceiptEnvelope::Eip1559(r) => r,
            ReceiptEnvelope::Eip4844(r) => r,
            ReceiptEnvelope::Eip7702(r) => r,
        }
    }

    /// The kind of the transaction.
    pub fn tx_type(&self) -> (r: TxType)
        ensures
            r == self.spec_tx_type(),
    {
        match self {
            ReceiptEnvelope::Legacy(_) => TxType::Legacy,
            ReceiptEnvelope::Eip2930(_) => TxType::Eip2930,
            ReceiptEnvelope::Eip1559(_) => TxType::Eip1559,
            ReceiptEnvelope::Eip4844(_) => TxType::Eip4844,
            ReceiptEnvelope::Eip7702(_) => TxType::Eip7702,
        }
    }

    /// The receipt itself.
    pub fn receipt(&self) -> (r: &ReceiptWithBloom)
        ensures
            *r == self.spec_receipt(),
    {
        match self {
            ReceiptEnvelope::Legacy(r) => r,
            ReceiptEnvelope::Eip2930(r) => r,
            ReceiptEnvelope::Eip1559(r) => r,
            ReceiptEnvelope::Eip4844(r) => r,
            ReceiptEnvelope::Eip7702(r) => r,
        }
    }

    /// A receipt marked with a kind.
    pub fn new(tx_type: TxType, receipt: ReceiptWithBloom) -> (r: Self)
        ensures
            r.spec_tx_type() == tx_type,
            r.spec_receipt() == receipt,
    {
        match tx_type {
            TxType::Legacy => ReceiptEnvelope::Legacy(receipt),
            TxType::Eip2930 => ReceiptEnvelope::Eip2930(receipt),
            TxType::Eip1559 => ReceiptEnvelope::Eip1559(receipt),
            TxType::Eip4844 => ReceiptEnvelope::Eip4844(receipt),
            TxType::Eip7702 => ReceiptEnvelope::Eip7702(receipt),
        }
    }

    pub fn copy(&self) -> (r: Self)
        ensures
            r@ == self@,
    {
        ReceiptEnvelope::new(self.tx_type(), self.receipt().copy())
    }
}

impl View for ReceiptEnvelope {
    type V = (TxType, ReceiptView);

    open spec fn view(&self) -> (TxType, ReceiptView) {
        (self.spec_tx_type(), self.spec_receipt()@)
    }
}

/// What a list of receipts says.
pub open spec fn receipts_view(receipts: Seq<ReceiptEnvelope>) -> Seq<(TxType, ReceiptView)> {
    receipts.map_values(|r: ReceiptEnvelope| r@)
}

/// A copy of a list of receipts.
pub fn copy_receipts(receipts: &Vec<ReceiptEnvelope>) -> (r: Vec<ReceiptEnvelope>)
    ensures
        receipts_view(r@) == receipts_view(receipts@),
{
    let mut r: Vec<ReceiptEnvelope> = Vec::new();
    let mut i: usize = 0;
    while i < receipts.len()
        invariant
            i <= receipts@.len(),
            receipts_view(r@) == receipts_view(receipts@).take(i as int),
        decreases receipts@.len() - i,
    {
        r.push(receipts[i].copy());
        proof {
            let all = receipts_view(receipts@);
            assert(receipts_view(r@) =~= all.take(i as int).push(all[i as int]));
            assert(all.take(i + 1) =~= all.take(i as int).push(all[i as int]));
        }
        i = i + 1;
    }
    assert(receipts_view(receipts@).take(i as int) =~= receipts_view(receipts@));
    r
}

/// A receipt says what it holds: the kind that it is marked with, its status, its gas, its bloom filter,
/// and its logs with their address, topics and data.
pub proof fn lemma_receipt_says_what_it_holds(r: ReceiptEnvelope, i: int)
    requires
        0 <= i < r.spec_receipt().logs@.len(),
    ensures
        r@.1.logs.len() == r.spec_receipt().logs@.len(),
        r@.1.logs[i].address == r.spec_receipt().logs@[i].address,
        r@.1.logs[i].topics == r.spec_receipt().logs@[i].topics@,
        r@.1.logs[i].data == r.spec_receipt().logs@[i].data@,
{
}

/// A receipt is of the kind that it is marked with, and says what is in it.
pub proof fn lemma_receipt_is_of_its_kind(r: ReceiptEnvelope, inner: ReceiptWithBloom)
    ensures
        r == ReceiptEnvelope::Legacy(inner) ==> r@.0 is Legacy && r.spec_receipt() == inner,
        r == ReceiptEnvelope::Eip2930(inner) ==> r@.0 is Eip2930 && r.spec_receipt() == inner,
        r == ReceiptEnvelope::Eip1559(inner) ==> r@.0 is Eip1559 && r.spec_receipt() == inner,
        r == ReceiptEnvelope::Eip4844(inner) ==> r@.0 is Eip4844 && r.spec_receipt() == inner,
        r == ReceiptEnvelope::Eip7702(inner) ==> r@.0 is Eip7702 && r.spec_receipt() == inner,
        r@.1.status == r.spec_receipt().status,
        r@.1.cumulative_gas_used == r.spec_receipt().cumulative_gas_used,
        r@.1.logs_bloom == r.spec_receipt().logs_bloom,
{
}

/// Lists of transactions and receipts say what each of them says, in order.
pub proof fn lemma_lists_say_what_each_says(
    txs: Seq<TxEnvelope>,
    receipts: Seq<ReceiptEnvelope>,
    i: int,
)
    ensures
        txs_view(txs).len() == txs.len(),
        receipts_view(receipts).len() == receipts.len(),
        0 <= i < txs.len() ==> txs_view(txs)[i] == txs[i].rlp@,
        0 <= i < receipts.len() ==> receipts_view(receipts)[i] == receipts[i]@,
{
}

} // verus!
