//! Blocks, transactions, receipts and logs as users see them.

use vstd::prelude::*;

use crate::events::BlockCommitState;
use crate::header::{header_size, BlockHeader, HeaderView};
use crate::primitives::{Address, BlockId, FixedBytes, B256, U256};
use crate::rpc::tx::{read_txs, tx_infos, TxInfo};
use crate::transactions::{
    receipts_view, txs_view, Eip658Value, Log, LogView, ReceiptEnvelope, ReceiptView, TxEnvelope,
    TxType,
};

verus! {

/// A header as users see it.
#[derive(Clone, Debug)]
pub struct RpcHeader {
    pub hash: B256,
    pub inner: BlockHeader,
    pub total_difficulty: Option<U256>,
    pub size: Option<U256>,
}

#[verifier::ext_equal]
pub struct RpcHeaderView {
    pub hash: B256,
    pub inner: HeaderView,
    pub total_difficulty: Option<U256>,
    pub size: Option<U256>,
}

impl View for RpcHeader {
    type V = RpcHeaderView;

    open spec fn view(&self) -> RpcHeaderView {
        RpcHeaderView {
            hash: self.hash,
            inner: self.inner@,
            total_difficulty: self.total_difficulty,
            size: self.size,
        }
    }
}

impl RpcHeader {
    pub fn copy(&self) -> (r: Self)
        ensures
            r@ == self@,
    {
        RpcHeader {
            hash: self.hash,
            inner: self.inner.copy(),
            total_difficulty: self.total_difficulty,
            size: self.size,
        }
    }
}

/// A transaction as users see it.
#[derive(Clone, Debug)]
pub struct RpcTransaction {
    pub inner: TxEnvelope,
    pub from: Address,
    pub block_hash: Option<B256>,
    pub block_number: Option<u64>,
    pub transaction_index: Option<u64>,
    pub effective_gas_price: Option<u128>,
}

#[verifier::ext_equal]
pub struct RpcTransactionView {
    pub inner: Seq<u8>,
    pub from: Address,
    pub block_hash: Option<B256>,
    pub block_number: Option<u64>,
    pub transaction_index: Option<u64>,
    pub effective_gas_price: Option<u128>,
}

impl View for RpcTransaction {
    type V = RpcTransactionView;

    open spec fn view(&self) -> RpcTransactionView {
        RpcTransactionView {
            inner: self.inner@,
            from: self.from,
            block_hash: self.block_hash,
            block_number: self.block_number,
            transaction_index: self.transaction_index,
            effective_gas_price: self.effective_gas_price,
        }
    }
}

impl RpcTransaction {
    pub fn copy(&self) -> (r: Self)
        ensures
            r@ == self@,
    {
        RpcTransaction {
            inner: self.inner.copy(),
            from: self.from,
            block_hash: self.block_hash,
            block_number: self.block_number,
            transaction_index: self.transaction_index,
            effective_gas_price: self.effective_gas_price,
        }
    }
}

/// A log as users see it.
#[derive(Clone, Debug)]
pub struct RpcLog {
    pub inner: Log,
    pub block_hash: Option<B256>,
    pub block_number: Option<u64>,
    pub block_timestamp: Option<u64>,
    pub transaction_hash: Option<B256>,
    pub transaction_index: Option<u64>,
    pub log_index: Option<u64>,
    pub removed: bool,
}

#[verifier::ext_equal]
pub struct RpcLogView {
    pub inner: LogView,
    pub block_hash: Option<B256>,
    pub block_number: Option<u64>,
    pub block_timestamp: Option<u64>,
    pub transaction_hash: Option<B256>,
    pub transaction_index: Option<u64>,
    pub log_index: Option<u64>,
    pub removed: bool,
}

impl View for RpcLog {
    type V = RpcLogView;

    open spec fn view(&self) -> RpcLogView {
        RpcLogView {
            inner: self.inner@,
            block_hash: self.block_hash,
            block_number: self.block_number,
            block_timestamp: self.block_timestamp,
            transaction_hash: self.transaction_hash,
            transaction_index: self.transaction_index,
            log_index: self.log_index,
            removed: self.removed,
        }
    }
}

impl RpcLog {
    pub fn copy(&self) -> (r: Self)
        ensures
            r@ == self@,
    {
        RpcLog {
            inner: self.inner.copy(),
            block_hash: self.block_hash,
            block_number: self.block_number,
            block_timestamp: self.block_timestamp,
            transaction_hash: self.transaction_hash,
            transaction_index: self.transaction_index,
            log_index: self.log_index,
            removed: self.removed,
        }
    }
}

/// What some logs say.
pub open spec fn rpc_logs_view(logs: Seq<RpcLog>) -> Seq<RpcLogView> {
    logs.map_values(|l: RpcLog| l@)
}

/// A copy of some logs.
pub fn copy_rpc_logs(logs: &Vec<RpcLog>) -> (r: Vec<RpcLog>)
    ensures
        rpc_logs_view(r@) == rpc_logs_view(logs@),
{
    let mut r: Vec<RpcLog> = Vec::new();
    let mut i: usize = 0;
    while i < logs.len()
        invariant
            i <= logs@.len(),
            r@.len() == i,
            forall|j: int| 0 <= j < i ==> (#[trigger] r@[j])@ == logs@[j]@,
        decreases logs@.len() - i,
    {
        r.push(logs[i].copy());
        i = i + 1;
    }
    assert(rpc_logs_view(r@) =~= rpc_logs_view(logs@));
    r
}

/// A receipt, marked with the kind of its transaction, with logs as users see them.
#[derive(Clone, Debug)]
pub struct RpcReceiptEnvelope {
    pub tx_type: TxType,
    pub status: Eip658Value,
    pub cumulative_gas_used: u64,
    pub logs: Vec<RpcLog>,
    pub logs_bloom: FixedBytes<256>,
}

#[verifier::ext_equal]
pub struct RpcReceiptEnvelopeView {
    pub tx_type: TxType,
    pub status: Eip658Value,
    pub cumulative_gas_used: u64,
    pub logs: Seq<RpcLogView>,
    pub logs_bloom: FixedBytes<256>,
}

impl View for RpcReceiptEnvelope {
    type V = RpcReceiptEnvelopeView;

    open spec fn view(&self) -> RpcReceiptEnvelopeView {
        RpcReceiptEnvelopeView {
            tx_type: self.tx_type,
            status: self.status,
            cumulative_gas_used: self.cumulative_gas_used,
            logs: rpc_logs_view(self.logs@),
            logs_bloom: self.logs_bloom,
        }
    }
}

/// A receipt as users see it.
#[derive(Clone, Debug)]
pub struct TransactionReceipt {
    pub inner: RpcReceiptEnvelope,
    pub transaction_hash: B256,
    pub transaction_index: Option<u64>,
    pub block_hash: Option<B256>,
    pub block_number: Option<u64>,
    pub gas_used: u64,
    pub effective_gas_price: u128,
    pub blob_gas_used: Option<u64>,
    pub blob_gas_price: Option<u128>,
    pub from: Address,
    pub to: Option<Address>,
    pub contract_address: Option<Address>,
}

#[verifier::ext_equal]
pub struct TransactionReceiptView {
    pub inner: RpcReceiptEnvelopeView,
    pub transaction_hash: B256,
    pub transaction_index: Option<u64>,
    pub block_hash: Option<B256>,
    pub block_number: Option<u64>,
    pub gas_used: u64,
    pub effective_gas_price: u128,
    pub blob_gas_used: Option<u64>,
    pub blob_gas_price: Option<u128>,
    pub from: Address,
    pub to: Option<Address>,
    pub contract_address: Option<Address>,
}

impl View for TransactionReceipt {
    type V = TransactionReceiptView;

    open spec fn view(&self) -> TransactionReceiptView {
        TransactionReceiptView {
            inner: self.inner@,
            transaction_hash: self.transaction_hash,
            transaction_index: self.transaction_index,
            block_hash: self.block_hash,
            block_number: self.block_number,
            gas_used: self.gas_used,
            effective_gas_price: self.effective_gas_price,
            blob_gas_used: self.blob_gas_used,
            blob_gas_price: self.blob_gas_price,
            from: self.from,
            to: self.to,
            contract_address: self.contract_address,
        }
    }
}

impl TransactionReceipt {
    pub fn copy(&self) -> (r: Self)
        ensures
            r@ == self@,
    {
        TransactionReceipt {
            inner: RpcReceiptEnvelope {
                tx_type: self.inner.tx_type,
                status: self.inner.status,
                cumulative_gas_used: self.inner.cumulative_gas_used,
                logs: copy_rpc_logs(&self.inner.logs),
                logs_bloom: self.inner.logs_bloom,
            },
            transaction_hash: self.transaction_hash,
            transaction_index: self.transaction_index,
            block_hash: self.block_hash,
            block_number: self.block_number,
            gas_used: self.gas_used,
            effective_gas_price: self.effective_gas_price,
            blob_gas_used: self.blob_gas_used,
            blob_gas_price: self.blob_gas_price,
            from: self.from,
            to: self.to,
            contract_address: self.contract_address,
        }
    }
}

/// What some transactions say.
pub open spec fn rpc_txs_view(txs: Seq<RpcTransaction>) -> Seq<RpcTransactionView> {
    txs.map_values(|t: RpcTransaction| t@)
}

/// What some receipts say.
pub open spec fn rpc_receipts_view(receipts: Seq<TransactionReceipt>) -> Seq<
    TransactionReceiptView,
> {
    receipts.map_values(|r: TransactionReceipt| r@)
}

/// The block that transactions, receipts and logs are in.
#[derive(Clone, Copy, Debug)]
pub struct BlockPlace {
    pub hash: B256,
    pub number: u64,
    pub timestamp: u64,
}

/// A header as users see it, where `size` is its size in memory. There is no total difficulty.
pub open spec fn rpc_header(header: HeaderView, hash: B256, size: u64) -> RpcHeaderView {
    RpcHeaderView {
        hash,
        inner: header,
        total_difficulty: Some(U256(B256::spec_zero())),
        size: Some(U256::spec_from_u64(size)),
    }
}

/// A header as users see it, where `size` is its size in memory.
pub fn header_of_size(header: &BlockHeader, hash: B256, size: u64) -> (r: RpcHeader)
    ensures
        r@ == rpc_header(header@, hash, size),
{
    RpcHeader {
        hash,
        inner: header.copy(),
        total_difficulty: Some(U256(B256::zero())),
        size: Some(U256::from_u64(size)),
    }
}

/// A header as users see it. How large a header is in memory depends on the machine.
pub fn convert_header(header: &BlockHeader, eth_block_hash: B256) -> (r: RpcHeader)
    ensures
        exists|size: u64|
            size >= header.extra_data@.len() && r@ == #[trigger] rpc_header(
                header@,
                eth_block_hash,
                size,
            ),
{
    let size = header_size(header) as u64;
    let r = header_of_size(header, eth_block_hash, size);
    assert(r@ == rpc_header(header@, eth_block_hash, size));
    r
}

/// A transaction as users see it.
pub open spec fn rpc_transaction(tx: Seq<u8>, info: TxInfo, index: u64, place: BlockPlace) -> RpcTransactionView {
    RpcTransactionView {
        inner: tx,
        from: info.sender,
        block_hash: Some(place.hash),
        block_number: Some(place.number),
        transaction_index: Some(index),
        effective_gas_price: Some(info.effective_gas_price),
    }
}

/// The transactions of a block as users see them.
pub open spec fn rpc_transactions(txs: Seq<Seq<u8>>, infos: Seq<TxInfo>, place: BlockPlace) -> Seq<
    RpcTransactionView,
> {
    Seq::new(txs.len(), |i: int| rpc_transaction(txs[i], infos[i], i as u64, place))
}

/// The transactions of a block as users see them, where `infos` tells what was read from each.
pub fn convert_transactions(
    transactions: &Vec<TxEnvelope>,
    infos: &Vec<TxInfo>,
    place: BlockPlace,
) -> (r: Vec<RpcTransaction>)
    requires
        infos@.len() == transactions@.len(),
    ensures
        rpc_txs_view(r@) == rpc_transactions(txs_view(transactions@), infos@, place),
{
    let ghost all = rpc_transactions(txs_view(transactions@), infos@, place);
    let mut r: Vec<RpcTransaction> = Vec::new();
    let mut i: usize = 0;
    while i < transactions.len()
        invariant
            i <= transactions@.len(),
            infos@.len() == transactions@.len(),
            all == rpc_transactions(txs_view(transactions@), infos@, place),
            r@.len() == i,
            forall|j: int| 0 <= j < i ==> (#[trigger] r@[j])@ == all[j],
        decreases transactions@.len() - i,
    {
        r.push(
            RpcTransaction {
                inner: transactions[i].copy(),
                from: infos[i].sender,
                block_hash: Some(place.hash),
                block_number: Some(place.number),
                transaction_index: Some(i as u64),
                effective_gas_price: Some(infos[i].effective_gas_price),
            },
        );
        i = i + 1;
    }
    assert(rpc_txs_view(r@) =~= all);
    r
}

/// A log as users see it.
pub open spec fn rpc_log(
    log: LogView,
    place: BlockPlace,
    tx_hash: B256,
    tx_index: u64,
    log_index: u64,
) -> RpcLogView {
    RpcLogView {
        inner: log,
        block_hash: Some(place.hash),
        block_number: Some(place.number),
        block_timestamp: Some(place.timestamp),
        transaction_hash: Some(tx_hash),
        transaction_index: Some(tx_index),
        log_index: Some(log_index),
        removed: false,
    }
}

/// A receipt with logs as users see them: the logs are numbered from `first_log` on.
pub open spec fn rpc_envelope(
    envelope: (TxType, ReceiptView),
    place: BlockPlace,
    tx_hash: B256,
    tx_index: u64,
    first_log: nat,
) -> RpcReceiptEnvelopeView {
    let logs = envelope.1.logs;
    RpcReceiptEnvelopeView {
        tx_type: envelope.0,
        status: envelope.1.status,
        cumulative_gas_used: envelope.1.cumulative_gas_used,
        logs: Seq::new(
            logs.len(),
            |i: int| rpc_log(logs[i], place, tx_hash, tx_index, (first_log + i) as u64),
        ),
        logs_bloom: envelope.1.logs_bloom,
    }
}

/// A receipt with logs as users see them; `log_index` counts the logs of the block.
pub fn map_receipt_envelope(
    envelope: &ReceiptEnvelope,
    place: BlockPlace,
    tx_hash: B256,
    tx_idx: u64,
    log_index: &mut u64,
) -> (r: RpcReceiptEnvelope)
    requires
        *old(log_index) + envelope@.1.logs.len() <= u64::MAX,
    ensures
        r@ == rpc_envelope(envelope@, place, tx_hash, tx_idx, *old(log_index) as nat),
        *final(log_index) == *old(log_index) + envelope@.1.logs.len(),
{
    let receipt = envelope.receipt();
    let ghost first = *log_index as nat;
    let ghost all = rpc_envelope(envelope@, place, tx_hash, tx_idx, first).logs;
    let mut logs: Vec<RpcLog> = Vec::new();
    let mut i: usize = 0;
    while i < receipt.logs.len()
        invariant
            i <= receipt.logs@.len(),
            *receipt == envelope.spec_receipt(),
            first + receipt.logs@.len() <= u64::MAX,
            *log_index == first + i,
            all == rpc_envelope(envelope@, place, tx_hash, tx_idx, first).logs,
            all.len() == receipt.logs@.len(),
            logs@.len() == i,
            forall|j: int| 0 <= j < i ==> (#[trigger] logs@[j])@ == all[j],
        decreases receipt.logs@.len() - i,
    {
        logs.push(
            RpcLog {
                inner: receipt.logs[i].copy(),
                block_hash: Some(place.hash),
                block_number: Some(place.number),
                block_timestamp: Some(place.timestamp),
                transaction_hash: Some(tx_hash),
                transaction_index: Some(tx_idx),
                log_index: Some(*log_index),
                removed: false,
            },
        );
        *log_index = *log_index + 1;
        i = i + 1;
    }
    assert(rpc_logs_view(logs@) =~= all);
    RpcReceiptEnvelope {
        tx_type: envelope.tx_type(),
        status: receipt.status,
        cumulative_gas_used: receipt.cumulative_gas_used,
        logs,
        logs_bloom: receipt.logs_bloom,
    }
}

/// How many logs some receipts have together.
pub open spec fn log_total(receipts: Seq<(TxType, ReceiptView)>) -> nat
    decreases receipts.len(),
{
    if receipts.len() == 0 {
        0
    } else {
        log_total(receipts.drop_last()) + receipts.last().1.logs.len()
    }
}

/// How much gas the transaction with a receipt used: what was used up to it, less what was used up
/// to the one before, and never less than nothing.
pub open spec fn gas_used_at(receipts: Seq<(TxType, ReceiptView)>, i: int) -> u64 {
    let cumulative = receipts[i].1.cumulative_gas_used;
    if i > 0 {
        let before = receipts[i - 1].1.cumulative_gas_used;
        if cumulative >= before {
            (cumulative - before) as u64
        } else {
            0
        }
    } else {
        cumulative
    }
}

/// A receipt of a block as users see it. A receipt without a transaction has neither sender nor
/// recipient, and no hash.
pub open spec fn rpc_receipt(
    infos: Seq<TxInfo>,
    receipts: Seq<(TxType, ReceiptView)>,
    i: int,
    place: BlockPlace,
) -> TransactionReceiptView {
    let known = i < infos.len();
    let hash = if known {
        infos[i].hash
    } else {
        B256::spec_zero()
    };
    TransactionReceiptView {
        inner: rpc_envelope(receipts[i], place, hash, i as u64, log_total(receipts.take(i))),
        transaction_hash: hash,
        transaction_index: Some(i as u64),
        block_hash: Some(place.hash),
        block_number: Some(place.number),
        gas_used: gas_used_at(receipts, i),
        effective_gas_price: if known {
            infos[i].effective_gas_price
        } else {
            0
        },
        blob_gas_used: None,
        blob_gas_price: None,
        from: if known {
            infos[i].sender
        } else {
            Address::spec_zero()
        },
        to: if known {
            infos[i].to
        } else {
            None
        },
        contract_address: if known {
            infos[i].contract
        } else {
            None
        },
    }
}

/// The receipts of a block as users see them.
pub open spec fn rpc_receipts(
    infos: Seq<TxInfo>,
    receipts: Seq<(TxType, ReceiptView)>,
    place: BlockPlace,
) -> Seq<TransactionReceiptView> {
    Seq::new(receipts.len(), |i: int| rpc_receipt(infos, receipts, i, place))
}

pub proof fn lemma_log_total_monotonic(receipts: Seq<(TxType, ReceiptView)>, i: int)
    requires
        0 <= i <= receipts.len(),
    ensures
        log_total(receipts.take(i)) <= log_total(receipts),
        i < receipts.len() ==> log_total(receipts.take(i + 1)) == log_total(receipts.take(i))
            + receipts[i].1.logs.len(),
    decreases receipts.len() - i,
{
    if i < receipts.len() {
        lemma_log_total_monotonic(receipts, i + 1);
        assert(receipts.take(i + 1).drop_last() =~= receipts.take(i));
    } else {
        assert(receipts.take(i) =~= receipts);
    }
}

/// The receipts of a block as users see them, where `infos` tells what was read from each
/// transaction.
pub fn convert_receipts(
    infos: &Vec<TxInfo>,
    receipts: &Vec<ReceiptEnvelope>,
    place: BlockPlace,
) -> (r: Vec<TransactionReceipt>)
    requires
        log_total(receipts_view(receipts@)) <= u64::MAX,
    ensures
        rpc_receipts_view(r@) == rpc_receipts(infos@, receipts_view(receipts@), place),
{
    let ghost views = receipts_view(receipts@);
    let ghost all = rpc_receipts(infos@, views, place);
    let mut r: Vec<TransactionReceipt> = Vec::new();
    let mut log_index: u64 = 0;
    let mut i: usize = 0;
    while i < receipts.len()
        invariant
            i <= receipts@.len(),
            views == receipts_view(receipts@),
            all == rpc_receipts(infos@, views, place),
            log_total(views) <= u64::MAX,
            log_index == log_total(views.take(i as int)),
            r@.len() == i,
            forall|j: int| 0 <= j < i ==> (#[trigger] r@[j])@ == all[j],
        decreases receipts@.len() - i,
    {
        proof {
            lemma_log_total_monotonic(views, i as int);
            lemma_log_total_monotonic(views, i + 1);
            assert(views[i as int] == receipts@[i as int]@);
        }
        let info = if i < infos.len() {
            Some(infos[i])
        } else {
            None
        };
        let (hash, from, effective_gas_price, to, contract_address) = match info {
            Some(t) => (t.hash, t.sender, t.effective_gas_price, t.to, t.contract),
            None => (B256::zero(), Address::zero(), 0, None, None),
        };
        let inner = map_receipt_envelope(&receipts[i], place, hash, i as u64, &mut log_index);
        let cumulative = receipts[i].receipt().cumulative_gas_used;
        let gas_used: u64 = if i > 0 {
            let before = receipts[i - 1].receipt().cumulative_gas_used;
            assert(views[i - 1] == receipts@[i - 1]@);
            if cumulative >= before {
                cumulative - before
            } else {
                0
            }
        } else {
            cumulative
        };
        r.push(
            TransactionReceipt {
                inner,
                transaction_hash: hash,
                transaction_index: Some(i as u64),
                block_hash: Some(place.hash),
                block_number: Some(place.number),
                gas_used,
                effective_gas_price,
                blob_gas_used: None,
                blob_gas_price: None,
                from,
                to,
                contract_address,
            },
        );
        i = i + 1;
    }
    assert(rpc_receipts_view(r@) =~= all);
    r
}

/// A proposed block as users see it.
#[derive(Clone, Debug)]
pub struct ProposedBlock {
    pub block_id: BlockId,
    pub header: RpcHeader,
    pub transactions: Vec<RpcTransaction>,
    pub receipts: Vec<TransactionReceipt>,
}

#[verifier::ext_equal]
pub struct ProposedBlockView {
    pub block_id: BlockId,
    pub header: RpcHeaderView,
    pub transactions: Seq<RpcTransactionView>,
    pub receipts: Seq<TransactionReceiptView>,
}

impl View for ProposedBlock {
    type V = ProposedBlockView;

    open spec fn view(&self) -> ProposedBlockView {
        ProposedBlockView {
            block_id: self.block_id,
            header: self.header@,
            transactions: rpc_txs_view(self.transactions@),
            receipts: rpc_receipts_view(self.receipts@),
        }
    }
}

/// A proposed block as users see it, where `size` is the size of its header in memory and `infos`
/// tells what was read from each transaction.
pub open spec fn proposed_block(
    block_id: BlockId,
    header: HeaderView,
    txs: Seq<Seq<u8>>,
    infos: Seq<TxInfo>,
    receipts: Seq<(TxType, ReceiptView)>,
    hash: B256,
    size: u64,
) -> ProposedBlockView {
    let place = BlockPlace { hash, number: header.number, timestamp: header.timestamp };
    ProposedBlockView {
        block_id,
        header: rpc_header(header, hash, size),
        transactions: rpc_transactions(txs, infos, place),
        receipts: rpc_receipts(infos, receipts, place),
    }
}

/// A proposed block as users see it; none if one of its transactions cannot be read.
pub fn build_proposed_block(
    block_id: BlockId,
    header: &BlockHeader,
    transactions: &Vec<TxEnvelope>,
    receipts: &Vec<ReceiptEnvelope>,
    eth_block_hash: B256,
) -> (r: Option<ProposedBlock>)
    requires
        log_total(receipts_view(receipts@)) <= u64::MAX,
    ensures
        match r {
            Some(block) => exists|size: u64|
                {
                    &&& size >= header.extra_data@.len()
                    &&& tx_infos(txs_view(transactions@), header.base_fee_per_gas) is Some
                    &&& block@ == #[trigger] proposed_block(
                        block_id,
                        header@,
                        txs_view(transactions@),
                        tx_infos(txs_view(transactions@), header.base_fee_per_gas)->0,
                        receipts_view(receipts@),
                        eth_block_hash,
                        size,
                    )
                },
            None => tx_infos(txs_view(transactions@), header.base_fee_per_gas) is None,
        },
{
    let infos = match read_txs(transactions, header.base_fee_per_gas) {
        Some(infos) => infos,
        None => {
            return None;
        },
    };
    let place = BlockPlace {
        hash: eth_block_hash,
        number: header.number,
        timestamp: header.timestamp,
    };
    let rpc = convert_header(header, eth_block_hash);
    let ghost size = choose|size: u64|
        size >= header.extra_data@.len() && rpc@ == #[trigger] rpc_header(
            header@,
            eth_block_hash,
            size,
        );
    let block = ProposedBlock {
        block_id,
        header: rpc,
        transactions: convert_transactions(transactions, &infos, place),
        receipts: convert_receipts(&infos, receipts, place),
    };
    assert(block@ == proposed_block(
        block_id,
        header@,
        txs_view(transactions@),
        tx_infos(txs_view(transactions@), header.base_fee_per_gas)->0,
        receipts_view(receipts@),
        eth_block_hash,
        size,
    ));
    Some(block)
}

/// Something of a block that users are told, with how far the block has come.
#[derive(Clone, Debug)]
pub struct MonadNotification<T> {
    pub block_id: BlockId,
    pub commit_state: BlockCommitState,
    pub data: T,
}

impl<T: View> View for MonadNotification<T> {
    type V = MonadNotification<T::V>;

    open spec fn view(&self) -> MonadNotification<T::V> {
        MonadNotification {
            block_id: self.block_id,
            commit_state: self.commit_state,
            data: self.data@,
        }
    }
}

/// A transaction that users are told of: itself, its receipt, and its logs one by one.
#[derive(Clone, Debug)]
pub struct TransactionUpdate {
    pub transaction: RpcTransaction,
    pub receipt: TransactionReceipt,
    pub logs: Vec<MonadNotification<RpcLog>>,
}

#[verifier::ext_equal]
pub struct TransactionUpdateView {
    pub transaction: RpcTransactionView,
    pub receipt: TransactionReceiptView,
    pub logs: Seq<MonadNotification<RpcLogView>>,
}

impl View for TransactionUpdate {
    type V = TransactionUpdateView;

    open spec fn view(&self) -> TransactionUpdateView {
        TransactionUpdateView {
            transaction: self.transaction@,
            receipt: self.receipt@,
            logs: self.logs@.map_values(|l: MonadNotification<RpcLog>| l@),
        }
    }
}

/// What users are told of a block.
#[derive(Clone, Debug)]
pub struct BlockUpdate {
    pub commit_state: BlockCommitState,
    pub header: MonadNotification<RpcHeader>,
    pub transactions: Vec<TransactionUpdate>,
}

#[verifier::ext_equal]
pub struct BlockUpdateView {
    pub commit_state: BlockCommitState,
    pub header: MonadNotification<RpcHeaderView>,
    pub transactions: Seq<TransactionUpdateView>,
}

impl View for BlockUpdate {
    type V = BlockUpdateView;

    open spec fn view(&self) -> BlockUpdateView {
        BlockUpdateView {
            commit_state: self.commit_state,
            header: self.header@,
            transactions: self.transactions@.map_values(|t: TransactionUpdate| t@),
        }
    }
}

/// What users are told of a transaction.
pub open spec fn transaction_update(
    transaction: RpcTransactionView,
    receipt: TransactionReceiptView,
    block_id: BlockId,
    commit_state: BlockCommitState,
) -> TransactionUpdateView {
    TransactionUpdateView {
        transaction,
        receipt,
        logs: receipt.inner.logs.map_values(
            |l: RpcLogView| MonadNotification { block_id, commit_state, data: l },
        ),
    }
}

/// What users are told of a block that has come so far.
pub open spec fn block_update(block: ProposedBlockView, commit_state: BlockCommitState) -> BlockUpdateView {
    BlockUpdateView {
        commit_state,
        header: MonadNotification { block_id: block.block_id, commit_state, data: block.header },
        transactions: Seq::new(
            block.transactions.len(),
            |i: int|
                transaction_update(
                    block.transactions[i],
                    block.receipts[i],
                    block.block_id,
                    commit_state,
                ),
        ),
    }
}

fn notify_logs(logs: &Vec<RpcLog>, block_id: BlockId, commit_state: BlockCommitState) -> (r: Vec<
    MonadNotification<RpcLog>,
>)
    ensures
        r@.map_values(|l: MonadNotification<RpcLog>| l@) == rpc_logs_view(logs@).map_values(
            |l: RpcLogView| MonadNotification { block_id, commit_state, data: l },
        ),
{
    let ghost all = rpc_logs_view(logs@).map_values(
        |l: RpcLogView| MonadNotification { block_id, commit_state, data: l },
    );
    let mut r: Vec<MonadNotification<RpcLog>> = Vec::new();
    let mut i: usize = 0;
    while i < logs.len()
        invariant
            i <= logs@.len(),
            all == rpc_logs_view(logs@).map_values(
                |l: RpcLogView| MonadNotification { block_id, commit_state, data: l },
            ),
            r@.len() == i,
            forall|j: int| 0 <= j < i ==> (#[trigger] r@[j])@ == all[j],
        decreases logs@.len() - i,
    {
        r.push(MonadNotification { block_id, commit_state, data: logs[i].copy() });
        i = i + 1;
    }
    assert(r@.map_values(|l: MonadNotification<RpcLog>| l@) =~= all);
    r
}

/// What users are told of a block that has come so far.
pub fn build_block_update(block: &ProposedBlock, commit_state: BlockCommitState) -> (r: BlockUpdate)
    requires
        block.transactions@.len() == block.receipts@.len(),
    ensures
        r@ == block_update(block@, commit_state),
{
    let ghost all = block_update(block@, commit_state).transactions;
    let mut transactions: Vec<TransactionUpdate> = Vec::new();
    let mut i: usize = 0;
    while i < block.transactions.len()
        invariant
            i <= block.transactions@.len(),
            block.transactions@.len() == block.receipts@.len(),
            all == block_update(block@, commit_state).transactions,
            transactions@.len() == i,
            forall|j: int| 0 <= j < i ==> (#[trigger] transactions@[j])@ == all[j],
        decreases block.transactions@.len() - i,
    {
        let receipt = &block.receipts[i];
        let logs = notify_logs(&receipt.inner.logs, block.block_id, commit_state);
        let update = TransactionUpdate {
            transaction: block.transactions[i].copy(),
            receipt: receipt.copy(),
            logs,
        };
        assert(update@ == all[i as int]);
        transactions.push(update);
        i = i + 1;
    }
    let r = BlockUpdate {
        commit_state,
        header: MonadNotification {
            block_id: block.block_id,
            commit_state,
            data: block.header.copy(),
        },
        transactions,
    };
    assert(r@.transactions =~= all);
    r
}

/// The logs of a block are numbered one after the other, from zero on, across its receipts.
pub proof fn lemma_logs_are_numbered(
    infos: Seq<TxInfo>,
    receipts: Seq<(TxType, ReceiptView)>,
    place: BlockPlace,
    i: int,
    j: int,
)
    requires
        log_total(receipts) <= u64::MAX,
        0 <= i < receipts.len(),
        0 <= j < receipts[i].1.logs.len(),
    ensures
        ({
            let logs = rpc_receipts(infos, receipts, place)[i].inner.logs;
            &&& logs.len() == receipts[i].1.logs.len()
            &&& logs[j].inner == receipts[i].1.logs[j]
            &&& logs[j].log_index == Some((log_total(receipts.take(i)) + j) as u64)
            &&& log_total(receipts.take(i)) + j < log_total(receipts)
        }),
{
    lemma_log_total_monotonic(receipts, i);
    lemma_log_total_monotonic(receipts, i + 1);
}

/// How much gas the first transactions of a block used together.
pub open spec fn gas_total(receipts: Seq<(TxType, ReceiptView)>, n: int) -> int
    decreases n,
{
    if n <= 0 {
        0
    } else {
        gas_total(receipts, n - 1) + gas_used_at(receipts, n - 1)
    }
}

/// Where gas adds up over a block, what its transactions used together is what its last receipt
/// says.
pub proof fn lemma_gas_adds_up(receipts: Seq<(TxType, ReceiptView)>, n: int)
    requires
        0 < n <= receipts.len(),
        forall|i: int, j: int|
            0 <= i <= j < receipts.len() ==> #[trigger] receipts[i].1.cumulative_gas_used
                <= #[trigger] receipts[j].1.cumulative_gas_used,
    ensures
        gas_total(receipts, n) == receipts[n - 1].1.cumulative_gas_used,
    decreases n,
{
    if n > 1 {
        lemma_gas_adds_up(receipts, n - 1);
        assert(receipts[n - 2].1.cumulative_gas_used <= receipts[n - 1].1.cumulative_gas_used);
    } else {
        assert(gas_total(receipts, 0) == 0);
    }
}

/// What users see of a receipt is what execution gave: its status, its kind, its gas, its bloom
/// filter and its logs, each in its place.
pub proof fn lemma_receipt_says_what_execution_gave(
    infos: Seq<TxInfo>,
    receipts: Seq<(TxType, ReceiptView)>,
    place: BlockPlace,
    i: int,
)
    requires
        0 <= i < receipts.len(),
    ensures
        rpc_receipts(infos, receipts, place).len() == receipts.len(),
        ({
            let shown = rpc_receipts(infos, receipts, place)[i];
            let given = receipts[i];
            &&& shown.inner.tx_type == given.0
            &&& shown.inner.status == given.1.status
            &&& shown.inner.cumulative_gas_used == given.1.cumulative_gas_used
            &&& shown.inner.logs_bloom == given.1.logs_bloom
            &&& shown.inner.logs.len() == given.1.logs.len()
            &&& forall|j: int|
                0 <= j < given.1.logs.len() ==> (#[trigger] shown.inner.logs[j]).inner
                    == given.1.logs[j]
        }),
{
}

/// A receipt names its block, its place in it, and the hash, the sender, the recipient, the contract
/// and the price of its transaction; it tells of no blobs.
pub proof fn lemma_receipt_names_its_transaction(
    infos: Seq<TxInfo>,
    receipts: Seq<(TxType, ReceiptView)>,
    place: BlockPlace,
    i: int,
)
    requires
        0 <= i < receipts.len() <= u64::MAX,
        infos.len() == receipts.len(),
    ensures
        ({
            let shown = rpc_receipts(infos, receipts, place)[i];
            &&& shown.block_hash == Some(place.hash)
            &&& shown.block_number == Some(place.number)
            &&& shown.transaction_index is Some
            &&& shown.transaction_index->0 == i
            &&& shown.transaction_hash == infos[i].hash
            &&& shown.from == infos[i].sender
            &&& shown.to == infos[i].to
            &&& shown.contract_address == infos[i].contract
            &&& shown.effective_gas_price == infos[i].effective_gas_price
            &&& shown.blob_gas_used is None
            &&& shown.blob_gas_price is None
            &&& forall|j: int|
                0 <= j < shown.inner.logs.len() ==> {
                    let log = #[trigger] shown.inner.logs[j];
                    &&& log.block_hash == Some(place.hash)
                    &&& log.block_number == Some(place.number)
                    &&& log.block_timestamp == Some(place.timestamp)
                    &&& log.transaction_hash == Some(infos[i].hash)
                    &&& log.transaction_index is Some
                    &&& log.transaction_index->0 == i
                    &&& !log.removed
                }
        }),
{
}

/// The logs of a block are numbered from zero on, without a gap: a log has the number after that of
/// the log before it in its receipt, and the first log of a receipt goes on where the logs of the
/// receipt before it ended.
pub proof fn lemma_log_numbers_go_on(
    infos: Seq<TxInfo>,
    receipts: Seq<(TxType, ReceiptView)>,
    place: BlockPlace,
    i: int,
)
    requires
        log_total(receipts) <= u64::MAX,
        0 <= i < receipts.len(),
        receipts[i].1.logs.len() > 0,
    ensures
        ({
            let shown = rpc_receipts(infos, receipts, place);
            let logs = shown[i].inner.logs;
            &&& forall|j: int| 0 <= j < logs.len() ==> (#[trigger] logs[j]).log_index is Some
            &&& forall|j: int, k: int|
                0 <= j <= k < logs.len() ==> (#[trigger] logs[k]).log_index->0 - (
                #[trigger] logs[j]).log_index->0 == k - j
            &&& i == 0 ==> logs[0].log_index->0 == 0
            &&& i > 0 && receipts[i - 1].1.logs.len() > 0 ==> logs[0].log_index->0
                == shown[i - 1].inner.logs.last().log_index->0 + 1
        }),
{
    let shown = rpc_receipts(infos, receipts, place);
    lemma_log_total_monotonic(receipts, i);
    lemma_log_total_monotonic(receipts, i + 1);
    assert(log_total(receipts.take(0)) == 0);
    if i > 0 {
        lemma_log_total_monotonic(receipts, i - 1);
    }
}

/// A transaction used what was used up to it, less what was used up to the one before it.
pub proof fn lemma_gas_used_is_the_difference(
    infos: Seq<TxInfo>,
    receipts: Seq<(TxType, ReceiptView)>,
    place: BlockPlace,
    i: int,
)
    requires
        0 <= i < receipts.len(),
        i > 0 ==> receipts[i - 1].1.cumulative_gas_used <= receipts[i].1.cumulative_gas_used,
    ensures
        i == 0 ==> rpc_receipts(infos, receipts, place)[i].gas_used
            == receipts[i].1.cumulative_gas_used,
        i > 0 ==> rpc_receipts(infos, receipts, place)[i].gas_used + receipts[i
            - 1].1.cumulative_gas_used == receipts[i].1.cumulative_gas_used,
{
}

/// A transaction is shown as it was sent, with its sender, its price and its place.
pub proof fn lemma_transaction_is_shown_as_sent(
    txs: Seq<Seq<u8>>,
    infos: Seq<TxInfo>,
    place: BlockPlace,
    i: int,
)
    requires
        0 <= i < txs.len() <= u64::MAX,
        infos.len() == txs.len(),
    ensures
        rpc_transactions(txs, infos, place).len() == txs.len(),
        ({
            let shown = rpc_transactions(txs, infos, place)[i];
            &&& shown.inner == txs[i]
            &&& shown.from == infos[i].sender
            &&& shown.block_hash == Some(place.hash)
            &&& shown.block_number == Some(place.number)
            &&& shown.transaction_index is Some
            &&& shown.transaction_index->0 == i
            &&& shown.effective_gas_price == Some(infos[i].effective_gas_price)
        }),
{
}

/// A block is shown under its id, with its header and the hash of its header; its transactions and
/// receipts name this hash and the number of the header.
pub proof fn lemma_block_is_shown_as_proposed(
    block_id: BlockId,
    header: HeaderView,
    txs: Seq<Seq<u8>>,
    infos: Seq<TxInfo>,
    receipts: Seq<(TxType, ReceiptView)>,
    hash: B256,
    size: u64,
)
    requires
        infos.len() == txs.len(),
    ensures
        ({
            let block = proposed_block(block_id, header, txs, infos, receipts, hash, size);
            &&& block.block_id == block_id
            &&& block.header.inner == header
            &&& block.header.hash == hash
            &&& block.header.size == Some(U256::spec_from_u64(size))
            &&& block.header.total_difficulty == Some(U256(B256::spec_zero()))
            &&& block.transactions.len() == txs.len()
            &&& block.receipts.len() == receipts.len()
            &&& forall|i: int|
                0 <= i < txs.len() ==> {
                    let tx = #[trigger] block.transactions[i];
                    &&& tx.inner == txs[i]
                    &&& tx.from == infos[i].sender
                    &&& tx.block_hash == Some(hash)
                    &&& tx.block_number == Some(header.number)
                }
            &&& forall|i: int|
                0 <= i < receipts.len() ==> {
                    let receipt = #[trigger] block.receipts[i];
                    &&& receipt.inner.status == receipts[i].1.status
                    &&& receipt.inner.tx_type == receipts[i].0
                    &&& receipt.inner.cumulative_gas_used == receipts[i].1.cumulative_gas_used
                    &&& receipt.block_hash == Some(hash)
                    &&& receipt.block_number == Some(header.number)
                }
            &&& forall|i: int, j: int|
                0 <= i < receipts.len() && 0 <= j < receipts[i].1.logs.len() ==> (
                #[trigger] block.receipts[i].inner.logs[j]).block_timestamp == Some(
                    header.timestamp,
                )
        }),
{
}

/// All that users are told in one update says the same of how far the block has come, and names the
/// same block: the update itself, the header, and every log.
pub proof fn lemma_update_tells_one_state(block: ProposedBlockView, state: BlockCommitState)
    requires
        block.transactions.len() == block.receipts.len(),
    ensures
        ({
            let update = block_update(block, state);
            &&& update.commit_state == state
            &&& update.header.commit_state == state
            &&& update.header.block_id == block.block_id
            &&& update.header.data == block.header
            &&& update.transactions.len() == block.transactions.len()
            &&& forall|i: int|
                0 <= i < update.transactions.len() ==> {
                    let tx = #[trigger] update.transactions[i];
                    &&& tx.transaction == block.transactions[i]
                    &&& tx.receipt == block.receipts[i]
                    &&& tx.logs.len() == block.receipts[i].inner.logs.len()
                }
            &&& forall|i: int, j: int|
                0 <= i < update.transactions.len() && 0 <= j < update.transactions[i].logs.len()
                    ==> {
                    let log = #[trigger] update.transactions[i].logs[j];
                    &&& log.commit_state == state
                    &&& log.block_id == block.block_id
                    &&& log.data == block.receipts[i].inner.logs[j]
                }
        }),
{
}

/// What a header that users see says is what it holds.
pub proof fn lemma_shown_header_says_what_it_holds(x: RpcHeader)
    ensures
        x@.hash == x.hash,
        x@.inner == x.inner@,
        x@.total_difficulty == x.total_difficulty,
        x@.size == x.size,
{
}

/// What a transaction that users see says is what it holds.
pub proof fn lemma_shown_transaction_says_what_it_holds(x: RpcTransaction)
    ensures
        x@.inner == x.inner.rlp@,
        x@.from == x.from,
        x@.block_hash == x.block_hash,
        x@.block_number == x.block_number,
        x@.transaction_index == x.transaction_index,
        x@.effective_gas_price == x.effective_gas_price,
{
}

/// What a log that users see says is what it holds.
pub proof fn lemma_shown_log_says_what_it_holds(x: RpcLog)
    ensures
        x@.inner == x.inner@,
        x@.block_hash == x.block_hash,
        x@.block_number == x.block_number,
        x@.block_timestamp == x.block_timestamp,
        x@.transaction_hash == x.transaction_hash,
        x@.transaction_index == x.transaction_index,
        x@.log_index == x.log_index,
        x@.removed == x.removed,
{
}

/// What a receipt that users see says is what it holds.
pub proof fn lemma_shown_receipt_says_what_it_holds(x: TransactionReceipt)
    ensures
        x@.inner == x.inner@,
        x@.transaction_hash == x.transaction_hash,
        x@.transaction_index == x.transaction_index,
        x@.block_hash == x.block_hash,
        x@.block_number == x.block_number,
        x@.gas_used == x.gas_used,
        x@.effective_gas_price == x.effective_gas_price,
        x@.blob_gas_used == x.blob_gas_used,
        x@.blob_gas_price == x.blob_gas_price,
        x@.from == x.from,
        x@.to == x.to,
        x@.contract_address == x.contract_address,
{
}

/// What a receipt that users see says, besides whose it is, is what it holds.
pub proof fn lemma_shown_outcome_says_what_it_holds(x: RpcReceiptEnvelope, i: int)
    ensures
        x@.tx_type == x.tx_type,
        x@.status == x.status,
        x@.cumulative_gas_used == x.cumulative_gas_used,
        x@.logs_bloom == x.logs_bloom,
        x@.logs.len() == x.logs@.len(),
        0 <= i < x.logs@.len() ==> x@.logs[i] == x.logs@[i]@,
{
}

/// What an update says is what it holds.
pub proof fn lemma_update_says_what_it_holds(x: BlockUpdate, i: int, j: int)
    requires
        0 <= i < x.transactions@.len(),
        0 <= j < x.transactions@[i].logs@.len(),
    ensures
        x@.commit_state == x.commit_state,
        x@.header.commit_state == x.header.commit_state,
        x@.header.block_id == x.header.block_id,
        x@.header.data == x.header.data@,
        x@.transactions.len() == x.transactions@.len(),
        x@.transactions[i].transaction == x.transactions@[i].transaction@,
        x@.transactions[i].receipt == x.transactions@[i].receipt@,
        x@.transactions[i].logs.len() == x.transactions@[i].logs@.len(),
        x@.transactions[i].logs[j].commit_state == x.transactions@[i].logs@[j].commit_state,
        x@.transactions[i].logs[j].block_id == x.transactions@[i].logs@[j].block_id,
        x@.transactions[i].logs[j].data == x.transactions@[i].logs@[j].data@,
{
}

/// What a proposed block says is what it holds.
pub proof fn lemma_proposed_block_says_what_it_holds(x: ProposedBlock, i: int)
    ensures
        x@.block_id == x.block_id,
        x@.header == x.header@,
        x@.transactions.len() == x.transactions@.len(),
        x@.receipts.len() == x.receipts@.len(),
        0 <= i < x.transactions@.len() ==> x@.transactions[i] == x.transactions@[i]@,
        0 <= i < x.receipts@.len() ==> x@.receipts[i] == x.receipts@[i]@,
{
}

/// The logs of a block are counted one by one.
pub proof fn lemma_each_log_counts_once(receipts: Seq<(TxType, ReceiptView)>, r: (TxType, ReceiptView))
    ensures
        log_total(Seq::<(TxType, ReceiptView)>::empty()) == 0,
        log_total(receipts.push(r)) == log_total(receipts) + r.1.logs.len(),
{
    assert(receipts.push(r).drop_last() =~= receipts);
}

/// A receipt whose gas does not add up to that of the one before it is shown as having used none.
pub proof fn lemma_gas_never_falls_below_zero(
    infos: Seq<TxInfo>,
    receipts: Seq<(TxType, ReceiptView)>,
    place: BlockPlace,
    i: int,
)
    requires
        0 < i < receipts.len(),
        receipts[i].1.cumulative_gas_used < receipts[i - 1].1.cumulative_gas_used,
    ensures
        rpc_receipts(infos, receipts, place)[i].gas_used == 0,
{
}

/// A receipt without a transaction names no sender, no recipient and no hash, and no price.
pub proof fn lemma_receipt_without_transaction_names_none(
    infos: Seq<TxInfo>,
    receipts: Seq<(TxType, ReceiptView)>,
    place: BlockPlace,
    i: int,
)
    requires
        infos.len() <= i < receipts.len(),
    ensures
        ({
            let shown = rpc_receipts(infos, receipts, place)[i];
            &&& shown.transaction_hash == B256::spec_zero()
            &&& shown.from == Address::spec_zero()
            &&& shown.to is None
            &&& shown.contract_address is None
            &&& shown.effective_gas_price == 0
        }),
{
}

} // verus!
