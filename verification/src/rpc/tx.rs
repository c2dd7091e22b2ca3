//! What is read from a signed transaction.

use vstd::prelude::*;

use crate::primitives::{Address, FixedBytes, B256};
use crate::transactions::TxEnvelope;

verus! {

/// What `TxEnvelope::tx_hash` of `alloy_consensus` gives for a transaction in its RLP encoding;
/// none if `alloy_rlp::decode_exact` does not read one.
pub uninterp spec fn tx_hash_of(rlp: Seq<u8>) -> Option<B256>;

/// What `SignerRecoverable::recover_signer` of `alloy_consensus` gives for a transaction in its RLP
/// encoding, with none inside for an error; none if `alloy_rlp::decode_exact` does not read one.
pub uninterp spec fn tx_signer_of(rlp: Seq<u8>) -> Option<Option<Address>>;

/// What `Transaction::effective_gas_price` of `alloy_consensus` gives for a transaction in its RLP
/// encoding and a base fee; none if `alloy_rlp::decode_exact` does not read one.
pub uninterp spec fn tx_price_of(rlp: Seq<u8>, base_fee: Option<u64>) -> Option<u128>;

/// What `Transaction::to` of `alloy_consensus` gives for a transaction in its RLP encoding; none if
/// `alloy_rlp::decode_exact` does not read one.
pub uninterp spec fn tx_recipient_of(rlp: Seq<u8>) -> Option<Option<Address>>;

/// What `Transaction::nonce` of `alloy_consensus` gives for a transaction in its RLP encoding; none
/// if `alloy_rlp::decode_exact` does not read one.
pub uninterp spec fn tx_nonce_of(rlp: Seq<u8>) -> Option<u64>;

/// What `Address::create` of `alloy_primitives` gives for a sender and a nonce.
pub uninterp spec fn created_address(sender: Address, nonce: u64) -> Address;

/// `alloy_rlp::decode_exact` on an `alloy_consensus::TxEnvelope`, then `TxEnvelope::tx_hash`: the
/// hash of the transaction, which depends on the bytes alone.
#[verifier::external_body]
pub(crate) fn tx_hash(rlp: &Vec<u8>) -> (r: Option<B256>)
    ensures
        r == tx_hash_of(rlp@),
{
    match alloy_rlp::decode_exact::<alloy_consensus::TxEnvelope>(rlp.as_slice()) {
        Ok(tx) => Some(FixedBytes(tx.tx_hash().0)),
        Err(_) => None,
    }
}

/// `alloy_rlp::decode_exact` on an `alloy_consensus::TxEnvelope`, then
/// `SignerRecoverable::recover_signer`: the account that signed the transaction, if the signature
/// is valid, which depends on the bytes alone.
#[verifier::external_body]
fn tx_signer(rlp: &Vec<u8>) -> (r: Option<Option<Address>>)
    ensures
        r == tx_signer_of(rlp@),
        r is Some == tx_hash_of(rlp@) is Some,
{
    match alloy_rlp::decode_exact::<alloy_consensus::TxEnvelope>(rlp.as_slice()) {
        Ok(tx) => Some(
            alloy_consensus::transaction::SignerRecoverable::recover_signer(&tx).ok().map(
                |a| FixedBytes(a.0.0),
            ),
        ),
        Err(_) => None,
    }
}

/// `alloy_rlp::decode_exact` on an `alloy_consensus::TxEnvelope`, then
/// `Transaction::effective_gas_price`: what the transaction pays per gas, which depends on the
/// bytes and the base fee alone.
#[verifier::external_body]
fn tx_price(rlp: &Vec<u8>, base_fee: Option<u64>) -> (r: Option<u128>)
    ensures
        r == tx_price_of(rlp@, base_fee),
        r is Some == tx_hash_of(rlp@) is Some,
{
    match alloy_rlp::decode_exact::<alloy_consensus::TxEnvelope>(rlp.as_slice()) {
        Ok(tx) => Some(alloy_consensus::Transaction::effective_gas_price(&tx, base_fee)),
        Err(_) => None,
    }
}

/// `alloy_rlp::decode_exact` on an `alloy_consensus::TxEnvelope`, then `Transaction::to`: the
/// account that the transaction calls, none if it creates one, which depends on the bytes alone.
#[verifier::external_body]
fn tx_recipient(rlp: &Vec<u8>) -> (r: Option<Option<Address>>)
    ensures
        r == tx_recipient_of(rlp@),
        r is Some == tx_hash_of(rlp@) is Some,
{
    match alloy_rlp::decode_exact::<alloy_consensus::TxEnvelope>(rlp.as_slice()) {
        Ok(tx) => Some(alloy_consensus::Transaction::to(&tx).map(|a| FixedBytes(a.0.0))),
        Err(_) => None,
    }
}

/// `alloy_rlp::decode_exact` on an `alloy_consensus::TxEnvelope`, then `Transaction::nonce`: the
/// nonce of the transaction, which depends on the bytes alone.
#[verifier::external_body]
fn tx_nonce(rlp: &Vec<u8>) -> (r: Option<u64>)
    ensures
        r == tx_nonce_of(rlp@),
        r is Some == tx_hash_of(rlp@) is Some,
{
    match alloy_rlp::decode_exact::<alloy_consensus::TxEnvelope>(rlp.as_slice()) {
        Ok(tx) => Some(alloy_consensus::Transaction::nonce(&tx)),
        Err(_) => None,
    }
}

/// `Address::create` of `alloy_primitives`: the address of the contract that an account creates,
/// which depends on the account and its nonce alone.
#[verifier::external_body]
fn create_address(sender: &Address, nonce: u64) -> (r: Address)
    ensures
        r == created_address(*sender, nonce),
{
    FixedBytes(alloy_primitives::Address::from(sender.0).create(nonce).0.0)
}

/// What is read from a transaction: `contract` is the account that it creates, if it creates one.
#[derive(Clone, Copy, Debug)]
pub struct TxInfo {
    pub hash: B256,
    pub sender: Address,
    pub to: Option<Address>,
    pub contract: Option<Address>,
    pub effective_gas_price: u128,
}

/// What is read from a transaction in its RLP encoding. The address zero stands for a sender that
/// cannot be recovered.
pub open spec fn tx_info(rlp: Seq<u8>, base_fee: Option<u64>) -> Option<TxInfo> {
    match tx_hash_of(rlp) {
        None => None,
        Some(hash) => {
            let sender = match tx_signer_of(rlp)->0 {
                Some(a) => a,
                None => Address::spec_zero(),
            };
            let to = tx_recipient_of(rlp)->0;
            Some(
                TxInfo {
                    hash,
                    sender,
                    to,
                    contract: if to is None {
                        Some(created_address(sender, tx_nonce_of(rlp)->0))
                    } else {
                        None
                    },
                    effective_gas_price: tx_price_of(rlp, base_fee)->0,
                },
            )
        },
    }
}

/// What is read from a transaction, if it is one.
pub fn read_tx(tx: &TxEnvelope, base_fee: Option<u64>) -> (r: Option<TxInfo>)
    ensures
        r == tx_info(tx@, base_fee),
{
    match (
        tx_hash(&tx.rlp),
        tx_signer(&tx.rlp),
        tx_recipient(&tx.rlp),
        tx_nonce(&tx.rlp),
        tx_price(&tx.rlp, base_fee),
    ) {
        (Some(hash), Some(signer), Some(to), Some(nonce), Some(effective_gas_price)) => {
            let sender = match signer {
                Some(a) => a,
                None => Address::zero(),
            };
            let contract = match to {
                Some(_) => None,
                None => Some(create_address(&sender, nonce)),
            };
            Some(TxInfo { hash, sender, to, contract, effective_gas_price })
        },
        _ => None,
    }
}

/// What is read from some transactions, if all of them are.
pub open spec fn tx_infos(txs: Seq<Seq<u8>>, base_fee: Option<u64>) -> Option<Seq<TxInfo>> {
    if forall|i: int| 0 <= i < txs.len() ==> (#[trigger] tx_info(txs[i], base_fee)) is Some {
        Some(Seq::new(txs.len(), |i: int| tx_info(txs[i], base_fee)->0))
    } else {
        None
    }
}

/// What is read from some transactions, if all of them are.
pub fn read_txs(txs: &Vec<TxEnvelope>, base_fee: Option<u64>) -> (r: Option<Vec<TxInfo>>)
    ensures
        match r {
            Some(infos) => tx_infos(crate::transactions::txs_view(txs@), base_fee) == Some(infos@),
            None => tx_infos(crate::transactions::txs_view(txs@), base_fee) is None,
        },
{
    let ghost all = crate::transactions::txs_view(txs@);
    let mut infos: Vec<TxInfo> = Vec::new();
    let mut i: usize = 0;
    while i < txs.len()
        invariant
            i <= txs@.len(),
            all == crate::transactions::txs_view(txs@),
            infos@.len() == i,
            forall|j: int| 0 <= j < i ==> #[trigger] tx_info(all[j], base_fee) == Some(infos@[j]),
        decreases txs@.len() - i,
    {
        assert(all[i as int] == txs@[i as int]@);
        match read_tx(&txs[i], base_fee) {
            Some(info) => infos.push(info),
            None => {
                assert(tx_info(all[i as int], base_fee) is None);
                return None;
            },
        }
        i = i + 1;
    }
    proof {
        let read = Seq::new(all.len(), |i: int| tx_info(all[i], base_fee)->0);
        assert forall|j: int| 0 <= j < all.len() implies read[j] == infos@[j] by {
            assert(tx_info(all[j], base_fee) == Some(infos@[j]));
        }
        assert(read =~= infos@);
    }
    Some(infos)
}

/// What is read from a transaction is its own hash, its signer, its recipient and its price; one without
/// a recipient creates the contract of its signer and its nonce, and one with a recipient creates none.
pub proof fn lemma_transaction_tells_its_parties(rlp: Seq<u8>, base_fee: Option<u64>)
    ensures
        tx_info(rlp, base_fee) is Some <==> tx_hash_of(rlp) is Some,
        tx_hash_of(rlp) is Some ==> {
            let info = tx_info(rlp, base_fee)->0;
            &&& info.hash == tx_hash_of(rlp)->0
            &&& info.to == tx_recipient_of(rlp)->0
            &&& info.effective_gas_price == tx_price_of(rlp, base_fee)->0
            &&& tx_signer_of(rlp)->0 is Some ==> info.sender == tx_signer_of(rlp)->0->0
            &&& tx_signer_of(rlp)->0 is None ==> info.sender == Address::spec_zero()
            &&& info.to is Some ==> info.contract is None
            &&& info.to is None ==> info.contract == Some(
                created_address(info.sender, tx_nonce_of(rlp)->0),
            )
        },
{
}

/// A block is read as a whole: each transaction in its place, with the same base fee, and nothing if one
/// of them cannot be read.
pub proof fn lemma_block_is_read_as_a_whole(txs: Seq<Seq<u8>>, base_fee: Option<u64>, i: int)
    requires
        0 <= i < txs.len(),
    ensures
        tx_info(txs[i], base_fee) is None ==> tx_infos(txs, base_fee) is None,
        tx_infos(txs, base_fee) is Some ==> {
            &&& tx_infos(txs, base_fee)->0.len() == txs.len()
            &&& tx_info(txs[i], base_fee) == Some(tx_infos(txs, base_fee)->0[i])
        },
        (forall|j: int| 0 <= j < txs.len() ==> (#[trigger] tx_info(txs[j], base_fee)) is Some)
            ==> tx_infos(txs, base_fee) is Some,
{
    if tx_infos(txs, base_fee) is Some {
        assert(tx_info(txs[i], base_fee) is Some);
    }
}

} // verus!
