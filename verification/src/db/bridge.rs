//! Accounts and receipts as they are stored.

use vstd::prelude::*;

use crate::primitives::{B256, U256};
use crate::transactions::{
    logs_view, Eip658Value, Log, LogView, ReceiptEnvelope, ReceiptView, TxType,
};
use crate::types::{keccak_empty, spec_keccak_empty, EthAccount};

verus! {

/// An account as it is stored.
#[derive(Clone, Copy, Debug, PartialEq, Eq)]
pub struct Account {
    pub nonce: u64,
    pub balance: U256,
    pub bytecode_hash: Option<B256>,
}

/// An account as it is stored.
pub fn monad_to_reth_account(acc: &EthAccount) -> (r: Account)
    ensures
        r == (Account {
            nonce: acc.nonce,
            balance: acc.balance,
            bytecode_hash: acc.code_hash,
        }),
{
    Account { nonce: acc.nonce, balance: acc.balance, bytecode_hash: acc.code_hash }
}

/// An account from how it is stored: the hash of empty code stands for no code.
pub open spec fn stored_account(acc: Account) -> EthAccount {
    EthAccount {
        nonce: acc.nonce,
        balance: acc.balance,
        code_hash: if acc.bytecode_hash == Some(spec_keccak_empty()) {
            None
        } else {
            acc.bytecode_hash
        },
        is_delegated: false,
    }
}

/// An account from how it is stored.
pub fn reth_to_monad_account(acc: &Account) -> (r: EthAccount)
    ensures
        r == stored_account(*acc),
{
    let code_hash = match acc.bytecode_hash {
        Some(h) => if h == keccak_empty() {
            None
        } else {
            Some(h)
        },
        None => None,
    };
    EthAccount { nonce: acc.nonce, balance: acc.balance, code_hash, is_delegated: false }
}

/// An account that is not delegated and does not spell out the hash of empty code comes back from
/// storage as it went in.
pub proof fn lemma_stored_account_round_trip(acc: EthAccount)
    requires
        !acc.is_delegated,
        acc.code_hash != Some(spec_keccak_empty()),
    ensures
        stored_account(
            Account { nonce: acc.nonce, balance: acc.balance, bytecode_hash: acc.code_hash },
        ) == acc,
{
}

/// A receipt as it is stored.
pub struct StoredReceipt {
    pub tx_type: TxType,
    pub success: bool,
    pub cumulative_gas_used: u64,
    pub logs: Vec<Log>,
}

#[verifier::ext_equal]
pub struct StoredReceiptView {
    pub tx_type: TxType,
    pub success: bool,
    pub cumulative_gas_used: u64,
    pub logs: Seq<LogView>,
}

impl View for StoredReceipt {
    type V = StoredReceiptView;

    open spec fn view(&self) -> StoredReceiptView {
        StoredReceiptView {
            tx_type: self.tx_type,
            success: self.success,
            cumulative_gas_used: self.cumulative_gas_used,
            logs: logs_view(self.logs@),
        }
    }
}

/// Whether a transaction with this status succeeded; one with a state root counts as successful.
pub open spec fn succeeded(status: Eip658Value) -> bool {
    match status {
        Eip658Value::Eip658(ok) => ok,
        Eip658Value::PostState(_) => true,
    }
}

/// A receipt as it is stored: without its bloom filter.
pub open spec fn stored_receipt(r: (TxType, ReceiptView)) -> StoredReceiptView {
    StoredReceiptView {
        tx_type: r.0,
        success: succeeded(r.1.status),
        cumulative_gas_used: r.1.cumulative_gas_used,
        logs: r.1.logs,
    }
}

/// A receipt as it is stored.
pub fn receipt_envelope_to_reth(envelope: &ReceiptEnvelope) -> (r: StoredReceipt)
    ensures
        r@ == stored_receipt(envelope@),
{
    let receipt = envelope.receipt().copy();
    let success = match receipt.status {
        Eip658Value::Eip658(ok) => ok,
        Eip658Value::PostState(_) => true,
    };
    StoredReceipt {
        tx_type: envelope.tx_type(),
        success,
        cumulative_gas_used: receipt.cumulative_gas_used,
        logs: receipt.logs,
    }
}

/// A stored account has the nonce, the balance and the code that were stored; the hash of empty code
/// stands for no code.
pub proof fn lemma_stored_account_is_what_was_stored(acc: Account)
    ensures
        stored_account(acc).nonce == acc.nonce,
        stored_account(acc).balance == acc.balance,
        acc.bytecode_hash is None ==> stored_account(acc).code_hash is None,
        acc.bytecode_hash == Some(spec_keccak_empty()) ==> stored_account(acc).code_hash is None,
        acc.bytecode_hash != Some(spec_keccak_empty()) ==> stored_account(acc).code_hash
            == acc.bytecode_hash,
        !stored_account(acc).is_delegated,
{
}

/// A transaction counts as successful unless its receipt says that it failed.
pub proof fn lemma_only_failed_transactions_fail(r: (TxType, ReceiptView))
    ensures
        stored_receipt(r).success <==> r.1.status != Eip658Value::Eip658(false),
        stored_receipt(r).tx_type == r.0,
        stored_receipt(r).cumulative_gas_used == r.1.cumulative_gas_used,
        stored_receipt(r).logs == r.1.logs,
{
}

/// What a stored receipt says is what it holds.
pub proof fn lemma_stored_receipt_says_what_it_holds(r: StoredReceipt)
    ensures
        r@.tx_type == r.tx_type,
        r@.success == r.success,
        r@.cumulative_gas_used == r.cumulative_gas_used,
        r@.logs == logs_view(r.logs@),
{
}

} // verus!
