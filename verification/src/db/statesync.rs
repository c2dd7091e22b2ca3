//! State sync on stored state: sending what is stored, and writing what was received.

use vstd::prelude::*;

use crate::db::adapter::{DbView, RethExecutionDb};
use crate::db::bridge::{
    monad_to_reth_account, reth_to_monad_account, stored_account, Account,
};
use crate::hashing::{has_prefix, keccak256, keccak_alloy, starts_with};
use crate::header::{
    decode_header, decoded_header, encode_header, header_hash, header_rlp, BlockHeader, HeaderView,
};
use crate::primitives::{Address, SeqNum, B256, U256};
use crate::seqs::lemma_filter_step;
use crate::statesync::protocol::{
    account_bytes, encode_account, lemma_account_is_understood, lemma_slot_is_understood, parsed,
    upserts_view, Received,
};
use crate::statesync::types::{SyncUpsertType, Upsert};
use crate::statesync::{BatchView, StateSyncBatch};
use crate::transactions::copy_bytes;
use crate::types::EthAccount;
use crate::validation::compute_block_hash;

verus! {

/// One slot of an account, as it is stored.
#[derive(Clone, Copy, Debug)]
pub struct StorageEntry {
    pub key: B256,
    pub value: U256,
}

/// The tables that hold the state, each in its order; none where a table could not be read.
pub struct StateTables {
    pub accounts: Option<Vec<(Address, Account)>>,
    pub storage: Option<Vec<(Address, StorageEntry)>>,
    pub code: Option<Vec<(B256, Vec<u8>)>>,
}

/// Whether the state of an account is under `prefix`: the hash of its address starts with it.
pub open spec fn under_prefix(address: Address, prefix: Seq<u8>) -> bool {
    prefix.len() == 0 || starts_with(keccak_alloy(address@)@, prefix)
}

fn is_under_prefix(address: &Address, prefix: &Vec<u8>) -> (r: bool)
    ensures
        r == under_prefix(*address, prefix@),
{
    prefix.len() == 0 || has_prefix(keccak256(address.as_slice()).as_slice(), prefix.as_slice())
}

/// A stored account as it is sent.
pub open spec fn account_row(row: (Address, Account)) -> (SyncUpsertType, Seq<u8>) {
    (SyncUpsertType::Account, account_bytes(row.0, stored_account(row.1)))
}

/// A stored slot as it is sent: address, slot and value.
pub open spec fn storage_row(row: (Address, StorageEntry)) -> (SyncUpsertType, Seq<u8>) {
    (SyncUpsertType::Storage, row.0@ + row.1.key@ + row.1.value.0@)
}

/// Stored code as it is sent: its hash and its bytes.
pub open spec fn code_row(row: (B256, Vec<u8>)) -> (SyncUpsertType, Seq<u8>) {
    (SyncUpsertType::Code, row.0@ + row.1@)
}

/// The accounts under `prefix`, as they are sent.
pub open spec fn account_rows(rows: Seq<(Address, Account)>, prefix: Seq<u8>) -> Seq<
    (SyncUpsertType, Seq<u8>),
> {
    rows.filter(|row: (Address, Account)| under_prefix(row.0, prefix)).map_values(
        |row: (Address, Account)| account_row(row),
    )
}

/// The slots of accounts under `prefix`, as they are sent.
pub open spec fn storage_rows(rows: Seq<(Address, StorageEntry)>, prefix: Seq<u8>) -> Seq<
    (SyncUpsertType, Seq<u8>),
> {
    rows.filter(|row: (Address, StorageEntry)| under_prefix(row.0, prefix)).map_values(
        |row: (Address, StorageEntry)| storage_row(row),
    )
}

/// All code, as it is sent.
pub open spec fn code_rows(rows: Seq<(B256, Vec<u8>)>) -> Seq<(SyncUpsertType, Seq<u8>)> {
    rows.map_values(|row: (B256, Vec<u8>)| code_row(row))
}

/// What is sent for `prefix`, and whether that is all: it stops at the first table that could not
/// be read.
pub open spec fn traversed(t: StateTables, prefix: Seq<u8>) -> (
    Seq<(SyncUpsertType, Seq<u8>)>,
    bool,
) {
    match (t.accounts, t.storage, t.code) {
        (Some(accounts), Some(storage), Some(code)) => (
            account_rows(accounts@, prefix) + storage_rows(storage@, prefix) + code_rows(code@),
            true,
        ),
        (Some(accounts), Some(storage), None) => (
            account_rows(accounts@, prefix) + storage_rows(storage@, prefix),
            false,
        ),
        (Some(accounts), None, _) => (account_rows(accounts@, prefix), false),
        (None, _, _) => (Seq::empty(), false),
    }
}

fn send_accounts(rows: &Vec<(Address, Account)>, prefix: &Vec<u8>, out: &mut Vec<Upsert>)
    ensures
        upserts_view(final(out)@) == upserts_view(old(out)@) + account_rows(rows@, prefix@),
{
    let ghost before = upserts_view(out@);
    let ghost under = |row: (Address, Account)| under_prefix(row.0, prefix@);
    let ghost sent = |row: (Address, Account)| account_row(row);
    let mut i: usize = 0;
    proof {
        reveal(Seq::filter);
        assert(rows@.take(0).filter(under).map_values(sent) =~= Seq::empty());
        assert(upserts_view(out@) =~= before + rows@.take(0).filter(under).map_values(sent));
    }
    while i < rows.len()
        invariant
            i <= rows@.len(),
            under == (|row: (Address, Account)| under_prefix(row.0, prefix@)),
            sent == (|row: (Address, Account)| account_row(row)),
            upserts_view(out@) == before + rows@.take(i as int).filter(under).map_values(sent),
        decreases rows@.len() - i,
    {
        let (address, account) = rows[i];
        let ghost now = out@;
        proof {
            lemma_filter_step(rows@, i as int, under);
        }
        if is_under_prefix(&address, prefix) {
            out.push(
                (
                    SyncUpsertType::Account,
                    encode_account(address, &reth_to_monad_account(&account)),
                ),
            );
            proof {
                assert(upserts_view(out@) =~= upserts_view(now).push(account_row(rows@[i as int])));
                assert(rows@.take(i + 1).filter(under).map_values(sent) =~= rows@.take(
                    i as int,
                ).filter(under).map_values(sent).push(account_row(rows@[i as int])));
                assert(upserts_view(out@) =~= before + rows@.take(i + 1).filter(under).map_values(
                    sent,
                ));
            }
        }
        i = i + 1;
    }
    assert(rows@.take(i as int) =~= rows@);
}

fn send_storage(rows: &Vec<(Address, StorageEntry)>, prefix: &Vec<u8>, out: &mut Vec<Upsert>)
    ensures
        upserts_view(final(out)@) == upserts_view(old(out)@) + storage_rows(rows@, prefix@),
{
    let ghost before = upserts_view(out@);
    let ghost under = |row: (Address, StorageEntry)| under_prefix(row.0, prefix@);
    let ghost sent = |row: (Address, StorageEntry)| storage_row(row);
    let mut i: usize = 0;
    proof {
        reveal(Seq::filter);
        assert(rows@.take(0).filter(under).map_values(sent) =~= Seq::empty());
        assert(upserts_view(out@) =~= before + rows@.take(0).filter(under).map_values(sent));
    }
    while i < rows.len()
        invariant
            i <= rows@.len(),
            under == (|row: (Address, StorageEntry)| under_prefix(row.0, prefix@)),
            sent == (|row: (Address, StorageEntry)| storage_row(row)),
            upserts_view(out@) == before + rows@.take(i as int).filter(under).map_values(sent),
        decreases rows@.len() - i,
    {
        let (address, entry) = rows[i];
        let ghost now = out@;
        proof {
            lemma_filter_step(rows@, i as int, under);
        }
        if is_under_prefix(&address, prefix) {
            let mut data = vstd::slice::slice_to_vec(address.as_slice());
            data.extend_from_slice(entry.key.as_slice());
            data.extend_from_slice(entry.value.0.as_slice());
            assert(data@ =~= storage_row(rows@[i as int]).1);
            out.push((SyncUpsertType::Storage, data));
            proof {
                assert(upserts_view(out@) =~= upserts_view(now).push(storage_row(rows@[i as int])));
                assert(rows@.take(i + 1).filter(under).map_values(sent) =~= rows@.take(
                    i as int,
                ).filter(under).map_values(sent).push(storage_row(rows@[i as int])));
                assert(upserts_view(out@) =~= before + rows@.take(i + 1).filter(under).map_values(
                    sent,
                ));
            }
        }
        i = i + 1;
    }
    assert(rows@.take(i as int) =~= rows@);
}

fn send_code(rows: &Vec<(B256, Vec<u8>)>, out: &mut Vec<Upsert>)
    ensures
        upserts_view(final(out)@) == upserts_view(old(out)@) + code_rows(rows@),
{
    let ghost before = upserts_view(out@);
    let mut i: usize = 0;
    assert(upserts_view(out@) =~= before + code_rows(rows@).take(0));
    while i < rows.len()
        invariant
            i <= rows@.len(),
            upserts_view(out@) == before + code_rows(rows@).take(i as int),
        decreases rows@.len() - i,
    {
        let row = &rows[i];
        let ghost now = out@;
        let mut data = vstd::slice::slice_to_vec(row.0.as_slice());
        data.extend_from_slice(row.1.as_slice());
        assert(data@ =~= code_row(rows@[i as int]).1);
        out.push((SyncUpsertType::Code, data));
        proof {
            assert(upserts_view(out@) =~= upserts_view(now).push(code_rows(rows@)[i as int]));
            assert(upserts_view(out@) =~= before + code_rows(rows@).take(i + 1));
        }
        i = i + 1;
    }
    assert(code_rows(rows@).take(i as int) =~= code_rows(rows@));
}

/// The stored state under `prefix` as it is sent, and whether all of it could be read. Code is
/// sent whatever the prefix is.
pub fn traverse_state(tables: &StateTables, prefix: &Vec<u8>) -> (r: (Vec<Upsert>, bool))
    ensures
        (upserts_view(r.0@), r.1) == traversed(*tables, prefix@),
{
    let mut out: Vec<Upsert> = Vec::new();
    assert(upserts_view(out@) =~= Seq::empty());
    let complete = match &tables.accounts {
        None => false,
        Some(accounts) => {
            send_accounts(accounts, prefix, &mut out);
            assert(upserts_view(out@) =~= account_rows(accounts@, prefix@));
            match &tables.storage {
                None => false,
                Some(storage) => {
                    send_storage(storage, prefix, &mut out);
                    match &tables.code {
                        None => false,
                        Some(code) => {
                            send_code(code, &mut out);
                            true
                        },
                    }
                },
            }
        },
    };
    (out, complete)
}

/// A change of a table.
pub enum TableOp {
    PutAccount { address: Address, account: Account },
    PutHashedAccount { hash: B256, account: Account },
    DeleteAccount { address: Address },
    DeleteHashedAccount { hash: B256 },
    PutStorage { address: Address, entry: StorageEntry },
    PutHashedStorage { hash: B256, entry: StorageEntry },
    PutCode { hash: B256, code: Vec<u8> },
}

pub enum TableOpView {
    PutAccount { address: Address, account: Account },
    PutHashedAccount { hash: B256, account: Account },
    DeleteAccount { address: Address },
    DeleteHashedAccount { hash: B256 },
    PutStorage { address: Address, entry: StorageEntry },
    PutHashedStorage { hash: B256, entry: StorageEntry },
    PutCode { hash: B256, code: Seq<u8> },
}

impl View for TableOp {
    type V = TableOpView;

    open spec fn view(&self) -> TableOpView {
        match *self {
            TableOp::PutAccount { address, account } => TableOpView::PutAccount {
                address,
                account,
            },
            TableOp::PutHashedAccount { hash, account } => TableOpView::PutHashedAccount {
                hash,
                account,
            },
            TableOp::DeleteAccount { address } => TableOpView::DeleteAccount { address },
            TableOp::DeleteHashedAccount { hash } => TableOpView::DeleteHashedAccount { hash },
            TableOp::PutStorage { address, entry } => TableOpView::PutStorage { address, entry },
            TableOp::PutHashedStorage { hash, entry } => TableOpView::PutHashedStorage {
                hash,
                entry,
            },
            TableOp::PutCode { hash, code } => TableOpView::PutCode { hash, code: code@ },
        }
    }
}

/// What some changes say.
pub open spec fn ops_view(ops: Seq<TableOp>) -> Seq<TableOpView> {
    ops.map_values(|op: TableOp| op@)
}

/// How a change of an account is written: under its address, and under the hash of its address.
pub open spec fn account_ops(update: (Address, Option<EthAccount>)) -> Seq<TableOpView> {
    let hash = keccak_alloy(update.0@);
    match update.1 {
        Some(acc) => {
            let account = Account {
                nonce: acc.nonce,
                balance: acc.balance,
                bytecode_hash: acc.code_hash,
            };
            seq![
                TableOpView::PutAccount { address: update.0, account },
                TableOpView::PutHashedAccount { hash, account },
            ]
        },
        None => seq![
            TableOpView::DeleteAccount { address: update.0 },
            TableOpView::DeleteHashedAccount { hash },
        ],
    }
}

/// How a change of a slot is written: under the address and the slot, and under their hashes.
pub open spec fn storage_ops(update: (Address, B256, B256)) -> Seq<TableOpView> {
    seq![
        TableOpView::PutStorage {
            address: update.0,
            entry: StorageEntry { key: update.1, value: U256(update.2) },
        },
        TableOpView::PutHashedStorage {
            hash: keccak_alloy(update.0@),
            entry: StorageEntry { key: keccak_alloy(update.1@), value: U256(update.2) },
        },
    ]
}

/// How changes of accounts are written, one after the other.
pub open spec fn all_account_ops(updates: Seq<(Address, Option<EthAccount>)>) -> Seq<TableOpView>
    decreases updates.len(),
{
    if updates.len() == 0 {
        Seq::empty()
    } else {
        all_account_ops(updates.drop_last()) + account_ops(updates.last())
    }
}

/// How changes of slots are written, one after the other.
pub open spec fn all_storage_ops(updates: Seq<(Address, B256, B256)>) -> Seq<TableOpView>
    decreases updates.len(),
{
    if updates.len() == 0 {
        Seq::empty()
    } else {
        all_storage_ops(updates.drop_last()) + storage_ops(updates.last())
    }
}

/// How new code is written.
pub open spec fn all_code_ops(code: Seq<(B256, Seq<u8>)>) -> Seq<TableOpView> {
    code.map_values(|c: (B256, Seq<u8>)| TableOpView::PutCode { hash: c.0, code: c.1 })
}

/// How a batch is written: accounts, storage, code.
pub open spec fn batch_ops(batch: BatchView) -> Seq<TableOpView> {
    all_account_ops(batch.accounts) + all_storage_ops(batch.storage) + all_code_ops(batch.code)
}

fn write_accounts(updates: &Vec<(Address, Option<EthAccount>)>, ops: &mut Vec<TableOp>)
    ensures
        ops_view(final(ops)@) == ops_view(old(ops)@) + all_account_ops(updates@),
{
    let ghost before = ops_view(ops@);
    let mut i: usize = 0;
    assert(ops_view(ops@) =~= before + all_account_ops(updates@.take(0)));
    while i < updates.len()
        invariant
            i <= updates@.len(),
            ops_view(ops@) == before + all_account_ops(updates@.take(i as int)),
        decreases updates@.len() - i,
    {
        let (address, maybe_acc) = updates[i];
        let ghost now = ops_view(ops@);
        let hash = keccak256(address.as_slice());
        match maybe_acc {
            Some(acc) => {
                let account = monad_to_reth_account(&acc);
                ops.push(TableOp::PutAccount { address, account });
                ops.push(TableOp::PutHashedAccount { hash, account });
            },
            None => {
                ops.push(TableOp::DeleteAccount { address });
                ops.push(TableOp::DeleteHashedAccount { hash });
            },
        }
        proof {
            assert(updates@.take(i + 1).drop_last() =~= updates@.take(i as int));
            assert(ops_view(ops@) =~= now + account_ops(updates@[i as int]));
            assert(ops_view(ops@) =~= before + all_account_ops(updates@.take(i + 1)));
        }
        i = i + 1;
    }
    assert(updates@.take(i as int) =~= updates@);
}

fn write_storage(updates: &Vec<(Address, B256, B256)>, ops: &mut Vec<TableOp>)
    ensures
        ops_view(final(ops)@) == ops_view(old(ops)@) + all_storage_ops(updates@),
{
    let ghost before = ops_view(ops@);
    let mut i: usize = 0;
    assert(ops_view(ops@) =~= before + all_storage_ops(updates@.take(0)));
    while i < updates.len()
        invariant
            i <= updates@.len(),
            ops_view(ops@) == before + all_storage_ops(updates@.take(i as int)),
        decreases updates@.len() - i,
    {
        let (address, key, value) = updates[i];
        let ghost now = ops_view(ops@);
        ops.push(
            TableOp::PutStorage { address, entry: StorageEntry { key, value: U256(value) } },
        );
        ops.push(
            TableOp::PutHashedStorage {
                hash: keccak256(address.as_slice()),
                entry: StorageEntry { key: keccak256(key.as_slice()), value: U256(value) },
            },
        );
        proof {
            assert(updates@.take(i + 1).drop_last() =~= updates@.take(i as int));
            assert(ops_view(ops@) =~= now + storage_ops(updates@[i as int]));
            assert(ops_view(ops@) =~= before + all_storage_ops(updates@.take(i + 1)));
        }
        i = i + 1;
    }
    assert(updates@.take(i as int) =~= updates@);
}

/// The changes of tables that write a batch: every account and slot is written twice, once as it is
/// and once under its hash.
pub fn plan_batch(updates: &StateSyncBatch) -> (r: Vec<TableOp>)
    ensures
        ops_view(r@) == batch_ops(updates@),
{
    let mut ops: Vec<TableOp> = Vec::new();
    write_accounts(&updates.accounts, &mut ops);
    write_storage(&updates.storage, &mut ops);
    let ghost before = ops_view(ops@);
    let ghost code = all_code_ops(updates@.code);
    proof {
        assert(before =~= all_account_ops(updates@.accounts) + all_storage_ops(updates@.storage));
        assert(ops_view(ops@) =~= before + code.take(0));
    }
    let mut i: usize = 0;
    while i < updates.code.len()
        invariant
            i <= updates.code@.len(),
            code == all_code_ops(updates@.code),
            ops_view(ops@) == before + code.take(i as int),
        decreases updates.code@.len() - i,
    {
        let c = &updates.code[i];
        let ghost now = ops_view(ops@);
        ops.push(TableOp::PutCode { hash: c.0, code: copy_bytes(&c.1) });
        proof {
            assert(ops_view(ops@) =~= now.push(code[i as int]));
            assert(ops_view(ops@) =~= before + code.take(i + 1));
        }
        i = i + 1;
    }
    assert(code.take(i as int) =~= code);
    ops
}

/// A received header as it is stored.
pub struct HeaderRow {
    pub number: u64,
    pub hash: B256,
    pub header: BlockHeader,
}

#[verifier::ext_equal]
pub struct HeaderRowView {
    pub number: u64,
    pub hash: B256,
    pub header: HeaderView,
}

impl View for HeaderRow {
    type V = HeaderRowView;

    open spec fn view(&self) -> HeaderRowView {
        HeaderRowView { number: self.number, hash: self.hash, header: self.header@ }
    }
}

/// What some rows say.
pub open spec fn header_rows_view(rows: Seq<HeaderRow>) -> Seq<HeaderRowView> {
    rows.map_values(|r: HeaderRow| r@)
}

/// What is stored for received headers: those that cannot be read are left out.
pub open spec fn header_rows(headers: Seq<(u64, Vec<u8>)>) -> Seq<HeaderRowView>
    decreases headers.len(),
{
    if headers.len() == 0 {
        Seq::empty()
    } else {
        let rest = header_rows(headers.drop_last());
        match decoded_header(headers.last().1@) {
            Some(h) => rest.push(
                HeaderRowView { number: headers.last().0, hash: header_hash(h), header: h },
            ),
            None => rest,
        }
    }
}

/// What is stored for received headers.
pub fn plan_block_headers(headers: &Vec<(u64, Vec<u8>)>) -> (r: Vec<HeaderRow>)
    ensures
        header_rows_view(r@) == header_rows(headers@),
{
    let mut rows: Vec<HeaderRow> = Vec::new();
    let mut i: usize = 0;
    assert(header_rows_view(rows@) =~= header_rows(headers@.take(0)));
    while i < headers.len()
        invariant
            i <= headers@.len(),
            header_rows_view(rows@) == header_rows(headers@.take(i as int)),
        decreases headers@.len() - i,
    {
        let (version, rlp) = (&headers[i].0, &headers[i].1);
        let ghost now = header_rows_view(rows@);
        assert(headers@.take(i + 1).drop_last() =~= headers@.take(i as int));
        match decode_header(rlp.as_slice()) {
            Some(header) => {
                let hash = compute_block_hash(&header);
                rows.push(HeaderRow { number: *version, hash, header });
                assert(header_rows_view(rows@) =~= now.push(rows@.last()@));
            },
            None => {},
        }
        assert(header_rows_view(rows@) =~= header_rows(headers@.take(i + 1)));
        i = i + 1;
    }
    assert(headers@.take(i as int) =~= headers@);
    rows
}

/// Whether the state of block `target` is there, where `last` is the highest stored block.
pub fn has_stored_version(last: SeqNum, target: u64) -> (r: bool)
    ensures
        r == (target <= last.0),
{
    target <= last.0
}

/// A stored header as it is sent.
pub fn read_block_header_at(stored: &Option<BlockHeader>) -> (r: Option<Vec<u8>>)
    ensures
        match (*stored, r) {
            (Some(h), Some(rlp)) => rlp@ == header_rlp(h@),
            (None, None) => true,
            _ => false,
        },
{
    match stored {
        Some(h) => Some(encode_header(h)),
        None => None,
    }
}

impl RethExecutionDb {
    /// Whether the state of block `target` is there.
    pub fn has_version(&self, target: u64) -> (r: bool)
        ensures
            r == (target <= self@.latest_finalized.0),
    {
        has_stored_version(self.latest_finalized(), target)
    }

    /// The latest finalized block.
    pub fn get_latest_version(&self) -> (r: u64)
        ensures
            r == self@.latest_finalized.0,
    {
        self.latest_finalized().0
    }

    /// Takes note that the state is that of block `target`.
    pub fn finalize_statesync(&mut self, target: u64) -> (r: bool)
        ensures
            r,
            final(self)@ == (DbView { latest_finalized: SeqNum(target), ..old(self)@ }),
    {
        self.set_latest_finalized(SeqNum(target));
        true
    }
}

proof fn lemma_all_account_ops(updates: Seq<(Address, Option<EthAccount>)>, op: TableOpView)
    ensures
        all_account_ops(updates).contains(op) <==> exists|i: int|
            0 <= i < updates.len() && account_ops(#[trigger] updates[i]).contains(op),
    decreases updates.len(),
{
    if updates.len() > 0 {
        let before = updates.drop_last();
        let rest = all_account_ops(before);
        let last = account_ops(updates.last());
        lemma_all_account_ops(before, op);
        lemma_either_part_contains(rest, last, op);
        if exists|i: int| 0 <= i < updates.len() && account_ops(#[trigger] updates[i]).contains(op) {
            let i = choose|i: int|
                0 <= i < updates.len() && account_ops(#[trigger] updates[i]).contains(op);
            if i < before.len() {
                assert(before[i] == updates[i]);
            }
        }
        if rest.contains(op) {
            let i = choose|i: int|
                0 <= i < before.len() && account_ops(#[trigger] before[i]).contains(op);
            assert(updates[i] == before[i]);
        } else if last.contains(op) {
            assert(updates[updates.len() - 1] == updates.last());
        }
    }
}

proof fn lemma_all_storage_ops(updates: Seq<(Address, B256, B256)>, op: TableOpView)
    ensures
        all_storage_ops(updates).contains(op) <==> exists|i: int|
            0 <= i < updates.len() && storage_ops(#[trigger] updates[i]).contains(op),
    decreases updates.len(),
{
    if updates.len() > 0 {
        let before = updates.drop_last();
        let rest = all_storage_ops(before);
        let last = storage_ops(updates.last());
        lemma_all_storage_ops(before, op);
        lemma_either_part_contains(rest, last, op);
        if exists|i: int| 0 <= i < updates.len() && storage_ops(#[trigger] updates[i]).contains(op) {
            let i = choose|i: int|
                0 <= i < updates.len() && storage_ops(#[trigger] updates[i]).contains(op);
            if i < before.len() {
                assert(before[i] == updates[i]);
            }
        }
        if rest.contains(op) {
            let i = choose|i: int|
                0 <= i < before.len() && storage_ops(#[trigger] before[i]).contains(op);
            assert(updates[i] == before[i]);
        } else if last.contains(op) {
            assert(updates[updates.len() - 1] == updates.last());
        }
    }
}

proof fn lemma_either_part_contains<A>(a: Seq<A>, b: Seq<A>, x: A)
    ensures
        (a + b).contains(x) <==> a.contains(x) || b.contains(x),
{
    if a.contains(x) {
        let i = choose|i: int| 0 <= i < a.len() && a[i] == x;
        assert((a + b)[i] == x);
    }
    if b.contains(x) {
        let i = choose|i: int| 0 <= i < b.len() && b[i] == x;
        assert((a + b)[a.len() + i] == x);
    }
    if (a + b).contains(x) {
        let i = choose|i: int| 0 <= i < (a + b).len() && (a + b)[i] == x;
        if i < a.len() {
            assert(a[i] == x);
        } else {
            assert(b[i - a.len()] == x);
        }
    }
}

/// Every account of a batch is written under its address and under the hash of its address, with its
/// nonce, balance and code; an account that is gone is deleted under both.
pub proof fn lemma_every_account_is_written(batch: BatchView, i: int)
    requires
        0 <= i < batch.accounts.len(),
    ensures
        ({
            let (address, account) = batch.accounts[i];
            let hash = keccak_alloy(address@);
            match account {
                Some(acc) => {
                    let row = Account {
                        nonce: acc.nonce,
                        balance: acc.balance,
                        bytecode_hash: acc.code_hash,
                    };
                    &&& batch_ops(batch).contains(
                        TableOpView::PutAccount { address, account: row },
                    )
                    &&& batch_ops(batch).contains(
                        TableOpView::PutHashedAccount { hash, account: row },
                    )
                },
                None => {
                    &&& batch_ops(batch).contains(TableOpView::DeleteAccount { address })
                    &&& batch_ops(batch).contains(TableOpView::DeleteHashedAccount { hash })
                },
            }
        }),
{
    let update = batch.accounts[i];
    let ops = account_ops(update);
    let accounts = all_account_ops(batch.accounts);
    assert forall|op: TableOpView| #[trigger] ops.contains(op) implies batch_ops(batch).contains(op) by {
        lemma_all_account_ops(batch.accounts, op);
        lemma_either_part_contains(accounts, all_storage_ops(batch.storage), op);
        lemma_either_part_contains(
            accounts + all_storage_ops(batch.storage),
            all_code_ops(batch.code),
            op,
        );
    }
    assert(ops.contains(ops[0]));
    assert(ops.contains(ops[1]));
}

/// Every slot of a batch is written with its value, under its account and key, and under their hashes.
pub proof fn lemma_every_slot_is_written(batch: BatchView, i: int)
    requires
        0 <= i < batch.storage.len(),
    ensures
        ({
            let (address, key, value) = batch.storage[i];
            &&& batch_ops(batch).contains(
                TableOpView::PutStorage { address, entry: StorageEntry { key, value: U256(value) } },
            )
            &&& batch_ops(batch).contains(
                TableOpView::PutHashedStorage {
                    hash: keccak_alloy(address@),
                    entry: StorageEntry { key: keccak_alloy(key@), value: U256(value) },
                },
            )
        }),
{
    let update = batch.storage[i];
    let ops = storage_ops(update);
    let storage = all_storage_ops(batch.storage);
    assert forall|op: TableOpView| #[trigger] ops.contains(op) implies batch_ops(batch).contains(op) by {
        lemma_all_storage_ops(batch.storage, op);
        lemma_either_part_contains(all_account_ops(batch.accounts), storage, op);
        lemma_either_part_contains(
            all_account_ops(batch.accounts) + storage,
            all_code_ops(batch.code),
            op,
        );
    }
    assert(ops.contains(ops[0]));
    assert(ops.contains(ops[1]));
}

/// All code of a batch is written under its hash.
pub proof fn lemma_all_code_is_written(batch: BatchView, i: int)
    requires
        0 <= i < batch.code.len(),
    ensures
        batch_ops(batch).contains(
            TableOpView::PutCode { hash: batch.code[i].0, code: batch.code[i].1 },
        ),
{
    let op = TableOpView::PutCode { hash: batch.code[i].0, code: batch.code[i].1 };
    assert(all_code_ops(batch.code)[i] == op);
    assert(all_code_ops(batch.code).contains(op));
    lemma_either_part_contains(
        all_account_ops(batch.accounts) + all_storage_ops(batch.storage),
        all_code_ops(batch.code),
        op,
    );
}

/// Nothing is written but what a batch holds: an account, a slot or code that is not in it is neither
/// put nor deleted.
pub proof fn lemma_nothing_else_is_written(batch: BatchView, op: TableOpView)
    requires
        batch_ops(batch).contains(op),
    ensures
        match op {
            TableOpView::PutAccount { address, account } => exists|i: int|
                0 <= i < batch.accounts.len() && (#[trigger] batch.accounts[i]).0 == address
                    && batch.accounts[i].1 is Some && (batch.accounts[i].1->0).nonce == account.nonce
                    && (batch.accounts[i].1->0).balance == account.balance && (
                batch.accounts[i].1->0).code_hash == account.bytecode_hash,
            TableOpView::DeleteAccount { address } => exists|i: int|
                0 <= i < batch.accounts.len() && (#[trigger] batch.accounts[i]).0 == address
                    && batch.accounts[i].1 is None,
            TableOpView::PutStorage { address, entry } => exists|i: int|
                0 <= i < batch.storage.len() && #[trigger] batch.storage[i] == (
                    address,
                    entry.key,
                    entry.value.0,
                ),
            TableOpView::PutCode { hash, code } => exists|i: int|
                0 <= i < batch.code.len() && #[trigger] batch.code[i] == (hash, code),
            TableOpView::PutHashedAccount { hash, account } => exists|i: int|
                0 <= i < batch.accounts.len() && keccak_alloy(
                    (#[trigger] batch.accounts[i]).0@,
                ) == hash && batch.accounts[i].1 is Some && (batch.accounts[i].1->0).nonce
                    == account.nonce && (batch.accounts[i].1->0).balance == account.balance && (
                batch.accounts[i].1->0).code_hash == account.bytecode_hash,
            TableOpView::DeleteHashedAccount { hash } => exists|i: int|
                0 <= i < batch.accounts.len() && keccak_alloy(
                    (#[trigger] batch.accounts[i]).0@,
                ) == hash && batch.accounts[i].1 is None,
            TableOpView::PutHashedStorage { hash, entry } => exists|i: int|
                0 <= i < batch.storage.len() && keccak_alloy(
                    (#[trigger] batch.storage[i]).0@,
                ) == hash && keccak_alloy(batch.storage[i].1@) == entry.key && batch.storage[i].2
                    == entry.value.0,
        },
{
    let accounts = all_account_ops(batch.accounts);
    let storage = all_storage_ops(batch.storage);
    let code = all_code_ops(batch.code);
    lemma_either_part_contains(accounts + storage, code, op);
    lemma_either_part_contains(accounts, storage, op);
    lemma_all_account_ops(batch.accounts, op);
    lemma_all_storage_ops(batch.storage, op);
    if accounts.contains(op) {
        let i = choose|i: int|
            0 <= i < batch.accounts.len() && account_ops(#[trigger] batch.accounts[i]).contains(op);
        assert(batch.accounts[i] == batch.accounts[i]);
    } else if storage.contains(op) {
        let i = choose|i: int|
            0 <= i < batch.storage.len() && storage_ops(#[trigger] batch.storage[i]).contains(op);
        assert(batch.storage[i] == batch.storage[i]);
    } else {
        let i = choose|i: int| 0 <= i < code.len() && code[i] == op;
        assert(batch.code[i] == batch.code[i]);
    }
}

/// Every account that is stored under a prefix is sent, and a client reads from it the address, nonce,
/// balance and code that are stored. An account that is not under the prefix is not sent.
pub proof fn lemma_stored_account_is_sent(rows: Seq<(Address, Account)>, prefix: Seq<u8>, i: int)
    requires
        0 <= i < rows.len(),
        prefix.len() == 0 || starts_with(keccak_alloy(rows[i].0@)@, prefix),
    ensures
        account_rows(rows, prefix).contains(account_row(rows[i])),
        match parsed(account_row(rows[i]).0, account_row(rows[i]).1) {
            Some(Received::Account(addr, Some(acct))) => {
                &&& addr == rows[i].0
                &&& acct.nonce == rows[i].1.nonce
                &&& acct.balance == rows[i].1.balance
            },
            _ => false,
        },
{
    let under = |row: (Address, Account)| under_prefix(row.0, prefix);
    let f = rows.filter(under);
    rows.lemma_filter_contains(under, i);
    let j = choose|j: int| 0 <= j < f.len() && f[j] == rows[i];
    assert(account_rows(rows, prefix)[j] == account_row(rows[i]));
    lemma_account_is_understood(rows[i].0, stored_account(rows[i].1));
}

/// Every slot that is stored of an account under a prefix is sent, and a client reads from it the
/// address, the slot and the value that are stored.
pub proof fn lemma_stored_slot_is_sent(rows: Seq<(Address, StorageEntry)>, prefix: Seq<u8>, i: int)
    requires
        0 <= i < rows.len(),
        prefix.len() == 0 || starts_with(keccak_alloy(rows[i].0@)@, prefix),
    ensures
        storage_rows(rows, prefix).contains(storage_row(rows[i])),
        parsed(storage_row(rows[i]).0, storage_row(rows[i]).1) == Some(
            Received::Storage(rows[i].0, rows[i].1.key, rows[i].1.value.0),
        ),
{
    let under = |row: (Address, StorageEntry)| under_prefix(row.0, prefix);
    let f = rows.filter(under);
    rows.lemma_filter_contains(under, i);
    let j = choose|j: int| 0 <= j < f.len() && f[j] == rows[i];
    assert(storage_rows(rows, prefix)[j] == storage_row(rows[i]));
    lemma_slot_is_understood(rows[i].0, rows[i].1.key, rows[i].1.value.0);
}

/// Only accounts under the prefix are sent, and only slots of such accounts.
pub proof fn lemma_only_what_is_under_the_prefix_is_sent(
    accounts: Seq<(Address, Account)>,
    storage: Seq<(Address, StorageEntry)>,
    prefix: Seq<u8>,
    u: (SyncUpsertType, Seq<u8>),
)
    ensures
        account_rows(accounts, prefix).contains(u) ==> exists|i: int|
            0 <= i < accounts.len() && account_row(#[trigger] accounts[i]) == u && (prefix.len() == 0
                || starts_with(keccak_alloy(accounts[i].0@)@, prefix)),
        storage_rows(storage, prefix).contains(u) ==> exists|i: int|
            0 <= i < storage.len() && storage_row(#[trigger] storage[i]) == u && (prefix.len() == 0
                || starts_with(keccak_alloy(storage[i].0@)@, prefix)),
{
    if account_rows(accounts, prefix).contains(u) {
        let under = |row: (Address, Account)| under_prefix(row.0, prefix);
        let f = accounts.filter(under);
        let j = choose|j: int| 0 <= j < f.len() && account_rows(accounts, prefix)[j] == u;
        accounts.lemma_filter_pred(under, j);
        assert(f.contains(f[j]));
        accounts.lemma_filter_contains_rev(under, f[j]);
        let i = choose|i: int| 0 <= i < accounts.len() && accounts[i] == f[j];
        assert(account_row(accounts[i]) == u);
    }
    if storage_rows(storage, prefix).contains(u) {
        let under = |row: (Address, StorageEntry)| under_prefix(row.0, prefix);
        let f = storage.filter(under);
        let j = choose|j: int| 0 <= j < f.len() && storage_rows(storage, prefix)[j] == u;
        storage.lemma_filter_pred(under, j);
        assert(f.contains(f[j]));
        storage.lemma_filter_contains_rev(under, f[j]);
        let i = choose|i: int| 0 <= i < storage.len() && storage[i] == f[j];
        assert(storage_row(storage[i]) == u);
    }
}

/// State that could be read is sent as a whole, accounts before storage and storage before code, and
/// only then counts as all there is.
pub proof fn lemma_all_state_is_sent(t: StateTables, prefix: Seq<u8>)
    ensures
        traversed(t, prefix).1 <==> t.accounts is Some && t.storage is Some && t.code is Some,
        t.accounts is None ==> traversed(t, prefix).0.len() == 0,
        t.accounts is Some ==> account_rows((t.accounts->0)@, prefix).is_prefix_of(
            traversed(t, prefix).0,
        ),
        t.accounts is Some && t.storage is Some ==> traversed(t, prefix).0.subrange(
            account_rows((t.accounts->0)@, prefix).len() as int,
            (account_rows((t.accounts->0)@, prefix).len() + storage_rows(
                (t.storage->0)@,
                prefix,
            ).len()) as int,
        ) == storage_rows((t.storage->0)@, prefix),
        traversed(t, prefix).1 ==> traversed(t, prefix).0.skip(
            (account_rows((t.accounts->0)@, prefix).len() + storage_rows(
                (t.storage->0)@,
                prefix,
            ).len()) as int,
        ) == code_rows((t.code->0)@),
{
    if t.accounts is Some && t.storage is Some {
        let a = account_rows((t.accounts->0)@, prefix);
        let s = storage_rows((t.storage->0)@, prefix);
        let n = (a.len() + s.len()) as int;
        assert(traversed(t, prefix).0.subrange(a.len() as int, n) =~= s);
        if t.code is Some {
            assert(traversed(t, prefix).0.skip(n) =~= code_rows((t.code->0)@));
        }
    }
}

/// All code that is stored is sent, as its hash and its bytes.
pub proof fn lemma_stored_code_is_sent(rows: Seq<(B256, Vec<u8>)>, i: int)
    requires
        0 <= i < rows.len(),
    ensures
        code_rows(rows).len() == rows.len(),
        code_rows(rows)[i].0 is Code,
        code_rows(rows)[i].1 == rows[i].0@ + rows[i].1@,
{
}

/// A header that was received and can be read is stored, under the number that it came with, with its
/// own hash.
pub proof fn lemma_received_header_is_stored(headers: Seq<(u64, Vec<u8>)>, i: int, h: HeaderView)
    requires
        0 <= i < headers.len(),
        decoded_header(headers[i].1@) == Some(h),
    ensures
        header_rows(headers).contains(
            HeaderRowView { number: headers[i].0, hash: header_hash(h), header: h },
        ),
        header_rows(headers).len() <= headers.len(),
    decreases headers.len(),
{
    let row = HeaderRowView { number: headers[i].0, hash: header_hash(h), header: h };
    let rest = header_rows(headers.drop_last());
    if headers.len() > 1 {
        lemma_header_rows_len(headers.drop_last());
    }
    if i < headers.len() - 1 {
        assert(headers.drop_last()[i] == headers[i]);
        lemma_received_header_is_stored(headers.drop_last(), i, h);
        let j = choose|j: int| 0 <= j < rest.len() && rest[j] == row;
        assert(header_rows(headers)[j] == row);
    } else {
        assert(header_rows(headers)[rest.len() as int] == row);
    }
}

proof fn lemma_header_rows_len(headers: Seq<(u64, Vec<u8>)>)
    ensures
        header_rows(headers).len() <= headers.len(),
    decreases headers.len(),
{
    if headers.len() > 0 {
        lemma_header_rows_len(headers.drop_last());
    }
}

/// What a change of a table says is what it holds.
pub proof fn lemma_table_op_says_what_it_holds(op: TableOp)
    ensures
        match op {
            TableOp::PutAccount { address, account } => op@ == (TableOpView::PutAccount {
                address,
                account,
            }),
            TableOp::PutHashedAccount { hash, account } => op@ == (
            TableOpView::PutHashedAccount { hash, account }),
            TableOp::DeleteAccount { address } => op@ == (TableOpView::DeleteAccount { address }),
            TableOp::DeleteHashedAccount { hash } => op@ == (TableOpView::DeleteHashedAccount {
                hash,
            }),
            TableOp::PutStorage { address, entry } => op@ == (TableOpView::PutStorage {
                address,
                entry,
            }),
            TableOp::PutHashedStorage { hash, entry } => op@ == (
            TableOpView::PutHashedStorage { hash, entry }),
            TableOp::PutCode { hash, code } => op@ == (TableOpView::PutCode { hash, code: code@ }),
        },
{
}

} // verus!
