use std::cell::{Cell, RefCell};
use std::rc::Rc;
use std::collections::HashMap;

use monad_execution::bundle::{
    account_info_to_monad, executed_code, extract_deletions_from_bundle, is_valid_code,
    monad_to_account_info, state_deltas_to_bundle, AccountInfo, AccountStatus, Bundle,
};
use monad_execution::db::adapter::{
    init_genesis, BlockRow, FinalizePlan, FlushPlan, RethExecutionDb, StoredBlockBodyIndices,
};
use monad_execution::db::bridge::{
    monad_to_reth_account, receipt_envelope_to_reth, reth_to_monad_account, Account,
};
use monad_execution::db::merge::{build_bundle, merge_chain};
use monad_execution::db::state_backend::{
    last_block_number, read_latest_finalized, RethStateBackend, StateBackendError,
};
use monad_execution::db::statesync::{
    has_stored_version, plan_batch, plan_block_headers, read_block_header_at, traverse_state,
    StateTables, StorageEntry, TableOp,
};
use monad_execution::db::store::{StateStore, WatchedStore};
use monad_execution::db::stored::StoredExecutionDb;
use monad_execution::header::{encode_header, BlockHeader};
use monad_execution::primitives::{Address, BlockId, FixedBytes, SeqNum, B256, U256};
use monad_execution::statesync::types::SyncUpsertType;
use monad_execution::statesync::{StateSyncApplierDb, StateSyncBatch};
use monad_execution::traits::ExecutionDb;
use monad_execution::transactions::{
    Eip658Value, Log, ReceiptEnvelope, ReceiptWithBloom, TxEnvelope, TxType,
};
use monad_execution::types::{
    keccak_empty, AccountDelta, CodeMap, EthAccount, StateDeltas, StorageDelta,
};
use monad_execution::validation::compute_block_hash;

/// Storage that lives in memory: tables of accounts, slots, code and blocks.
#[derive(Default)]
struct Tables {
    accounts: HashMap<[u8; 20], Account>,
    storage: HashMap<([u8; 20], [u8; 32]), B256>,
    code: HashMap<[u8; 32], Vec<u8>>,
    headers: HashMap<u64, BlockHeader>,
    hashes: HashMap<u64, B256>,
    bodies: HashMap<u64, StoredBlockBodyIndices>,
}

impl Tables {
    fn last(&self) -> Option<u64> {
        self.headers.keys().max().copied()
    }

    fn put_row(&mut self, row: &BlockRow) {
        self.headers.insert(row.number, row.header.copy());
        self.hashes.insert(row.number, row.hash);
        self.bodies.insert(
            row.number,
            StoredBlockBodyIndices { first_tx_num: row.first_tx_num, tx_count: row.tx_count },
        );
    }

    fn put_bundle(&mut self, bundle: &revm::database::BundleState) {
        for (address, account) in bundle.state.iter() {
            let key = address.0 .0;
            if account.status.was_destroyed() {
                self.storage.retain(|k, _| k.0 != key);
            }
            match &account.info {
                Some(info) => {
                    let info = AccountInfo {
                        balance: U256(FixedBytes(info.balance.to_be_bytes::<32>())),
                        nonce: info.nonce,
                        code_hash: FixedBytes(info.code_hash.0),
                    };
                    let stored = monad_to_reth_account(&account_info_to_monad(&info));
                    self.accounts.insert(key, stored);
                }
                None => {
                    self.accounts.remove(&key);
                }
            }
            for (slot, value) in account.storage.iter() {
                let slot = slot.to_be_bytes::<32>();
                let value = FixedBytes(value.present_value.to_be_bytes::<32>());
                self.storage.insert((key, slot), value);
            }
        }
        for (hash, code) in bundle.contracts.iter() {
            self.code.insert(hash.0, code.original_byte_slice().to_vec());
        }
    }

    fn apply(&mut self, op: TableOp) {
        match op {
            TableOp::PutAccount { address, account } => {
                self.accounts.insert(address.0, account);
            }
            TableOp::DeleteAccount { address } => {
                self.accounts.remove(&address.0);
            }
            TableOp::PutStorage { address, entry } => {
                self.storage.insert((address.0, entry.key.0), entry.value.0);
            }
            TableOp::PutCode { hash, code } => {
                self.code.insert(hash.0, code);
            }
            TableOp::PutHashedAccount { .. }
            | TableOp::DeleteHashedAccount { .. }
            | TableOp::PutHashedStorage { .. } => {}
        }
    }
}

/// Such storage as a store, which takes nothing while it is broken, and which counts how often it
/// was asked to write.
#[derive(Clone)]
struct Store {
    tables: Rc<RefCell<Tables>>,
    broken: Rc<Cell<bool>>,
    writes: Rc<Cell<usize>>,
}

impl StateStore for Store {
    fn account(&self, address: &Address) -> Option<Account> {
        self.tables.borrow().accounts.get(&address.0).copied()
    }

    fn slot(&self, address: &Address, slot: &B256) -> B256 {
        let tables = self.tables.borrow();
        tables.storage.get(&(address.0, slot.0)).copied().unwrap_or(FixedBytes([0; 32]))
    }

    fn code(&self, hash: &B256) -> Option<Vec<u8>> {
        self.tables.borrow().code.get(&hash.0).cloned()
    }

    fn header(&self, number: u64) -> Option<BlockHeader> {
        self.tables.borrow().headers.get(&number).map(|h| h.copy())
    }

    fn state_root(&self) -> B256 {
        FixedBytes([0xAB; 32])
    }

    fn last_body(&self) -> Result<Option<StoredBlockBodyIndices>, ()> {
        let tables = self.tables.borrow();
        Ok(tables.last().and_then(|n| tables.bodies.get(&n).copied()))
    }

    fn write_chain(&self, plan: &FlushPlan, bundle: revm::database::BundleState) -> bool {
        self.writes.set(self.writes.get() + 1);
        if self.broken.get() {
            return false;
        }
        let mut tables = self.tables.borrow_mut();
        for row in &plan.rows {
            tables.put_row(row);
        }
        tables.put_bundle(&bundle);
        true
    }

    fn write_ops(&self, ops: Vec<TableOp>) -> bool {
        self.writes.set(self.writes.get() + 1);
        for op in ops {
            self.tables.borrow_mut().apply(op);
        }
        true
    }
}

/// A database on such storage.
struct Db {
    db: StoredExecutionDb<Store>,
    store: Store,
}

impl Db {
    fn open(tables: Tables) -> Self {
        let last = tables.last();
        let hash = last.and_then(|n| tables.hashes.get(&n).copied());
        let store = Store {
            tables: Rc::new(RefCell::new(tables)),
            broken: Rc::new(Cell::new(false)),
            writes: Rc::new(Cell::new(0)),
        };
        let db = StoredExecutionDb::open(WatchedStore::new(store.clone()), last, hash);
        Db { db, store }
    }

    fn init_genesis(&mut self, header: &BlockHeader, deltas: &StateDeltas, code: &CodeMap) -> bool {
        let mut tables = self.store.tables.borrow_mut();
        let has_genesis = tables.headers.contains_key(&0);
        match init_genesis(has_genesis, header, deltas, code) {
            Some((row, bundle)) => {
                tables.put_row(&row);
                tables.put_bundle(&build_bundle(&bundle).expect("known code"));
                true
            }
            None => false,
        }
    }

    fn account(&self, address: &Address) -> Option<EthAccount> {
        ExecutionDb::read_account(&self.db, address)
    }

    fn slot(&self, address: &Address, slot: &B256) -> B256 {
        ExecutionDb::read_storage(&self.db, address, slot)
    }

    fn code(&self, hash: &B256) -> Option<Vec<u8>> {
        self.db.read_code(hash)
    }

    fn header(&self) -> BlockHeader {
        self.db.read_eth_header()
    }

    fn commit(&mut self, id: BlockId, header: &BlockHeader, deltas: &StateDeltas) {
        self.db.commit(id, header, bundle_of(deltas), &vec![], &vec![]);
    }

    fn finalize(&mut self, seq_num: SeqNum, id: BlockId) {
        assert!(self.db.can_finalize(seq_num, id));
        self.db.finalize(seq_num, id);
    }
}

fn bundle_of(deltas: &StateDeltas) -> Bundle {
    state_deltas_to_bundle(deltas, &CodeMap::new())
}

fn tmp_db() -> Db {
    Db::open(Tables::default())
}

fn reopen_db(db: Db) -> Db {
    Db::open(db.store.tables.take())
}

fn make_block_id(n: u8) -> BlockId {
    BlockId(FixedBytes([n; 32]))
}

fn make_account(nonce: u64, balance: u64) -> EthAccount {
    EthAccount { nonce, balance: U256::from_u64(balance), code_hash: None, is_delegated: false }
}

fn make_header(number: u64) -> BlockHeader {
    BlockHeader { number, gas_limit: 30_000_000, ..BlockHeader::empty() }
}

fn make_state_deltas(
    addr: Address,
    old: Option<EthAccount>,
    new: Option<EthAccount>,
    storage: Vec<(B256, B256, B256)>,
) -> StateDeltas {
    let mut delta = AccountDelta { old_account: old, new_account: new, ..AccountDelta::new() };
    for (slot, old_value, new_value) in storage {
        delta.storage.insert(slot, StorageDelta { old_value, new_value });
    }
    let mut deltas = StateDeltas::new();
    deltas.insert(addr, delta);
    deltas
}

const ZERO: B256 = FixedBytes([0; 32]);

#[test]
fn test_genesis_init_and_read() {
    let mut db = tmp_db();

    let addr = FixedBytes([0xAA; 20]);
    let genesis_acc = make_account(0, 1_000_000);
    let header = make_header(0);
    let deltas = make_state_deltas(addr, None, Some(genesis_acc), vec![]);

    assert!(db.init_genesis(&header, &deltas, &CodeMap::new()));

    assert_eq!(db.db.get_latest_finalized_version(), SeqNum(0));

    let acc = db.account(&addr).expect("account should exist");
    assert_eq!(acc.nonce, 0);
    assert_eq!(acc.balance, U256::from_u64(1_000_000));

    assert_eq!(db.header().number, 0);
}

#[test]
fn test_genesis_idempotent() {
    let mut db = tmp_db();
    let header = make_header(0);
    let deltas = StateDeltas::new();
    let code = CodeMap::new();

    assert!(db.init_genesis(&header, &deltas, &code));
    assert!(!db.init_genesis(&header, &deltas, &code));
}

#[test]
fn test_commit_finalize_flow() {
    let mut db = tmp_db();

    db.init_genesis(&make_header(0), &StateDeltas::new(), &CodeMap::new());

    let addr = FixedBytes([0x11; 20]);
    let new_acc = make_account(1, 5000);
    let slot = FixedBytes([0x01; 32]);
    let val = FixedBytes([0xFF; 32]);

    let header1 = make_header(1);
    let block_id = make_block_id(1);
    let deltas = make_state_deltas(addr, None, Some(new_acc), vec![(slot, ZERO, val)]);

    db.db.set_block_and_prefix(SeqNum(0), make_block_id(0));
    db.commit(block_id, &header1, &deltas);

    assert!(db.db.has_executed(&block_id, SeqNum(1)));

    db.db.set_block_and_prefix(SeqNum(1), block_id);
    let acc = db.account(&addr).expect("overlay read");
    assert_eq!(acc.nonce, 1);
    assert_eq!(acc.balance, U256::from_u64(5000));
    assert_eq!(db.slot(&addr, &slot), val);

    db.finalize(SeqNum(1), block_id);
    assert_eq!(db.db.get_latest_finalized_version(), SeqNum(1));

    let acc = db.account(&addr).expect("persisted read");
    assert_eq!(acc.nonce, 1);
    assert_eq!(acc.balance, U256::from_u64(5000));
    assert_eq!(db.slot(&addr, &slot), val);
}

#[test]
fn test_overlay_chain_walk() {
    let mut db = tmp_db();
    db.init_genesis(&make_header(0), &StateDeltas::new(), &CodeMap::new());

    let addr = FixedBytes([0x22; 20]);
    let genesis_block_id = make_block_id(0);
    let block1_id = make_block_id(1);
    let block2_id = make_block_id(2);

    let acc1 = make_account(1, 100);
    db.db.set_block_and_prefix(SeqNum(0), genesis_block_id);
    db.commit(block1_id, &make_header(1), &make_state_deltas(addr, None, Some(acc1), vec![]));

    let acc2 = make_account(2, 200);
    db.db.set_block_and_prefix(SeqNum(1), block1_id);
    db.commit(
        block2_id,
        &make_header(2),
        &make_state_deltas(addr, Some(acc1), Some(acc2), vec![]),
    );

    db.db.set_block_and_prefix(SeqNum(2), block2_id);
    assert_eq!(db.account(&addr).expect("overlay chain walk to block 2").nonce, 2);

    db.db.set_block_and_prefix(SeqNum(1), block1_id);
    assert_eq!(db.account(&addr).expect("overlay chain walk to block 1").nonce, 1);
}

#[test]
fn test_multi_block_finalize() {
    let mut db = tmp_db();
    db.init_genesis(&make_header(0), &StateDeltas::new(), &CodeMap::new());

    let addr = FixedBytes([0x33; 20]);
    let mut prev_block_id = make_block_id(0);
    let mut prev_acc: Option<EthAccount> = None;

    for i in 1..=5u64 {
        let acc = make_account(i, i * 1000);
        let block_id = make_block_id(i as u8);
        let deltas = make_state_deltas(addr, prev_acc, Some(acc), vec![]);

        db.db.set_block_and_prefix(SeqNum(i - 1), prev_block_id);
        db.commit(block_id, &make_header(i), &deltas);
        db.finalize(SeqNum(i), block_id);

        assert_eq!(db.db.get_latest_finalized_version(), SeqNum(i));
        assert_eq!(db.account(&addr).expect("account persisted").nonce, i);

        prev_block_id = block_id;
        prev_acc = Some(acc);
    }
}

#[test]
fn test_batch_finalize() {
    let mut db = tmp_db();
    db.init_genesis(&make_header(0), &StateDeltas::new(), &CodeMap::new());

    let addr = FixedBytes([0x44; 20]);
    let genesis_id = make_block_id(0);
    let block1_id = make_block_id(1);
    let block2_id = make_block_id(2);
    let block3_id = make_block_id(3);

    let acc1 = make_account(1, 100);
    db.db.set_block_and_prefix(SeqNum(0), genesis_id);
    db.commit(block1_id, &make_header(1), &make_state_deltas(addr, None, Some(acc1), vec![]));

    let acc2 = make_account(2, 200);
    db.db.set_block_and_prefix(SeqNum(1), block1_id);
    db.commit(block2_id, &make_header(2), &make_state_deltas(addr, Some(acc1), Some(acc2), vec![]));

    let acc3 = make_account(3, 300);
    db.db.set_block_and_prefix(SeqNum(2), block2_id);
    db.commit(block3_id, &make_header(3), &make_state_deltas(addr, Some(acc2), Some(acc3), vec![]));

    db.finalize(SeqNum(3), block3_id);
    assert_eq!(db.db.get_latest_finalized_version(), SeqNum(3));

    let persisted = db.account(&addr).expect("account persisted");
    assert_eq!(persisted.nonce, 3);
    assert_eq!(persisted.balance, U256::from_u64(300));
}

#[test]
fn test_statesync_apply_and_finalize() {
    let mut db = tmp_db();

    let addr = FixedBytes([0x55; 20]);
    let acc = make_account(10, 99999);
    let code_hash = FixedBytes([0xCC; 32]);
    let code_bytes = vec![0x60, 0x00, 0x60, 0x00, 0xF3];

    let storage_key = FixedBytes([0xDD; 32]);
    let mut value = [0u8; 32];
    value[31] = 42;
    let storage_val = FixedBytes(value);

    let batch = StateSyncBatch {
        accounts: vec![(addr, Some(acc))],
        storage: vec![(addr, storage_key, storage_val)],
        code: vec![(code_hash, code_bytes)],
    };
    db.db.apply_batch(batch, 5);

    assert_eq!(db.account(&addr).expect("account synced").nonce, 10);
    assert_eq!(db.slot(&addr, &storage_key).0[31], 42);
    assert!(db.db.code_exists(&code_hash));
    assert!(!db.db.code_exists(&FixedBytes([0xCD; 32])));
    assert!(db.code(&code_hash).is_some());

    assert!(db.db.finalize_statesync(5));
    assert_eq!(db.db.get_latest_finalized_version(), SeqNum(5));
}

#[test]
fn test_statesync_traverse() {
    let mut db = tmp_db();

    let addr = FixedBytes([0x66; 20]);
    let acc = make_account(7, 12345);
    let batch = StateSyncBatch {
        accounts: vec![(addr, Some(acc))],
        storage: vec![],
        code: vec![],
    };
    db.db.apply_batch(batch, 1);
    db.db.finalize_statesync(1);

    assert!(db.db.db.has_version(1));
    assert!(!db.db.db.has_version(2));

    let stored = db.store.tables.borrow();
    let tables = StateTables {
        accounts: Some(stored.accounts.iter().map(|(a, acc)| (FixedBytes(*a), *acc)).collect()),
        storage: Some(vec![]),
        code: Some(vec![]),
    };
    let (upserts, complete) = traverse_state(&tables, &vec![]);
    assert!(complete);
    let accounts_found =
        upserts.iter().filter(|u| matches!(u.0, SyncUpsertType::Account)).count();
    assert!(accounts_found >= 1, "should find at least one account");
}

#[test]
fn test_account_destroy() {
    let mut db = tmp_db();

    let addr = FixedBytes([0x77; 20]);
    let acc = make_account(1, 1000);
    let genesis_deltas = make_state_deltas(addr, None, Some(acc), vec![]);
    db.init_genesis(&make_header(0), &genesis_deltas, &CodeMap::new());

    assert_eq!(db.account(&addr).expect("exists after genesis").nonce, 1);

    let block1_id = make_block_id(1);
    let destroy_deltas = make_state_deltas(addr, Some(acc), None, vec![]);
    db.db.set_block_and_prefix(SeqNum(0), make_block_id(0));
    db.commit(block1_id, &make_header(1), &destroy_deltas);
    db.finalize(SeqNum(1), block1_id);

    assert!(db.account(&addr).is_none(), "account should be destroyed");
}

#[test]
fn test_storage_multi_block() {
    let mut db = tmp_db();
    db.init_genesis(&make_header(0), &StateDeltas::new(), &CodeMap::new());

    let addr = FixedBytes([0x88; 20]);
    let slot1 = FixedBytes([0x01; 32]);
    let slot2 = FixedBytes([0x02; 32]);
    let val_a = FixedBytes([0xAA; 32]);
    let val_b = FixedBytes([0xBB; 32]);

    let acc = make_account(1, 100);

    let block1_id = make_block_id(1);
    let deltas1 = make_state_deltas(addr, None, Some(acc), vec![(slot1, ZERO, val_a)]);
    db.db.set_block_and_prefix(SeqNum(0), make_block_id(0));
    db.commit(block1_id, &make_header(1), &deltas1);
    db.finalize(SeqNum(1), block1_id);

    let acc2 = make_account(2, 200);
    let block2_id = make_block_id(2);
    let deltas2 = make_state_deltas(addr, Some(acc), Some(acc2), vec![(slot2, ZERO, val_b)]);
    db.db.set_block_and_prefix(SeqNum(1), block1_id);
    db.commit(block2_id, &make_header(2), &deltas2);
    db.finalize(SeqNum(2), block2_id);

    assert_eq!(db.slot(&addr, &slot1), val_a);
    assert_eq!(db.slot(&addr, &slot2), val_b);
}

#[test]
fn test_restart_recovery() {
    let mut db = tmp_db();

    let addr = FixedBytes([0x99; 20]);
    let acc = make_account(5, 50000);
    let slot = FixedBytes([0x10; 32]);
    let val = FixedBytes([0x20; 32]);

    let genesis_deltas = make_state_deltas(addr, None, Some(acc), vec![(slot, ZERO, val)]);
    db.init_genesis(&make_header(0), &genesis_deltas, &CodeMap::new());

    let acc2 = make_account(6, 60000);
    let deltas1 = make_state_deltas(addr, Some(acc), Some(acc2), vec![]);
    db.db.set_block_and_prefix(SeqNum(0), make_block_id(0));
    db.commit(make_block_id(1), &make_header(1), &deltas1);
    db.finalize(SeqNum(1), make_block_id(1));

    assert_eq!(db.db.get_latest_finalized_version(), SeqNum(1));
    assert_eq!(db.account(&addr).expect("account after finalize").nonce, 6);

    let db2 = reopen_db(db);
    assert_eq!(db2.db.get_latest_finalized_version(), SeqNum(1));

    let read = db2.account(&addr).expect("account survives restart");
    assert_eq!(read.nonce, 6);
    assert_eq!(read.balance, U256::from_u64(60000));
    assert_eq!(db2.slot(&addr, &slot), val);
    assert_eq!(db2.header().number, 1);
}

#[test]
fn test_read_nonexistent() {
    let mut db = tmp_db();
    db.init_genesis(&make_header(0), &StateDeltas::new(), &CodeMap::new());

    let ghost_addr = FixedBytes([0xDE; 20]);
    assert!(db.account(&ghost_addr).is_none());
    assert_eq!(db.slot(&ghost_addr, &FixedBytes([0x01; 32])), ZERO);
}

#[test]
fn test_genesis_with_full_state() {
    let mut db = tmp_db();

    let addr1 = FixedBytes([0xA1; 20]);
    let addr2 = FixedBytes([0xA2; 20]);
    let acc1 = make_account(0, 1_000_000);
    let acc2 = EthAccount {
        nonce: 0,
        balance: U256::from_u64(2_000_000),
        code_hash: Some(FixedBytes([0xCC; 32])),
        is_delegated: false,
    };

    let slot = FixedBytes([0x01; 32]);
    let val = FixedBytes([0xFF; 32]);

    let mut deltas = make_state_deltas(addr1, None, Some(acc1), vec![(slot, ZERO, val)]);
    deltas.insert(addr2, AccountDelta { new_account: Some(acc2), ..AccountDelta::new() });

    let mut code = CodeMap::new();
    code.insert(FixedBytes([0xCC; 32]), vec![0x60, 0x00]);

    db.init_genesis(&make_header(0), &deltas, &code);

    assert_eq!(db.account(&addr1).expect("addr1").balance, U256::from_u64(1_000_000));
    assert_eq!(db.account(&addr2).expect("addr2").balance, U256::from_u64(2_000_000));
    assert_eq!(db.slot(&addr1, &slot), val);

    let db2 = reopen_db(db);
    let r1 = db2.account(&addr1).expect("addr1 after restart");
    assert_eq!(r1.balance, U256::from_u64(1_000_000));
    let r2 = db2.account(&addr2).expect("addr2 after restart");
    assert_eq!(r2.balance, U256::from_u64(2_000_000));
    assert_eq!(db2.slot(&addr1, &slot), val);
}

#[test]
fn test_overlay_fork_isolation() {
    let mut db = tmp_db();
    db.init_genesis(&make_header(0), &StateDeltas::new(), &CodeMap::new());

    let addr = FixedBytes([0xBB; 20]);
    let genesis_id = make_block_id(0);

    let acc_a = make_account(10, 100);
    let block_a = make_block_id(0xA1);
    db.db.set_block_and_prefix(SeqNum(0), genesis_id);
    db.commit(block_a, &make_header(1), &make_state_deltas(addr, None, Some(acc_a), vec![]));

    let acc_b = make_account(20, 200);
    let block_b = make_block_id(0xB1);
    db.db.set_block_and_prefix(SeqNum(0), genesis_id);
    db.commit(block_b, &make_header(1), &make_state_deltas(addr, None, Some(acc_b), vec![]));

    db.db.set_block_and_prefix(SeqNum(1), block_a);
    assert_eq!(db.account(&addr).unwrap().nonce, 10);

    db.db.set_block_and_prefix(SeqNum(1), block_b);
    assert_eq!(db.account(&addr).unwrap().nonce, 20);

    db.finalize(SeqNum(1), block_a);
    assert_eq!(db.account(&addr).expect("fork A persisted").nonce, 10);
}

#[test]
fn test_has_executed_semantics() {
    let mut db = tmp_db();
    db.init_genesis(&make_header(0), &StateDeltas::new(), &CodeMap::new());

    let block1 = make_block_id(1);
    let block_fake = make_block_id(0xFF);

    assert!(!db.db.has_executed(&block1, SeqNum(1)));

    db.db.set_block_and_prefix(SeqNum(0), make_block_id(0));
    db.db.commit(block1, &make_header(1), Bundle::default(), &vec![], &vec![]);
    assert!(db.db.has_executed(&block1, SeqNum(1)));

    assert!(!db.db.has_executed(&block_fake, SeqNum(1)));

    db.finalize(SeqNum(1), block1);
    assert!(db.db.has_executed(&block1, SeqNum(1)));
    assert!(db.db.has_executed(&block_fake, SeqNum(1)));
}

#[test]
fn storage_of_a_deleted_account_goes_once_the_deletion_is_final() {
    let mut db = tmp_db();
    let addr = FixedBytes([0x12; 20]);
    let slot = FixedBytes([0x01; 32]);
    let fresh = FixedBytes([0x02; 32]);
    let val = FixedBytes([0xFF; 32]);
    let acc = make_account(1, 10);
    let genesis = make_state_deltas(addr, None, Some(acc), vec![(slot, ZERO, val)]);
    db.init_genesis(&make_header(0), &genesis, &CodeMap::new());

    db.db.set_block_and_prefix(SeqNum(0), make_block_id(0));
    db.commit(make_block_id(1), &make_header(1), &make_state_deltas(addr, Some(acc), None, vec![]));
    db.db.set_block_and_prefix(SeqNum(1), make_block_id(1));
    assert!(db.account(&addr).is_none());
    assert_eq!(db.slot(&addr, &slot), val);

    let again = make_account(7, 70);
    db.commit(
        make_block_id(2),
        &make_header(2),
        &make_state_deltas(addr, None, Some(again), vec![(fresh, ZERO, val)]),
    );
    db.db.set_block_and_prefix(SeqNum(2), make_block_id(2));
    assert_eq!(db.account(&addr).unwrap().nonce, 7);
    assert_eq!(db.slot(&addr, &fresh), val);

    db.finalize(SeqNum(2), make_block_id(2));
    assert_eq!(db.account(&addr).unwrap().nonce, 7);
    assert_eq!(db.slot(&addr, &slot), ZERO);
    assert_eq!(db.slot(&addr, &fresh), val);
}

#[test]
fn code_is_read_from_the_chain_and_from_storage() {
    let mut db = tmp_db();
    db.init_genesis(&make_header(0), &StateDeltas::new(), &CodeMap::new());
    let addr = FixedBytes([0x13; 20]);
    let hash = FixedBytes([0x31; 32]);
    let acc = EthAccount { code_hash: Some(hash), ..make_account(1, 1) };
    let mut code = CodeMap::new();
    code.insert(hash, vec![0x60, 0x01]);
    let deltas = make_state_deltas(addr, None, Some(acc), vec![]);
    db.db.set_block_and_prefix(SeqNum(0), make_block_id(0));
    let bundle = state_deltas_to_bundle(&deltas, &code);
    db.db.commit(make_block_id(1), &make_header(1), bundle, &vec![], &vec![]);
    db.db.set_block_and_prefix(SeqNum(1), make_block_id(1));
    let staged = db.code(&hash).expect("staged code");
    assert_eq!(staged[..2], [0x60, 0x01]);
    assert_eq!(db.account(&addr).unwrap().code_hash, Some(hash));

    db.finalize(SeqNum(1), make_block_id(1));
    assert_eq!(db.code(&hash), Some(vec![0x60, 0x01]));
    assert!(db.code(&FixedBytes([0x32; 32])).is_none());
}

#[test]
fn transactions_are_numbered_from_block_to_block() {
    let mut db = tmp_db();
    db.init_genesis(&make_header(0), &StateDeltas::new(), &CodeMap::new());
    let txs = |n: usize| (0..n).map(|i| TxEnvelope { rlp: vec![i as u8] }).collect::<Vec<_>>();
    let receipt = |gas: u64| {
        ReceiptEnvelope::Eip1559(ReceiptWithBloom {
            status: Eip658Value::Eip658(true),
            cumulative_gas_used: gas,
            logs: vec![],
            logs_bloom: FixedBytes([0; 256]),
        })
    };
    db.db.set_block_and_prefix(SeqNum(0), make_block_id(0));
    db.db.commit(make_block_id(1), &make_header(1), Bundle::empty(), &vec![receipt(3)], &txs(3));
    db.db.set_block_and_prefix(SeqNum(1), make_block_id(1));
    db.db.commit(make_block_id(2), &make_header(2), Bundle::empty(), &vec![], &txs(2));
    let last = Some(StoredBlockBodyIndices { first_tx_num: 10, tx_count: 5 });
    match db.db.db.plan_finalize(SeqNum(2), make_block_id(2), last) {
        FinalizePlan::Flush(plan) => {
            assert_eq!((plan.first_block, plan.last_block), (1, 2));
            assert_eq!(plan.rows.len(), 2);
            assert_eq!((plan.rows[0].first_tx_num, plan.rows[0].tx_count), (15, 3));
            assert_eq!((plan.rows[1].first_tx_num, plan.rows[1].tx_count), (18, 2));
            assert_eq!(plan.rows[1].hash, compute_block_hash(&make_header(2)));
            assert_eq!(plan.receipts[0][0].cumulative_gas_used, 3);
            assert!(plan.receipts[1].is_empty());
        }
        _ => panic!("expected something to write"),
    }
    let full = Some(StoredBlockBodyIndices { first_tx_num: u64::MAX - 4, tx_count: 0 });
    assert!(matches!(
        db.db.db.plan_finalize(SeqNum(2), make_block_id(2), full),
        FinalizePlan::OutOfNumbers
    ));
    assert!(matches!(
        db.db.db.plan_finalize(SeqNum(1), make_block_id(9), last),
        FinalizePlan::Nothing
    ));
}

#[test]
fn a_merged_chain_has_its_latest_values_and_all_its_steps_back() {
    let addr = FixedBytes([0x14; 20]);
    let slot = FixedBytes([0x01; 32]);
    let one = FixedBytes([0x11; 32]);
    let two = FixedBytes([0x22; 32]);
    let acc1 = make_account(1, 10);
    let acc2 = make_account(2, 20);
    let mut db = RethExecutionDb::recover(Some(0), None);
    db.set_block_and_prefix(SeqNum(0), make_block_id(0));
    let first = bundle_of(&make_state_deltas(addr, None, Some(acc1), vec![(slot, ZERO, one)]));
    db.commit(make_block_id(1), &make_header(1), first, &vec![], &vec![]);
    db.set_block_and_prefix(SeqNum(1), make_block_id(1));
    let second =
        bundle_of(&make_state_deltas(addr, Some(acc1), Some(acc2), vec![(slot, one, two)]));
    db.commit(make_block_id(2), &make_header(2), second, &vec![], &vec![]);

    let chain = db.chain(SeqNum(2), make_block_id(2));
    assert_eq!(chain.len(), 2);
    let merged = merge_chain(&chain).expect("known code");
    let account = merged.account(&alloy_primitives::Address::repeat_byte(0x14)).expect("account");
    let info = account.info.as_ref().expect("info");
    assert_eq!(info.nonce, 2);
    assert_eq!(info.balance, alloy_primitives::U256::from(20));
    let key = alloy_primitives::U256::from_be_bytes([0x01; 32]);
    let present = account.storage.get(&key).expect("slot").present_value;
    assert_eq!(present, alloy_primitives::U256::from_be_bytes([0x22; 32]));
    assert_eq!(merged.reverts.len(), 2);
}

#[test]
fn a_deleted_account_takes_its_slots_out_of_the_merged_chain() {
    let addr = FixedBytes([0x15; 20]);
    let old = FixedBytes([0x01; 32]);
    let new = FixedBytes([0x02; 32]);
    let val = FixedBytes([0x11; 32]);
    let acc = make_account(1, 10);
    let mut db = RethExecutionDb::recover(Some(0), None);
    let steps = vec![
        make_state_deltas(addr, None, Some(acc), vec![(old, ZERO, val)]),
        make_state_deltas(addr, Some(acc), None, vec![]),
        make_state_deltas(addr, None, Some(acc), vec![(new, ZERO, val)]),
    ];
    for (i, deltas) in steps.iter().enumerate() {
        db.set_block_and_prefix(SeqNum(i as u64), make_block_id(i as u8));
        let number = i as u64 + 1;
        let id = make_block_id(number as u8);
        db.commit(id, &make_header(number), bundle_of(deltas), &vec![], &vec![]);
    }
    let merged = merge_chain(&db.chain(SeqNum(3), make_block_id(3))).expect("known code");
    let account = merged.account(&alloy_primitives::Address::repeat_byte(0x15)).expect("account");
    let key = |b: u8| alloy_primitives::U256::from_be_bytes([b; 32]);
    assert!(!account.storage.contains_key(&key(0x01)));
    assert_eq!(account.storage.get(&key(0x02)).expect("slot").present_value, key(0x11));
}

#[test]
fn no_chain_merges_to_nothing() {
    let merged = merge_chain(&vec![]).expect("nothing to merge");
    assert!(merged.state.is_empty());
    assert!(merged.reverts.is_empty());
}

#[test]
fn a_bundle_says_how_accounts_changed() {
    let created = FixedBytes([1; 20]);
    let changed = FixedBytes([2; 20]);
    let deleted = FixedBytes([3; 20]);
    let mut deltas = make_state_deltas(created, None, Some(make_account(1, 1)), vec![]);
    deltas.insert(
        changed,
        AccountDelta {
            old_account: Some(make_account(1, 1)),
            new_account: Some(make_account(2, 1)),
            ..AccountDelta::new()
        },
    );
    deltas.insert(
        deleted,
        AccountDelta { old_account: Some(make_account(1, 1)), ..AccountDelta::new() },
    );
    let bundle = bundle_of(&deltas);
    assert_eq!(bundle.state.len(), 3);
    assert_eq!(bundle.state.get(&created).unwrap().status, AccountStatus::InMemoryChange);
    assert_eq!(bundle.state.get(&changed).unwrap().status, AccountStatus::Changed);
    assert_eq!(bundle.state.get(&deleted).unwrap().status, AccountStatus::Destroyed);
    assert!(bundle.state.get(&deleted).unwrap().info.is_none());

    let deletions = extract_deletions_from_bundle(&bundle);
    assert_eq!(deletions.len(), 1);
    assert_eq!(deletions[0].address, deleted);
}

#[test]
fn code_is_padded_as_it_is_executed() {
    let code = vec![0x60, 0x01, 0x60];
    let expected = revm::bytecode::Bytecode::new_raw(code.clone().into());
    let executed = executed_code(code.clone());
    assert_eq!(executed, expected.bytes_slice());
    assert!(executed.len() > code.len());

    assert!(is_valid_code(&vec![]));
    assert!(!is_valid_code(&vec![0xef, 0x01]));
    assert!(!is_valid_code(&vec![0xef, 0x01, 0x01]));
    let mut delegation = vec![0xef, 0x01, 0x00];
    delegation.extend([0x77u8; 20]);
    assert!(is_valid_code(&delegation));
    assert_eq!(executed_code(delegation.clone()), delegation);
    assert_eq!(executed_code(vec![0xef, 0x01]), vec![0xef, 0x01]);
}

#[test]
fn accounts_come_back_from_storage_as_they_went_in() {
    let acc = EthAccount { code_hash: Some(FixedBytes([5; 32])), ..make_account(3, 4) };
    assert_eq!(reth_to_monad_account(&monad_to_reth_account(&acc)), acc);
    assert_eq!(account_info_to_monad(&monad_to_account_info(&acc)), acc);

    let plain = make_account(3, 4);
    assert_eq!(monad_to_account_info(&plain).code_hash, keccak_empty());
    assert_eq!(account_info_to_monad(&monad_to_account_info(&plain)), plain);

    let spelled = EthAccount { code_hash: Some(keccak_empty()), ..make_account(3, 4) };
    assert_eq!(reth_to_monad_account(&monad_to_reth_account(&spelled)), plain);
}

#[test]
fn receipts_are_stored_with_their_success() {
    let log = || Log {
        address: FixedBytes([1; 20]),
        topics: vec![FixedBytes([2; 32])],
        data: vec![3, 4],
    };
    let envelope = |status| {
        ReceiptEnvelope::Eip2930(ReceiptWithBloom {
            status,
            cumulative_gas_used: 9,
            logs: vec![log()],
            logs_bloom: FixedBytes([0; 256]),
        })
    };
    let failed = receipt_envelope_to_reth(&envelope(Eip658Value::Eip658(false)));
    assert!(!failed.success);
    assert_eq!(failed.tx_type, TxType::Eip2930);
    assert_eq!(failed.cumulative_gas_used, 9);
    assert_eq!(failed.logs.len(), 1);
    assert_eq!(failed.logs[0].data, vec![3, 4]);
    assert!(receipt_envelope_to_reth(&envelope(Eip658Value::Eip658(true))).success);
    let root = Eip658Value::PostState(FixedBytes([0; 32]));
    assert!(receipt_envelope_to_reth(&envelope(root)).success);
}

#[test]
fn the_prefix_of_the_hashed_address_decides_what_is_sent() {
    let addr = FixedBytes([0x66; 20]);
    let hash = alloy_primitives::keccak256([0x66; 20]);
    let tables = || StateTables {
        accounts: Some(vec![(addr, monad_to_reth_account(&make_account(7, 1)))]),
        storage: Some(vec![(
            addr,
            StorageEntry { key: FixedBytes([1; 32]), value: U256::from_u64(5) },
        )]),
        code: Some(vec![(FixedBytes([9; 32]), vec![0x60])]),
    };
    let kinds = |prefix: Vec<u8>| -> Vec<SyncUpsertType> {
        traverse_state(&tables(), &prefix).0.iter().map(|u| u.0).collect()
    };
    let all = vec![SyncUpsertType::Account, SyncUpsertType::Storage, SyncUpsertType::Code];
    assert_eq!(kinds(vec![hash.0[0]]), all);
    assert_eq!(kinds(hash.0[..2].to_vec()), all);
    assert_eq!(kinds(vec![hash.0[0] ^ 1]), vec![SyncUpsertType::Code]);

    let broken = StateTables { storage: None, ..tables() };
    let (upserts, complete) = traverse_state(&broken, &vec![]);
    assert!(!complete);
    assert_eq!(upserts.len(), 1);
}

#[test]
fn a_batch_is_written_under_addresses_and_their_hashes() {
    let addr = FixedBytes([0x55; 20]);
    let hash = FixedBytes(alloy_primitives::keccak256([0x55; 20]).0);
    let key = FixedBytes([0xDD; 32]);
    let hashed_key = FixedBytes(alloy_primitives::keccak256([0xDD; 32]).0);
    let ops = plan_batch(&StateSyncBatch {
        accounts: vec![(addr, None)],
        storage: vec![(addr, key, FixedBytes([1; 32]))],
        code: vec![(FixedBytes([2; 32]), vec![3])],
    });
    assert_eq!(ops.len(), 5);
    assert!(matches!(&ops[0], TableOp::DeleteAccount { address } if *address == addr));
    assert!(matches!(&ops[1], TableOp::DeleteHashedAccount { hash: h } if *h == hash));
    assert!(matches!(&ops[2], TableOp::PutStorage { entry, .. } if entry.key == key));
    match &ops[3] {
        TableOp::PutHashedStorage { hash: h, entry } => {
            assert_eq!(*h, hash);
            assert_eq!(entry.key, hashed_key);
            assert_eq!(entry.value, U256(FixedBytes([1; 32])));
        }
        _ => panic!("expected a hashed slot"),
    }
    assert!(matches!(&ops[4], TableOp::PutCode { code, .. } if *code == vec![3]));
}

#[test]
fn synced_headers_are_stored_by_their_number() {
    let header = make_header(7);
    let rows = plan_block_headers(&vec![(7, encode_header(&header)), (8, vec![0xff])]);
    assert_eq!(rows.len(), 1);
    assert_eq!(rows[0].number, 7);
    assert_eq!(rows[0].hash, compute_block_hash(&header));

    assert_eq!(read_block_header_at(&Some(header.copy())), Some(encode_header(&header)));
    assert_eq!(read_block_header_at(&None), None);
    assert!(has_stored_version(SeqNum(5), 5));
    assert!(!has_stored_version(SeqNum(5), 6));
}

#[test]
fn the_backend_reads_what_is_final() {
    let mut backend = RethStateBackend::new();
    let accounts = vec![FixedBytes([1; 20]), FixedBytes([2; 20])];
    let stored = Account { nonce: 3, balance: U256::from_u64(4), bytecode_hash: None };
    let read = |a: &Address| if a.0[0] == 1 { Some(stored) } else { None };
    let statuses = backend
        .get_account_statuses(Some(SeqNum(5)), SeqNum(5), &accounts, read)
        .expect("block 5 is final");
    assert_eq!(statuses.len(), 2);
    assert_eq!(statuses[0].unwrap().nonce, 3);
    assert!(statuses[1].is_none());
    assert_eq!(backend.total_db_lookups(), 2);

    let early = backend.get_account_statuses(Some(SeqNum(5)), SeqNum(6), &accounts, read);
    assert!(matches!(early, Err(StateBackendError::NotAvailableYet)));
    assert_eq!(last_block_number(None), SeqNum(0));
    assert_eq!(last_block_number(Some(4)), SeqNum(4));
    assert_eq!(read_latest_finalized(SeqNum(0), false), None);
    assert_eq!(read_latest_finalized(SeqNum(0), true), Some(SeqNum(0)));
    assert_eq!(read_latest_finalized(SeqNum(3), false), Some(SeqNum(3)));
    assert_eq!(backend.raw_read_latest_finalized_block(Some(SeqNum(3))), Some(SeqNum(3)));
    assert_eq!(backend.raw_read_earliest_finalized_block(None), None);
}

#[test]
fn only_finalizing_and_batches_write_to_storage() {
    let mut db = tmp_db();
    let addr = FixedBytes([0x22; 20]);
    let deltas = make_state_deltas(addr, None, Some(make_account(1, 1)), vec![]);
    db.db.set_block_and_prefix(SeqNum(0), make_block_id(0));
    db.commit(make_block_id(1), &make_header(1), &deltas);
    db.db.update_proposed_metadata(SeqNum(1), make_block_id(1));
    db.db.update_voted_metadata(SeqNum(1), make_block_id(1));
    db.db.update_verified_block(SeqNum(0));
    assert_eq!(db.store.writes.get(), 0);

    db.finalize(SeqNum(1), make_block_id(9));
    assert_eq!(db.store.writes.get(), 0);
    db.finalize(SeqNum(1), make_block_id(1));
    assert_eq!(db.store.writes.get(), 1);

    let batch = StateSyncBatch {
        accounts: vec![(addr, None)],
        storage: vec![],
        code: vec![(FixedBytes([0xCC; 32]), vec![0x00])],
    };
    db.db.apply_batch(batch, 2);
    assert_eq!(db.store.writes.get(), 2);
    assert!(db.db.code_exists(&FixedBytes([0xCC; 32])));
    db.db.finalize_statesync(2);
    assert_eq!(db.store.writes.get(), 2);
}

#[test]
fn a_chain_that_storage_does_not_take_stays_proposed() {
    let mut db = tmp_db();
    db.init_genesis(&make_header(0), &StateDeltas::new(), &CodeMap::new());
    let addr = FixedBytes([0x21; 20]);
    let deltas = make_state_deltas(addr, None, Some(make_account(4, 1)), vec![]);
    db.db.set_block_and_prefix(SeqNum(0), make_block_id(0));
    db.commit(make_block_id(1), &make_header(1), &deltas);
    db.db.set_block_and_prefix(SeqNum(1), make_block_id(1));
    assert!(StateSyncApplierDb::read_account(&db.db, &addr).is_none());

    db.store.broken.set(true);
    db.finalize(SeqNum(1), make_block_id(1));
    assert_eq!(db.db.get_latest_finalized_version(), SeqNum(0));
    assert_eq!(db.account(&addr).map(|a| a.nonce), Some(4));
    assert!(StateSyncApplierDb::read_account(&db.db, &addr).is_none());

    db.store.broken.set(false);
    db.finalize(SeqNum(1), make_block_id(9));
    assert_eq!(db.db.get_latest_finalized_version(), SeqNum(0));
    db.finalize(SeqNum(1), make_block_id(1));
    assert_eq!(db.db.get_latest_finalized_version(), SeqNum(1));
    assert_eq!(StateSyncApplierDb::read_account(&db.db, &addr).map(|a| a.nonce), Some(4));
    assert_eq!(db.db.get_latest_version(), 1);
    assert_eq!(db.db.state_root(), FixedBytes([0xAB; 32]));
    assert!(!db.db.code_exists(&FixedBytes([0x77; 32])));
}

#[test]
fn blocks_in_a_circle_leave_reads_to_storage() {
    let mut db = tmp_db();
    let addr = FixedBytes([0x22; 20]);
    let gone = make_state_deltas(addr, None, Some(make_account(9, 1)), vec![]);
    db.db.set_block_and_prefix(SeqNum(2), make_block_id(2));
    db.commit(make_block_id(1), &make_header(1), &gone);
    db.db.set_block_and_prefix(SeqNum(1), make_block_id(1));
    db.commit(make_block_id(2), &make_header(2), &StateDeltas::new());
    assert!(!db.db.can_finalize(SeqNum(2), make_block_id(2)));
    assert_eq!(db.account(&addr), None);
    assert_eq!(db.slot(&addr, &ZERO), ZERO);
    assert!(db.code(&ZERO).is_none());
}
