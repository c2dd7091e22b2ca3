use std::collections::VecDeque;

use tokio::sync::broadcast;

use monad_execution::bundle::{
    AccountInfo, AccountStatus, Bundle, BundleAccount, StorageSlot,
};
use monad_execution::command::ExecutionCommand;
use monad_execution::ethcall::{CallResult, EthCallHandler, MonadTracer, StateOverrideSet};
use monad_execution::event_source::{next_step, RecvOutcome, SourceStep};
use monad_execution::events::ExecutionEvent;
use monad_execution::header::{BlockHeader, ProposedEthHeader};
use monad_execution::keymap::KeyMap;
use monad_execution::mock::db::InMemoryExecutionDb;
use monad_execution::mock::ethcall::MockEthCallHandler;
use monad_execution::mock::executor::MockBlockExecutor;
use monad_execution::mock::recovery::{MockSignatureRecovery, SignatureRecovery};
use monad_execution::mock::statesync::MockStateSyncProvider;
use monad_execution::primitives::{Address, BlockId, FixedBytes, SeqNum, B256, U256};
use monad_execution::propose::genesis_block_id;
use monad_execution::runloop::{ExecuteStatus, RunLoop, RunStatus, ToExecute};
use monad_execution::statesync::server_db::StateSyncServerDb;
use monad_execution::statesync::types::StateSyncRequest;
use monad_execution::statesync::StateSyncProvider;
use monad_execution::traits::{ExecutionDb, ExecutionError};
use monad_execution::types::{keccak_empty, ConsensusFullBlock, Transaction};
use monad_execution::validation::{compute_block_hash, validate_live_execution_outputs};

fn make_consensus_block(seq_num: u64, round: u64) -> ConsensusFullBlock {
    ConsensusFullBlock {
        id: BlockId(FixedBytes([round as u8; 32])),
        parent_id: genesis_block_id(),
        seq_num: SeqNum(seq_num),
        execution_inputs: ProposedEthHeader {
            number: seq_num,
            gas_limit: 30_000_000,
            ..ProposedEthHeader::default()
        },
        execution_results: Vec::new(),
        transactions: Vec::new(),
        ommers: Vec::new(),
        withdrawals: Vec::new(),
    }
}

fn engine() -> RunLoop<StateSyncServerDb<InMemoryExecutionDb>, MockBlockExecutor> {
    RunLoop::new(StateSyncServerDb::new(InMemoryExecutionDb::new()), MockBlockExecutor::new())
}

fn kind(event: &ExecutionEvent) -> &'static str {
    match event {
        ExecutionEvent::BlockProposed { .. } => "proposed",
        ExecutionEvent::BlockVoted { .. } => "voted",
        ExecutionEvent::BlockFinalized { .. } => "finalized",
        ExecutionEvent::BlockVerified { .. } => "verified",
    }
}

fn batch(cmds: Vec<ExecutionCommand>) -> VecDeque<ExecutionCommand> {
    VecDeque::from(cmds)
}

#[test]
fn test_propose_execute_finalize_flow() {
    let mut engine = engine();

    let block = make_consensus_block(1, 1);
    let block_id = block.id;

    let outcome = engine.run_batch(batch(vec![ExecutionCommand::Propose { block_id, block }]));
    assert!(matches!(outcome.status, RunStatus::Running));
    assert_eq!(outcome.events.len(), 1);
    match &outcome.events[0] {
        ExecutionEvent::BlockProposed { seq_num, block_id: bid, .. } => {
            assert_eq!(*seq_num, SeqNum(1));
            assert_eq!(*bid, block_id);
        }
        _ => panic!("expected BlockProposed"),
    }

    let outcome = engine.run_batch(batch(vec![ExecutionCommand::Finalize {
        seq_num: SeqNum(1),
        block_id,
        block: make_consensus_block(1, 1),
    }]));
    assert!(matches!(outcome.status, RunStatus::Running));
    assert_eq!(outcome.events.len(), 2);
    match &outcome.events[0] {
        ExecutionEvent::BlockFinalized { seq_num, block_id: bid } => {
            assert_eq!(*seq_num, SeqNum(1));
            assert_eq!(*bid, block_id);
        }
        _ => panic!("expected BlockFinalized"),
    }
    match &outcome.events[1] {
        ExecutionEvent::BlockVerified { seq_num } => assert_eq!(*seq_num, SeqNum(1)),
        _ => panic!("expected BlockVerified"),
    }
}

#[test]
fn test_multiple_blocks_sequential() {
    let mut engine = engine();

    for i in 1..=3u64 {
        let block = make_consensus_block(i, i);
        let block_id = block.id;

        let outcome = engine.run_batch(batch(vec![ExecutionCommand::Propose { block_id, block }]));
        match &outcome.events[0] {
            ExecutionEvent::BlockProposed { seq_num, .. } => assert_eq!(*seq_num, SeqNum(i)),
            _ => panic!("expected BlockProposed"),
        }

        let outcome = engine.run_batch(batch(vec![ExecutionCommand::Finalize {
            seq_num: SeqNum(i),
            block_id,
            block: make_consensus_block(i, i),
        }]));
        assert!(matches!(
            &outcome.events[0],
            ExecutionEvent::BlockFinalized { seq_num, .. } if *seq_num == SeqNum(i)
        ));
        assert!(matches!(
            &outcome.events[1],
            ExecutionEvent::BlockVerified { seq_num } if *seq_num == SeqNum(i)
        ));
    }
}

#[test]
fn test_graceful_shutdown() {
    let mut engine = engine();
    let outcome = engine.run_batch(batch(vec![ExecutionCommand::Shutdown]));
    assert!(matches!(outcome.status, RunStatus::ShutDown));
    assert!(outcome.events.is_empty());
}

fn next_event(rx: &mut broadcast::Receiver<ExecutionEvent>) -> Option<ExecutionEvent> {
    let mut read_again = false;
    loop {
        let received = rx.blocking_recv();
        let outcome = match &received {
            Ok(_) => RecvOutcome::Received,
            Err(broadcast::error::RecvError::Lagged(n)) => RecvOutcome::Lagged(*n),
            Err(broadcast::error::RecvError::Closed) => RecvOutcome::Closed,
        };
        match next_step(read_again, outcome) {
            SourceStep::Deliver => return received.ok(),
            SourceStep::ReadAgain => read_again = true,
            SourceStep::End => return None,
        }
    }
}

#[test]
fn test_channel_event_source() {
    let (tx, mut rx) = broadcast::channel::<ExecutionEvent>(16);

    assert!(tx
        .send(ExecutionEvent::BlockVoted { seq_num: SeqNum(42), block_id: genesis_block_id() })
        .is_ok());

    match next_event(&mut rx) {
        Some(ExecutionEvent::BlockVoted { seq_num, .. }) => assert_eq!(seq_num, SeqNum(42)),
        _ => panic!("expected BlockVoted"),
    }

    drop(tx);
    assert!(next_event(&mut rx).is_none());
}

#[test]
fn a_source_that_fell_behind_reads_once_more() {
    assert_eq!(next_step(false, RecvOutcome::Received), SourceStep::Deliver);
    assert_eq!(next_step(false, RecvOutcome::Closed), SourceStep::End);
    assert_eq!(next_step(false, RecvOutcome::Lagged(3)), SourceStep::ReadAgain);
    assert_eq!(next_step(true, RecvOutcome::Received), SourceStep::Deliver);
    assert_eq!(next_step(true, RecvOutcome::Lagged(3)), SourceStep::End);
    assert_eq!(next_step(true, RecvOutcome::Closed), SourceStep::End);
}

#[test]
fn test_mock_ethcall_handler() {
    let handler = MockEthCallHandler::new();
    let overrides = StateOverrideSet::new();

    let result = handler.eth_call(
        1,
        vec![],
        vec![],
        FixedBytes([0; 20]),
        SeqNum(1),
        None,
        &overrides,
        MonadTracer::NoopTracer,
        false,
    );

    match result {
        CallResult::Success(success) => assert_eq!(success.gas_used, 21000),
        _ => panic!("expected Success"),
    }
}

#[test]
fn test_mock_statesync_provider() {
    let db = InMemoryExecutionDb::with_finalized(10);
    let provider = MockStateSyncProvider::new(db);

    let request = StateSyncRequest {
        prefix: 256,
        prefix_bytes: 2,
        target: 5,
        from: 0,
        until: 5,
        old_target: u64::MAX,
    };

    let result = provider.handle_sync_request(&request);
    assert!(result.is_ok());
    let result = result.unwrap();
    assert!(result.done.success);
    assert_eq!(result.done.prefix, 256);
}

#[test]
fn test_in_memory_db_state() {
    let mut db = InMemoryExecutionDb::new();

    let addr: Address = FixedBytes([0xAA; 20]);
    let slot: B256 = FixedBytes([0xBB; 32]);
    let value: B256 = FixedBytes([0xCC; 32]);

    assert!(db.read_account(&addr).is_none());
    assert_eq!(db.read_storage(&addr, &slot), FixedBytes([0; 32]));

    let info = AccountInfo { balance: U256::from_u64(1000), nonce: 1, code_hash: keccak_empty() };
    let mut storage = KeyMap::new();
    storage.insert(
        U256(slot),
        StorageSlot {
            previous_or_original_value: U256::from_u64(0),
            present_value: U256(value),
        },
    );
    let mut bundle = Bundle::empty();
    bundle.state.insert(
        addr,
        BundleAccount {
            info: Some(info),
            original_info: None,
            storage,
            status: AccountStatus::InMemoryChange,
        },
    );

    let header = BlockHeader { number: 1, ..BlockHeader::empty() };
    let block_id = BlockId(FixedBytes([0x01; 32]));
    db.commit(block_id, &header, bundle, &vec![], &vec![]);

    let stored_account = db.read_account(&addr).unwrap();
    assert_eq!(stored_account.nonce, 1);
    assert_eq!(db.read_storage(&addr, &slot), value);

    assert!(db.has_executed(&block_id, SeqNum(1)));
    assert!(!db.has_executed(&genesis_block_id(), SeqNum(1)));
}

#[test]
fn a_block_is_not_executed_twice() {
    let mut engine = engine();
    let id = BlockId(FixedBytes([1; 32]));
    let first = ExecutionCommand::Propose { block_id: id, block: make_consensus_block(1, 1) };
    assert_eq!(engine.run_batch(batch(vec![first])).events.len(), 1);
    let again = ExecutionCommand::Propose { block_id: id, block: make_consensus_block(1, 1) };
    assert_eq!(engine.run_batch(batch(vec![again])).events.len(), 0);
}

#[test]
fn a_block_that_was_not_proposed_is_executed_before_it_is_finalized() {
    let mut engine = engine();
    let id = BlockId(FixedBytes([1; 32]));
    let outcome = engine.run_batch(batch(vec![ExecutionCommand::Finalize {
        seq_num: SeqNum(1),
        block_id: id,
        block: make_consensus_block(1, 1),
    }]));
    assert_eq!(outcome.events.len(), 3);
    assert!(matches!(&outcome.events[0], ExecutionEvent::BlockProposed { .. }));
    assert!(matches!(&outcome.events[1], ExecutionEvent::BlockFinalized { .. }));
    assert!(matches!(&outcome.events[2], ExecutionEvent::BlockVerified { .. }));
}

#[test]
fn a_batch_executes_before_it_finalizes() {
    let mut engine = engine();
    let first = BlockId(FixedBytes([1; 32]));
    let second = BlockId(FixedBytes([2; 32]));
    let child = ConsensusFullBlock { parent_id: first, ..make_consensus_block(2, 2) };
    let outcome = engine.run_batch(batch(vec![
        ExecutionCommand::Finalize {
            seq_num: SeqNum(1),
            block_id: first,
            block: make_consensus_block(1, 1),
        },
        ExecutionCommand::Propose { block_id: second, block: child },
    ]));
    let kinds: Vec<&str> = outcome.events.iter().map(kind).collect();
    assert_eq!(kinds, vec!["proposed", "voted", "proposed", "finalized", "verified"]);
}

#[test]
fn a_stop_in_a_batch_leaves_the_rest_undone() {
    let mut engine = engine();
    let id = BlockId(FixedBytes([1; 32]));
    let outcome = engine.run_batch(batch(vec![
        ExecutionCommand::Propose { block_id: id, block: make_consensus_block(1, 1) },
        ExecutionCommand::Shutdown,
    ]));
    assert!(matches!(outcome.status, RunStatus::ShutDown));
    assert!(outcome.events.is_empty());
}

#[test]
fn blocks_cannot_be_finalized_out_of_turn() {
    let mut engine = engine();
    let ahead = ConsensusFullBlock {
        parent_id: BlockId(FixedBytes([1; 32])),
        ..make_consensus_block(2, 2)
    };
    let first = ExecutionCommand::Propose {
        block_id: BlockId(FixedBytes([1; 32])),
        block: make_consensus_block(1, 1),
    };
    assert!(matches!(engine.run_batch(batch(vec![first])).status, RunStatus::Running));
    let outcome = engine.run_batch(batch(vec![ExecutionCommand::Finalize {
        seq_num: SeqNum(2),
        block_id: ahead.id,
        block: ahead,
    }]));
    assert!(matches!(outcome.status, RunStatus::OutOfTurn));
}

#[test]
fn a_parent_is_voted_for_when_its_child_is_proposed() {
    let mut engine = engine();
    let parent = make_consensus_block(1, 1);
    let parent_id = parent.id;
    engine.run_batch(batch(vec![ExecutionCommand::Propose { block_id: parent_id, block: parent }]));
    let child = ConsensusFullBlock { parent_id, ..make_consensus_block(2, 2) };
    let outcome = engine.run_batch(batch(vec![ExecutionCommand::Propose {
        block_id: child.id,
        block: child,
    }]));
    assert!(matches!(
        &outcome.events[0],
        ExecutionEvent::BlockVoted { seq_num, block_id } if *seq_num == SeqNum(1) && *block_id == parent_id
    ));
    assert!(matches!(&outcome.events[1], ExecutionEvent::BlockProposed { .. }));
}

#[test]
fn a_block_that_vouches_for_a_wrong_result_is_skipped() {
    let mut engine = engine();
    let wrong = BlockHeader { number: 0, gas_used: 1, ..BlockHeader::empty() };
    let block = ConsensusFullBlock {
        execution_results: vec![wrong],
        ..make_consensus_block(1, 1)
    };
    let outcome = engine.run_batch(batch(vec![ExecutionCommand::Propose {
        block_id: block.id,
        block,
    }]));
    assert!(matches!(outcome.status, RunStatus::Running));
    assert!(outcome.events.is_empty());
}

#[test]
fn outputs_are_held_against_what_consensus_agreed_on() {
    let input = ProposedEthHeader::default();
    let good = BlockHeader {
        ommers_hash: input.ommers_hash,
        transactions_root: input.transactions_root,
        withdrawals_root: Some(input.withdrawals_root),
        gas_limit: 10,
        gas_used: 10,
        ..BlockHeader::empty()
    };
    assert!(validate_live_execution_outputs(&input, &good).is_ok());
    let ommers = BlockHeader { ommers_hash: FixedBytes([1; 32]), ..good.copy() };
    assert_eq!(
        validate_live_execution_outputs(&input, &ommers),
        Err(ExecutionError::WrongOmmersHash)
    );
    let root = BlockHeader { transactions_root: FixedBytes([1; 32]), ..good.copy() };
    assert_eq!(
        validate_live_execution_outputs(&input, &root),
        Err(ExecutionError::WrongMerkleRoot)
    );
    let withdrawals = BlockHeader { withdrawals_root: None, ..good.copy() };
    assert_eq!(
        validate_live_execution_outputs(&input, &withdrawals),
        Err(ExecutionError::WrongMerkleRoot)
    );
    let gas = BlockHeader { gas_used: 11, ..good.copy() };
    assert_eq!(
        validate_live_execution_outputs(&input, &gas),
        Err(ExecutionError::GasAboveLimit)
    );
}

#[test]
fn errors_say_what_is_wrong() {
    assert_eq!(
        ExecutionError::ValidationError("seq_num must be > 0".to_string()).message(),
        "block validation error: seq_num must be > 0"
    );
    assert_eq!(ExecutionError::WrongOmmersHash.message(), "wrong ommers hash");
    assert_eq!(ExecutionError::WrongMerkleRoot.message(), "wrong merkle root");
    assert_eq!(ExecutionError::GasAboveLimit.message(), "gas above limit");
    assert_eq!(ExecutionError::DatabaseError("x".to_string()).message(), "database error: x");
    assert_eq!(ExecutionError::InternalError("y".to_string()).message(), "internal error: y");
}

#[test]
fn block_zero_cannot_be_executed() {
    let mut engine = engine();
    let block = make_consensus_block(0, 9);
    let item = ToExecute { block_id: block.id, block };
    let mut events: Vec<ExecutionEvent> = Vec::new();
    assert!(matches!(
        engine.execute(item, &mut events),
        ExecuteStatus::Failed(ExecutionError::ValidationError(_))
    ));
}

#[test]
fn made_up_senders_differ() {
    let tx = |v: u8| Transaction { hash: FixedBytes([v; 32]), data: vec![] };
    let senders = MockSignatureRecovery::new().recover_senders(&vec![tx(1), tx(2)]);
    assert_eq!(senders.len(), 2);
    assert!(senders[0] != senders[1]);
    assert_eq!(senders[0].0[1], 1);
    let authorities = MockSignatureRecovery::new().recover_authorities(&vec![tx(1), tx(2)]);
    assert_eq!(authorities.len(), 2);
}

#[test]
fn the_hash_of_a_header_is_that_of_its_encoding() {
    let header = BlockHeader { number: 5, ..BlockHeader::empty() };
    let alloy = alloy_consensus::Header { number: 5, ..Default::default() };
    assert_eq!(compute_block_hash(&header).0, alloy.hash_slow().0);
}
