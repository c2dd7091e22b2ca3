use alloy_consensus::transaction::SignerRecoverable;
use alloy_consensus::{SignableTransaction, Transaction, TxEip1559, TxLegacy};
use alloy_primitives::{Signature, TxKind};

use monad_execution::events::{BlockCommitState, ExecutionEvent};
use monad_execution::header::BlockHeader;
use monad_execution::primitives::{BlockId, FixedBytes, SeqNum, U256};
use monad_execution::rpc::blocks::{build_block_update, build_proposed_block, convert_header};
use monad_execution::rpc::event_server::{
    is_tellable, EventServer, EventServerEvent, ServerInput, ServerStep, MAX_PROPOSED_BLOCKS,
};
use monad_execution::rpc::server::{
    cache_step, choose_archive, ArchiveChoice, CacheInput, CacheStep, RpcConfig,
};
use monad_execution::rpc::tx::{read_tx, read_txs};
use monad_execution::transactions::{
    Eip658Value, Log, ReceiptEnvelope, ReceiptWithBloom, TxEnvelope,
};

fn signature() -> Signature {
    let r = "0x28ef61340bd939bc2195fe537567866003e1a15d3c71ff63e1590620aa636276";
    let s = "0x67cbe9d8997f761aecb703304b3800ccf555c9f3dc64214b297fb1966a3b6d83";
    Signature::new(r.parse().unwrap(), s.parse().unwrap(), false)
}

fn transfer() -> alloy_consensus::TxEnvelope {
    let tx = TxLegacy {
        chain_id: Some(1),
        nonce: 9,
        gas_price: 20_000_000_000,
        gas_limit: 21_000,
        to: TxKind::Call(alloy_primitives::Address::repeat_byte(0x35)),
        value: alloy_primitives::U256::from(1_000_000_000_000_000_000u64),
        input: Default::default(),
    };
    alloy_consensus::TxEnvelope::Legacy(tx.into_signed(signature()))
}

fn creation() -> alloy_consensus::TxEnvelope {
    let tx = TxEip1559 {
        chain_id: 1,
        nonce: 3,
        gas_limit: 100_000,
        max_fee_per_gas: 50,
        max_priority_fee_per_gas: 7,
        to: TxKind::Create,
        value: alloy_primitives::U256::ZERO,
        access_list: Default::default(),
        input: Default::default(),
    };
    alloy_consensus::TxEnvelope::Eip1559(tx.into_signed(signature()))
}

fn envelope(tx: &alloy_consensus::TxEnvelope) -> TxEnvelope {
    TxEnvelope { rlp: alloy_rlp::encode(tx) }
}

fn receipt(cumulative_gas_used: u64, logs: usize) -> ReceiptEnvelope {
    let log = |i: usize| Log {
        address: FixedBytes([i as u8; 20]),
        topics: vec![],
        data: vec![i as u8],
    };
    ReceiptEnvelope::Legacy(ReceiptWithBloom {
        status: Eip658Value::Eip658(true),
        cumulative_gas_used,
        logs: (0..logs).map(log).collect(),
        logs_bloom: FixedBytes([0; 256]),
    })
}

fn header() -> BlockHeader {
    BlockHeader {
        number: 12,
        timestamp: 34,
        base_fee_per_gas: Some(10),
        ..BlockHeader::empty()
    }
}

fn proposal(id: u8) -> ExecutionEvent {
    ExecutionEvent::BlockProposed {
        seq_num: SeqNum(12),
        block_id: BlockId(FixedBytes([id; 32])),
        parent_id: BlockId(FixedBytes([0; 32])),
        header: header(),
        transactions: vec![envelope(&transfer()), envelope(&creation())],
        receipts: vec![receipt(21_000, 2), receipt(71_000, 1)],
        eth_block_hash: FixedBytes([0xEE; 32]),
    }
}

#[test]
fn a_transaction_tells_who_sent_it() {
    let tx = transfer();
    let info = read_tx(&envelope(&tx), Some(10)).expect("a signed transaction");
    assert_eq!(info.hash.0, tx.tx_hash().0);
    assert_eq!(
        info.sender.0,
        "0x9d8A62f656a8d1615C1294fd71e9CFb3E4855A4F"
            .parse::<alloy_primitives::Address>()
            .unwrap()
            .0
             .0
    );
    assert_eq!(info.to, Some(FixedBytes([0x35; 20])));
    assert_eq!(info.contract, None);
    assert_eq!(info.effective_gas_price, 20_000_000_000);
}

#[test]
fn a_transaction_tells_which_contract_it_creates() {
    let tx = creation();
    let signer = tx.recover_signer().unwrap();
    let info = read_tx(&envelope(&tx), Some(10)).expect("a signed transaction");
    assert_eq!(info.hash.0, tx.tx_hash().0);
    assert_eq!(info.sender.0, signer.0 .0);
    assert_eq!(info.to, None);
    assert_eq!(info.contract.unwrap().0, signer.create(3).0 .0);
    assert_eq!(info.effective_gas_price, 17);
    assert_eq!(info.effective_gas_price, tx.effective_gas_price(Some(10)));
    assert_eq!(read_tx(&envelope(&tx), None).unwrap().effective_gas_price, 50);
    assert_eq!(read_tx(&envelope(&tx), Some(48)).unwrap().effective_gas_price, 50);
}

#[test]
fn transactions_are_read_together_or_not_at_all() {
    let good = envelope(&transfer());
    let bad = TxEnvelope { rlp: vec![1, 2, 3] };
    assert_eq!(read_txs(&vec![good.clone(), good.clone()], None).unwrap().len(), 2);
    assert!(read_txs(&vec![good, bad], None).is_none());
}

#[test]
fn a_header_is_shown_with_its_size() {
    let hash = FixedBytes([0xEE; 32]);
    let shown = convert_header(&header(), hash);
    assert_eq!(shown.hash, hash);
    assert_eq!(shown.inner.number, 12);
    assert_eq!(shown.total_difficulty, Some(U256::from_u64(0)));
    let alloy = alloy_consensus::Header {
        number: 12,
        timestamp: 34,
        base_fee_per_gas: Some(10),
        ..Default::default()
    };
    assert_eq!(shown.size, Some(U256::from_u64(alloy.size() as u64)));
}

#[test]
fn receipts_show_gas_and_number_their_logs() {
    let txs = vec![envelope(&transfer()), envelope(&creation())];
    let receipts = vec![receipt(21_000, 2), receipt(71_000, 1)];
    let hash = FixedBytes([0xEE; 32]);
    let id = BlockId(FixedBytes([1; 32]));
    let block = build_proposed_block(id, &header(), &txs, &receipts, hash).expect("readable");
    assert_eq!(block.receipts.len(), 2);
    let gas: Vec<u64> = block.receipts.iter().map(|r| r.gas_used).collect();
    assert_eq!(gas, vec![21_000, 50_000]);
    let numbers: Vec<Option<u64>> = block
        .receipts
        .iter()
        .flat_map(|r| r.inner.logs.iter().map(|l| l.log_index))
        .collect();
    assert_eq!(numbers, vec![Some(0), Some(1), Some(2)]);
    assert_eq!(block.receipts[1].transaction_index, Some(1));
    assert_eq!(block.receipts[1].block_number, Some(12));
    assert_eq!(block.receipts[0].to, Some(FixedBytes([0x35; 20])));
    assert!(block.receipts[1].contract_address.is_some());
    assert_eq!(block.receipts[1].inner.logs[0].block_timestamp, Some(34));
    assert_eq!(block.transactions[1].transaction_index, Some(1));
    assert_eq!(block.transactions[1].effective_gas_price, Some(17));

    let update = build_block_update(&block, BlockCommitState::Voted);
    assert_eq!(update.commit_state, BlockCommitState::Voted);
    assert_eq!(update.header.block_id, id);
    assert_eq!(update.transactions.len(), 2);
    assert_eq!(update.transactions[0].logs.len(), 2);
    assert_eq!(update.transactions[0].logs[1].commit_state, BlockCommitState::Voted);
}

fn told_state(step: &ServerStep) -> Option<BlockCommitState> {
    match step {
        ServerStep::Broadcast(EventServerEvent::Block(update)) => Some(update.commit_state),
        _ => None,
    }
}

#[test]
fn a_block_is_told_as_it_comes_further() {
    let mut server = EventServer::new();
    let id = BlockId(FixedBytes([1; 32]));
    let voted = || {
        ServerInput::Event(ExecutionEvent::BlockVoted { seq_num: SeqNum(12), block_id: id })
    };
    let finalized = || {
        ServerInput::Event(ExecutionEvent::BlockFinalized { seq_num: SeqNum(12), block_id: id })
    };
    assert!(matches!(server.step(voted()), ServerStep::Unknown));
    let input = ServerInput::Event(proposal(1));
    assert!(is_tellable(&input));
    assert_eq!(told_state(&server.step(input)), Some(BlockCommitState::Proposed));
    assert_eq!(told_state(&server.step(voted())), Some(BlockCommitState::Voted));
    assert_eq!(told_state(&server.step(finalized())), Some(BlockCommitState::Finalized));
    assert!(matches!(server.step(finalized()), ServerStep::Unknown));
    let verified = ExecutionEvent::BlockVerified { seq_num: SeqNum(12) };
    assert!(matches!(server.step(ServerInput::Event(verified)), ServerStep::Quiet));
    assert!(matches!(server.step(ServerInput::Closed), ServerStep::Stop));
}

#[test]
fn missed_events_leave_a_gap() {
    let mut server = EventServer::new();
    server.step(ServerInput::Event(proposal(1)));
    assert!(matches!(
        server.step(ServerInput::Lagged(4)),
        ServerStep::Broadcast(EventServerEvent::Gap)
    ));
    let id = BlockId(FixedBytes([1; 32]));
    let voted = ExecutionEvent::BlockVoted { seq_num: SeqNum(12), block_id: id };
    assert!(matches!(server.step(ServerInput::Event(voted)), ServerStep::Unknown));
}

#[test]
fn too_many_proposals_are_forgotten() {
    let mut server = EventServer::new();
    for i in 0..=MAX_PROPOSED_BLOCKS {
        server.step(ServerInput::Event(proposal(i as u8)));
    }
    let voted = |id: u8| {
        let block_id = BlockId(FixedBytes([id; 32]));
        ServerInput::Event(ExecutionEvent::BlockVoted { seq_num: SeqNum(12), block_id })
    };
    assert!(matches!(server.step(voted(0)), ServerStep::Unknown));
    let last = server.step(voted(MAX_PROPOSED_BLOCKS as u8));
    assert_eq!(told_state(&last), Some(BlockCommitState::Voted));
}

#[test]
fn a_block_with_an_unreadable_transaction_is_not_told() {
    let mut server = EventServer::new();
    let unreadable = match proposal(1) {
        ExecutionEvent::BlockProposed {
            seq_num, block_id, parent_id, header, receipts, eth_block_hash, ..
        } => ExecutionEvent::BlockProposed {
            seq_num,
            block_id,
            parent_id,
            header,
            transactions: vec![TxEnvelope { rlp: vec![] }, TxEnvelope { rlp: vec![] }],
            receipts,
            eth_block_hash,
        },
        _ => panic!("expected a proposal"),
    };
    assert!(matches!(server.step(ServerInput::Event(unreadable)), ServerStep::Unreadable));

    let unpaired = match proposal(1) {
        ExecutionEvent::BlockProposed {
            seq_num, block_id, parent_id, header, transactions, eth_block_hash, ..
        } => ExecutionEvent::BlockProposed {
            seq_num,
            block_id,
            parent_id,
            header,
            transactions,
            receipts: vec![],
            eth_block_hash,
        },
        _ => panic!("expected a proposal"),
    };
    assert!(!is_tellable(&ServerInput::Event(unpaired)));
}

fn config() -> RpcConfig {
    RpcConfig {
        has_triedb_path: true,
        has_s3_bucket: true,
        has_region: true,
        has_archive_url: true,
        has_archive_api_key: false,
        has_mongo_db_name: true,
        has_mongo_url: true,
        has_otel_endpoint: false,
        has_comparison_endpoint: false,
        ws_enabled: true,
        eth_call_executor_threads: 1,
        eth_call_executor_fibers: 2,
        eth_call_executor_queuing_timeout: 3,
        eth_call_max_concurrent_requests: 4,
        eth_call_high_executor_threads: 5,
        eth_call_high_executor_fibers: 6,
        eth_call_high_executor_queuing_timeout: 7,
        eth_call_high_max_concurrent_requests: 8,
        eth_trace_block_executor_threads: 9,
        eth_trace_block_executor_fibers: 10,
        eth_trace_block_executor_queuing_timeout: 11,
        eth_trace_block_max_concurrent_requests: 12,
        eth_trace_tx_executor_fibers: 13,
    }
}

#[test]
fn a_server_is_made_as_it_is_configured() {
    let plan = config().plan(true);
    assert!(!plan.open_aws);
    assert!(plan.open_mongo);
    let pools = plan.eth_call.expect("pools");
    assert_eq!((pools.low.num_threads, pools.low.queue_limit), (1, 4));
    assert_eq!((pools.high.num_fibers, pools.high.timeout_sec), (6, 7));
    assert_eq!((pools.block.num_threads, pools.block.queue_limit), (9, 12));
    assert_eq!(pools.tx_exec_num_fibers, 13);
    assert_eq!(plan.concurrent_requests, 4);
    assert!(plan.serve_websocket);
    assert!(!plan.events_missing);

    let quiet = config().plan(false);
    assert!(!quiet.serve_websocket);
    assert!(quiet.events_missing);
    assert!(!quiet.serve_events);
    assert!(RpcConfig { has_triedb_path: false, ..config() }.plan(true).eth_call.is_none());
}

#[test]
fn the_document_store_comes_before_the_cloud() {
    assert_eq!(choose_archive(false, false), ArchiveChoice::Nowhere);
    assert_eq!(choose_archive(true, false), ArchiveChoice::Aws);
    assert_eq!(choose_archive(false, true), ArchiveChoice::Mongo { fallback: false });
    assert_eq!(choose_archive(true, true), ArchiveChoice::Mongo { fallback: true });
    assert_eq!(cache_step(CacheInput::Event), CacheStep::Insert);
    assert_eq!(cache_step(CacheInput::Lagged(1)), CacheStep::Skip);
    assert_eq!(cache_step(CacheInput::Closed), CacheStep::Stop);
}
