use alloy_consensus::transaction::SignerRecoverable;
use alloy_consensus::{SignableTransaction, TxLegacy};
use alloy_primitives::Signature;

use monad_execution::primitives::{Address, FixedBytes, TxHash, U256};
use monad_execution::transactions::TxEnvelope;
use monad_execution::txpool::bridge::{
    EthTxPoolBridgeEvictionQueue, EthTxPoolBridgeState, TxStatusReceiver, TX_EVICT_NANOS,
};
use monad_execution::txpool::input::{BatchPlan, EthTxPoolChannelInputStream, MAX_BATCH_LEN};
use monad_execution::txpool::{
    default_tx_priority, EthTxPoolDropReason, EthTxPoolEvent, EthTxPoolEventType,
    EthTxPoolEvictReason, EthTxPoolInternalDropReason, EthTxPoolIpcTx, EthTxPoolSnapshot,
    StaticValidationError, TxStatus,
};

const TX_EVICT_DURATION_SECONDS: u64 = 15 * 60;
const BASE_FEE_PER_GAS: u128 = 100_000_000_000;
const START: u64 = 5_000_000_000;

struct Tx {
    envelope: TxEnvelope,
    hash: TxHash,
    signer: Address,
}

fn make_legacy_tx(gas_price: u128, gas_limit: u64, nonce: u64) -> Tx {
    let tx = TxLegacy {
        chain_id: Some(1337),
        nonce,
        gas_price,
        gas_limit,
        to: alloy_primitives::TxKind::Call(alloy_primitives::Address::ZERO),
        value: alloy_primitives::U256::ZERO,
        input: Default::default(),
    };
    let r = "0x28ef61340bd939bc2195fe537567866003e1a15d3c71ff63e1590620aa636276";
    let s = "0x67cbe9d8997f761aecb703304b3800ccf555c9f3dc64214b297fb1966a3b6d83";
    let signature = Signature::new(r.parse().unwrap(), s.parse().unwrap(), false);
    let signed = alloy_consensus::TxEnvelope::Legacy(tx.into_signed(signature));
    Tx {
        hash: FixedBytes(signed.tx_hash().0),
        signer: FixedBytes(signed.recover_signer().unwrap().0 .0),
        envelope: TxEnvelope { rlp: alloy_rlp::encode(&signed) },
    }
}

fn snapshot(hashes: &[TxHash]) -> EthTxPoolSnapshot {
    let mut snapshot = EthTxPoolSnapshot { txs: monad_execution::keymap::KeyMap::new() };
    for hash in hashes {
        snapshot.txs.insert(*hash, ());
    }
    snapshot
}

fn setup() -> (EthTxPoolBridgeState, EthTxPoolBridgeEvictionQueue, Tx) {
    let mut eviction_queue = EthTxPoolBridgeEvictionQueue::new();
    let state = EthTxPoolBridgeState::new(&mut eviction_queue, START, &snapshot(&[]));
    (state, eviction_queue, make_legacy_tx(BASE_FEE_PER_GAS, 100_000, 0))
}

fn status(state: &EthTxPoolBridgeState, tx: &Tx) -> Option<TxStatus> {
    state.create_view().get_status_by_hash(&tx.hash)
}

fn add_tx(
    state: &mut EthTxPoolBridgeState,
    queue: &mut EthTxPoolBridgeEvictionQueue,
    now: u64,
    tx: &Tx,
) -> (bool, TxStatusReceiver) {
    state.add_tx(queue, now, &tx.envelope).expect("a transaction that can be read")
}

fn same_channel(a: &TxStatusReceiver, b: &TxStatusReceiver) -> bool {
    a.hash == b.hash && a.channel == b.channel
}

fn event(tx: &Tx, action: EthTxPoolEventType) -> Vec<EthTxPoolEvent> {
    vec![EthTxPoolEvent { tx_hash: tx.hash, action }]
}

#[test]
fn test_default_tx_priority() {
    assert_eq!(default_tx_priority(), U256::from_u64(0xFFFF));
}

#[test]
fn test_create_view_linked() {
    let (mut state, mut eviction_queue, tx) = setup();

    assert_eq!(status(&state, &tx), None);

    add_tx(&mut state, &mut eviction_queue, START, &tx);

    assert_eq!(status(&state, &tx), Some(TxStatus::Unknown));
}

#[test]
fn test_add_tx() {
    let (mut state, mut eviction_queue, tx) = setup();

    assert_eq!(status(&state, &tx), None);

    add_tx(&mut state, &mut eviction_queue, START, &tx);
    assert_eq!(status(&state, &tx), Some(TxStatus::Unknown));
}

#[test]
fn test_add_duplicate_tx() {
    let (mut state, mut eviction_queue, tx) = setup();

    assert_eq!(status(&state, &tx), None);

    let (is_new, tx_status_recv0) = add_tx(&mut state, &mut eviction_queue, START, &tx);
    assert!(is_new);
    assert_eq!(status(&state, &tx), Some(TxStatus::Unknown));

    let (is_new, tx_status_recv1) = add_tx(&mut state, &mut eviction_queue, START, &tx);
    assert!(is_new);
    assert_eq!(status(&state, &tx), Some(TxStatus::Unknown));

    assert!(same_channel(&tx_status_recv0, &tx_status_recv1));

    assert_eq!(state.has_changed(&tx_status_recv0), Some(false));
    assert_eq!(state.has_changed(&tx_status_recv1), Some(false));

    assert_eq!(state.borrow_status(&tx_status_recv0), Some(TxStatus::Unknown));
    assert_eq!(state.borrow_status(&tx_status_recv1), Some(TxStatus::Unknown));

    state.handle_events(&mut eviction_queue, START, &event(&tx, EthTxPoolEventType::Commit));

    assert_eq!(state.has_changed(&tx_status_recv0), Some(true));
    assert_eq!(state.has_changed(&tx_status_recv1), Some(true));

    assert_eq!(state.borrow_status(&tx_status_recv0), Some(TxStatus::Committed));
    assert_eq!(state.borrow_status(&tx_status_recv1), Some(TxStatus::Committed));

    let (is_new, tx_status_recv2) = add_tx(&mut state, &mut eviction_queue, START, &tx);
    assert!(!is_new);
    assert_eq!(status(&state, &tx), Some(TxStatus::Committed));

    assert!(same_channel(&tx_status_recv1, &tx_status_recv2));

    assert_eq!(state.has_changed(&tx_status_recv2), Some(true));

    assert_eq!(state.borrow_status(&tx_status_recv2), Some(TxStatus::Committed));
}

#[test]
fn test_snapshot_does_not_update_tx_status_recv() {
    let (mut state, mut eviction_queue, tx) = setup();

    assert_eq!(status(&state, &tx), None);

    let (_, tx_status_recv) = add_tx(&mut state, &mut eviction_queue, START, &tx);
    assert_eq!(state.has_changed(&tx_status_recv), Some(false));

    state.apply_snapshot(&mut eviction_queue, START, &snapshot(&[tx.hash]));
    assert_eq!(state.has_changed(&tx_status_recv), Some(false));
}

#[test]
fn new_transactions_of_a_snapshot_get_channels_of_their_own() {
    let (mut state, mut eviction_queue, tx) = setup();
    let pooled1 = make_legacy_tx(BASE_FEE_PER_GAS, 100_000, 1);
    let pooled2 = make_legacy_tx(BASE_FEE_PER_GAS, 100_000, 2);
    let later = make_legacy_tx(BASE_FEE_PER_GAS, 100_000, 3);

    let (_, tx_status_recv) = add_tx(&mut state, &mut eviction_queue, START, &tx);
    assert_eq!(tx_status_recv.channel, 0);

    let txs = snapshot(&[tx.hash, pooled1.hash, pooled2.hash]);
    state.apply_snapshot(&mut eviction_queue, START, &txs);

    let (_, kept) = add_tx(&mut state, &mut eviction_queue, START, &tx);
    assert!(same_channel(&tx_status_recv, &kept));

    let (_, recv1) = add_tx(&mut state, &mut eviction_queue, START, &pooled1);
    let (_, recv2) = add_tx(&mut state, &mut eviction_queue, START, &pooled2);
    let mut channels = vec![recv1.channel, recv2.channel];
    channels.sort();
    assert_eq!(channels, vec![1, 2]);

    let (_, recv) = add_tx(&mut state, &mut eviction_queue, START, &later);
    assert_eq!(recv.channel, 3);
}

#[test]
fn test_handle_events_and_snapshot() {
    enum TestCases {
        EmptySnapshot,
        Insert,
        InsertSnapshot,
        Drop,
        Commit,
        Evict,
    }

    for test in [
        TestCases::EmptySnapshot,
        TestCases::Insert,
        TestCases::InsertSnapshot,
        TestCases::Drop,
        TestCases::Commit,
        TestCases::Evict,
    ] {
        let (mut state, mut eviction_queue, tx) = setup();

        add_tx(&mut state, &mut eviction_queue, START, &tx);
        assert_eq!(status(&state, &tx), Some(TxStatus::Unknown));

        match test {
            TestCases::EmptySnapshot => {
                state.apply_snapshot(&mut eviction_queue, START, &snapshot(&[]));
                assert_eq!(status(&state, &tx), None);
            }
            TestCases::Insert => {
                let action = EthTxPoolEventType::Insert {
                    address: tx.signer,
                    owned: true,
                    tx: tx.envelope.clone(),
                };
                state.handle_events(&mut eviction_queue, START, &event(&tx, action));
                assert_eq!(status(&state, &tx), Some(TxStatus::Pooled));
            }
            TestCases::InsertSnapshot => {
                state.apply_snapshot(&mut eviction_queue, START, &snapshot(&[tx.hash]));
                assert_eq!(status(&state, &tx), Some(TxStatus::Pooled));
            }
            TestCases::Drop => {
                let reason = EthTxPoolDropReason::PoolNotReady;
                let action = EthTxPoolEventType::Drop { reason };
                state.handle_events(&mut eviction_queue, START, &event(&tx, action));
                assert_eq!(status(&state, &tx), Some(TxStatus::Dropped { reason }));
            }
            TestCases::Commit => {
                let action = EthTxPoolEventType::Commit;
                state.handle_events(&mut eviction_queue, START, &event(&tx, action));
                assert_eq!(status(&state, &tx), Some(TxStatus::Committed));

                state.apply_snapshot(&mut eviction_queue, START, &snapshot(&[]));
                assert_eq!(status(&state, &tx), None);
            }
            TestCases::Evict => {
                let reason = EthTxPoolEvictReason::Expired;
                let action = EthTxPoolEventType::Evict { reason };
                state.handle_events(&mut eviction_queue, START, &event(&tx, action));
                assert_eq!(status(&state, &tx), Some(TxStatus::Evicted { reason }));

                state.apply_snapshot(&mut eviction_queue, START, &snapshot(&[]));
                assert_eq!(status(&state, &tx), None);
            }
        }
    }
}

#[test]
fn test_cleanup() {
    for add_duplicate_tx in [false, true] {
        let (mut state, mut eviction_queue, tx) = setup();
        let mut now = START;

        assert_eq!(eviction_queue.len(), 0);
        assert_eq!(status(&state, &tx), None);

        add_tx(&mut state, &mut eviction_queue, now, &tx);
        assert_eq!(eviction_queue.len(), 1);
        assert_eq!(status(&state, &tx), Some(TxStatus::Unknown));

        state.cleanup(&mut eviction_queue, now);
        assert_eq!(eviction_queue.len(), 1);
        assert_eq!(status(&state, &tx), Some(TxStatus::Unknown));

        now += TX_EVICT_DURATION_SECONDS * 1_000_000_000 - 1_000_000;

        state.cleanup(&mut eviction_queue, now);
        assert_eq!(eviction_queue.len(), 1);
        assert_eq!(status(&state, &tx), Some(TxStatus::Unknown));

        if add_duplicate_tx {
            add_tx(&mut state, &mut eviction_queue, now, &tx);
            assert_eq!(eviction_queue.len(), 1);
            assert_eq!(status(&state, &tx), Some(TxStatus::Unknown));

            state.cleanup(&mut eviction_queue, now);
            assert_eq!(eviction_queue.len(), 1);
            assert_eq!(status(&state, &tx), Some(TxStatus::Unknown));
        }

        now += 1_000_000;

        state.cleanup(&mut eviction_queue, now);
        assert_eq!(eviction_queue.len(), 0);
        assert_eq!(status(&state, &tx), None);
    }
}

#[test]
fn transactions_are_found_by_their_sender() {
    let (mut state, mut queue, tx) = setup();
    assert!(state.create_view().get_status_by_address(&tx.signer).is_none());
    let action = EthTxPoolEventType::Insert {
        address: tx.signer,
        owned: false,
        tx: tx.envelope.clone(),
    };
    state.handle_events(&mut queue, START, &event(&tx, action));
    assert_eq!(queue.len(), 1);
    assert_eq!(
        state.create_view().get_status_by_address(&tx.signer),
        Some(vec![(tx.hash, TxStatus::Pooled)])
    );

    state.handle_events(&mut queue, START, &event(&tx, EthTxPoolEventType::Commit));
    assert_eq!(
        state.create_view().get_status_by_address(&tx.signer),
        Some(vec![(tx.hash, TxStatus::Committed)])
    );

    state.cleanup(&mut queue, START + TX_EVICT_NANOS);
    assert!(state.create_view().get_status_by_address(&tx.signer).is_none());
    assert_eq!(status(&state, &tx), None);
}

#[test]
fn an_unreadable_transaction_is_refused() {
    let (mut state, mut queue, _) = setup();
    assert!(state.add_tx(&mut queue, START, &TxEnvelope { rlp: vec![1, 2, 3] }).is_none());
    assert!(state.accept_tx(&mut queue, START, TxEnvelope { rlp: vec![] }).is_none());
    assert!(queue.is_empty());
}

#[test]
fn a_transaction_is_sent_on_until_its_fate_is_known() {
    let (mut state, mut queue, tx) = setup();
    let (receiver, sent) = state.accept_tx(&mut queue, START, tx.envelope.clone()).unwrap();
    let sent = sent.expect("sent on");
    assert_eq!(sent.tx, tx.envelope);
    assert_eq!(sent.priority, default_tx_priority());
    assert!(sent.extra_data.is_empty());
    assert_eq!(receiver.hash, tx.hash);

    state.handle_events(&mut queue, START, &event(&tx, EthTxPoolEventType::Commit));
    let (again, sent) = state.accept_tx(&mut queue, START, tx.envelope.clone()).unwrap();
    assert!(sent.is_none());
    assert_eq!(again.channel, receiver.channel);
}

#[test]
fn reasons_are_told_in_words() {
    let words = |reason: EthTxPoolDropReason| reason.as_user_string();
    assert_eq!(words(EthTxPoolDropReason::InvalidSignature), "Transaction signature is invalid");
    assert_eq!(words(EthTxPoolDropReason::NonceTooLow), "Transaction nonce too low");
    assert_eq!(words(EthTxPoolDropReason::FeeTooLow), "Transaction fee too low");
    assert_eq!(words(EthTxPoolDropReason::InsufficientBalance), "Signer had insufficient balance");
    assert_eq!(words(EthTxPoolDropReason::PoolFull), "Transaction pool is full");
    assert_eq!(words(EthTxPoolDropReason::PoolNotReady), "Transaction pool is not ready");
    assert_eq!(
        words(EthTxPoolDropReason::ExistingHigherPriority),
        "An existing transaction had higher priority"
    );
    assert_eq!(
        words(EthTxPoolDropReason::ReplacedByHigherPriority { replacement: FixedBytes([0; 32]) }),
        "A newer transaction had higher priority"
    );
    assert_eq!(
        words(EthTxPoolDropReason::Internal(EthTxPoolInternalDropReason::NotReady)),
        "Internal error"
    );
    assert_eq!(
        words(EthTxPoolDropReason::NotWellFormed(StaticValidationError::InvalidChainId)),
        "Invalid chain ID"
    );
    assert_eq!(
        words(EthTxPoolDropReason::NotWellFormed(
            StaticValidationError::GasLimitOverProposalGasLimit
        )),
        "Exceeds transaction gas limit"
    );
}

fn with_priority(priority: u64, mark: u8) -> EthTxPoolIpcTx {
    EthTxPoolIpcTx {
        tx: TxEnvelope { rlp: vec![mark] },
        priority: U256::from_u64(priority),
        extra_data: vec![],
    }
}

fn marks(batch: &[EthTxPoolIpcTx]) -> Vec<u8> {
    batch.iter().map(|tx| tx.tx.rlp[0]).collect()
}

#[test]
fn the_highest_priorities_come_first_and_equals_in_order() {
    let mut input = EthTxPoolChannelInputStream::new();
    input.receive(with_priority(5, 1));
    input.receive(with_priority(9, 2));
    input.receive(with_priority(5, 3));
    input.receive(with_priority(1, 4));
    assert_eq!(input.len(), 4);
    let batch = input.take_batch();
    assert_eq!(marks(&batch), vec![2, 1, 3, 4]);
    assert_eq!(input.len(), 0);
}

#[test]
fn a_batch_has_a_limit() {
    let mut input = EthTxPoolChannelInputStream::new();
    for _ in 0..MAX_BATCH_LEN {
        assert!(input.wants_more());
        input.receive(with_priority(1, 0));
    }
    assert!(!input.wants_more());
    input.receive(with_priority(7, 7));
    let batch = input.take_batch();
    assert_eq!(batch.len(), MAX_BATCH_LEN);
    assert_eq!(batch[0].tx.rlp, vec![7]);
    assert_eq!(input.len(), 1);
}

#[test]
fn a_batch_that_is_not_full_waits_for_its_timer() {
    let mut input = EthTxPoolChannelInputStream::new();
    assert_eq!(input.plan_batch(true), BatchPlan::Wait);
    input.receive(with_priority(1, 0));
    assert_eq!(input.plan_batch(true), BatchPlan::OnTimer { restart: true });
    assert_eq!(input.plan_batch(false), BatchPlan::OnTimer { restart: false });
    for _ in 1..MAX_BATCH_LEN {
        input.receive(with_priority(1, 0));
    }
    assert_eq!(input.plan_batch(false), BatchPlan::Now { restart: false });

    input.close();
    input.take_batch();
    assert!(!input.wants_more());
}

#[test]
fn nothing_is_lost_or_handed_out_twice() {
    let mut input = EthTxPoolChannelInputStream::new();
    let mut received = Vec::new();
    let mut handed_out = Vec::new();
    for i in 0..200u8 {
        let tx = with_priority(i as u64 % 3, i);
        received.push((i % 3, i));
        input.receive(tx);
        if i % 70 == 69 {
            handed_out.extend(marks(&input.take_batch()));
        }
    }
    while input.len() > 0 {
        let left = input.len();
        let batch = input.take_batch();
        assert_eq!(batch.len(), left.min(128));
        handed_out.extend(marks(&batch));
    }
    assert_eq!(handed_out.len(), 200);
    for priority in 0..3u8 {
        let sent: Vec<u8> = received.iter().filter(|r| r.0 == priority).map(|r| r.1).collect();
        let got: Vec<u8> = handed_out.iter().copied().filter(|m| m % 3 == priority).collect();
        assert_eq!(got, sent);
    }
}
