use monad_execution::header::{encode_header, BlockHeader};
use monad_execution::keymap::SlotKey;
use monad_execution::mock::db::InMemoryExecutionDb;
use monad_execution::mock::statesync::MockStateSyncProvider;
use monad_execution::primitives::{Address, BlockId, FixedBytes, SeqNum, B256, U256};
use monad_execution::statesync::client_context::{RustStateSyncClient, StateSyncClientContext};
use monad_execution::statesync::deletion_tracker::FinalizedDeletions;
use monad_execution::statesync::in_process::{
    serve_message, ServerAction, StateSyncNetworkMessage,
};
use monad_execution::statesync::protocol::{
    build_sync_request, decode_account_db, decode_storage_db, decode_storage_key, encode_account,
    encode_bytes32_compact, parse_upsert, Received,
};
use monad_execution::statesync::server::{
    deletion_matches_prefix, from_prefix, handle_sync_request, static_validate_request,
};
use monad_execution::statesync::server_db::{LiveStateSyncProvider, StateSyncServerDb};
use monad_execution::statesync::session::{
    accepts_response, plan_timer, Progress, RustStateSync, StateSyncResponse, StepEnd, SyncFault,
    SyncRequest, TimerPlan,
};
use monad_execution::statesync::types::{
    to_network_request, Deletion, StateSyncRequest, SyncDone, SyncUpsertType, Upsert,
};
use monad_execution::statesync::version::{is_client_compatible, STATESYNC_VERSION};
use monad_execution::statesync::{
    StateSyncApplier, StateSyncApplierDb, StateSyncError, StateSyncProvider, StateSyncTraversable,
    UpsertStatus,
};
use monad_execution::traits::ExecutionDb;
use monad_execution::types::{AccountDelta, EthAccount, StateDeltas};
use monad_execution::validation::compute_block_hash;

const ZERO: B256 = FixedBytes([0; 32]);

fn account(nonce: u64) -> EthAccount {
    EthAccount {
        nonce,
        balance: U256::from_u64(1000),
        code_hash: Some(FixedBytes([0xCC; 32])),
        is_delegated: false,
    }
}

fn header(number: u64) -> BlockHeader {
    BlockHeader { number, state_root: ZERO, ..BlockHeader::empty() }
}

fn empty_client() -> StateSyncClientContext<InMemoryExecutionDb> {
    StateSyncClientContext::new(InMemoryExecutionDb::with_finalized(u64::MAX))
}

fn request(from: u64, until: u64, target: u64) -> StateSyncRequest {
    StateSyncRequest { prefix: 300, prefix_bytes: 2, target, from, until, old_target: u64::MAX }
}

fn storage_upsert(addr: &Address, key: &B256, value: &B256) -> Vec<u8> {
    let mut data = addr.0.to_vec();
    data.extend(key.0);
    data.extend(value.0);
    data
}

/// The headers of blocks 0 to `n`, each with the hash of the one before.
fn header_chain(n: u64) -> Vec<BlockHeader> {
    let mut chain = vec![header(0)];
    for number in 1..=n {
        let parent_hash = compute_block_hash(&chain[number as usize - 1]);
        chain.push(BlockHeader { parent_hash, ..header(number) });
    }
    chain
}

/// A database that sends its headers.
struct HeaderServer(InMemoryExecutionDb);

impl StateSyncTraversable for HeaderServer {
    fn has_version(&self, target: u64) -> bool {
        self.0.has_version(target)
    }

    fn read_block_header_at(&self, version: u64) -> Option<Vec<u8>> {
        self.0.headers.get(&SeqNum(version)).map(encode_header)
    }

    fn traverse_state(&self, prefix: &Vec<u8>, from: u64, until: u64) -> (Vec<Upsert>, bool) {
        self.0.traverse_state(prefix, from, until)
    }
}

/// A server whose state is that of block `n`.
fn server(n: u64) -> InMemoryExecutionDb {
    let mut db = InMemoryExecutionDb::with_finalized(n);
    for number in 0..n {
        db.headers.insert(SeqNum(number), header(number));
    }
    db
}

#[test]
fn a_node_fetches_the_whole_state_of_its_target() {
    let addr: Address = FixedBytes([0x42; 20]);
    let slot: B256 = FixedBytes([0x01; 32]);
    let chain = header_chain(100);
    let mut db = InMemoryExecutionDb::with_finalized(100);
    for h in &chain[..100] {
        db.headers.insert(SeqNum(h.number), h.clone());
    }
    db.accounts.insert(addr, account(9));
    db.storage.insert(SlotKey { address: addr, slot }, FixedBytes([0x77; 32]));
    let db = HeaderServer(db);
    let mut deletions = FinalizedDeletions::new();
    for number in 0..=100 {
        deletions.write(SeqNum(number), vec![]);
    }
    let provider = LiveStateSyncProvider::new(&db, &deletions);

    let mut ctx = empty_client();
    ctx.db.code.insert(FixedBytes([0xCC; 32]), vec![0x60]);
    let mut node: RustStateSync<InMemoryExecutionDb, u8> = RustStateSync::new(ctx);
    let mut queue = node.update_target(chain[100].clone());
    assert_eq!(queue.len(), 256);
    assert_eq!(queue[3], build_sync_request(3, 1, 100, u64::MAX, u64::MAX));
    assert_eq!((queue[3].from, queue[3].until), (0, 99));
    assert_eq!(node.progress_estimate(), None);

    let mut reached = false;
    let mut served = 0;
    while let Some(next) = queue.pop() {
        assert!(!reached);
        served += 1;
        match serve_message(&provider, StateSyncNetworkMessage::Request(to_network_request(&next))) {
            ServerAction::Answer(response) => {
                assert_eq!(response.version, STATESYNC_VERSION);
                assert_eq!(response.request.version, STATESYNC_VERSION);
                assert_eq!(response.request.body, next);
                let outcome = node.handle_response(1, &vec![response]);
                reached = outcome.end == StepEnd::Reached;
                assert!(reached || outcome.end == StepEnd::Going);
                queue.extend(outcome.queued);
            }
            _ => panic!("expected an answer"),
        }
    }
    assert!(reached);
    assert_eq!(served, 512);
    assert_eq!(node.ctx.db.accounts.get(&addr).map(|a| a.nonce), Some(9));
    assert_eq!(StateSyncApplierDb::read_storage(&node.ctx.db, &addr, &slot), FixedBytes([0x77; 32]));
    assert_eq!(node.ctx.db.latest_finalized, SeqNum(100));
    assert_eq!(node.progress_estimate(), Some(SeqNum(100)));

    let mut completions = 0;
    let mut done = None;
    while let Some(told) = node.next_event() {
        match told {
            SyncRequest::Completion(peer, _) => {
                assert_eq!(peer, 1);
                completions += 1;
            }
            SyncRequest::DoneSync(target) => done = Some(target.number),
            SyncRequest::Request(..) => panic!("no request is queued here"),
        }
    }
    assert_eq!(completions, 512);
    assert_eq!(done, Some(100));
    for h in &chain[..100] {
        let kept = node.ctx.protocol.headers[h.number as usize].as_ref().expect("a header");
        assert_eq!(compute_block_hash(kept), compute_block_hash(h));
    }
}

#[test]
fn a_header_is_recorded_only_if_it_can_be_read() {
    let mut ctx = empty_client();
    let sent = BlockHeader { gas_limit: 30_000_000, ..header(700) };
    let data = encode_header(&sent);
    assert_eq!(ctx.apply_upsert(0, SyncUpsertType::Header, &data), UpsertStatus::Applied);
    let kept = ctx.protocol.headers[700 % 256].as_ref().expect("a header");
    assert_eq!((kept.number, kept.gas_limit), (700, 30_000_000));
    assert_eq!(compute_block_hash(kept), compute_block_hash(&sent));
    assert_eq!(ctx.protocol.headers.iter().filter(|h| h.is_some()).count(), 1);

    for junk in [vec![], vec![0u8; 32], data[..data.len() - 1].to_vec()] {
        assert_eq!(ctx.apply_upsert(0, SyncUpsertType::Header, &junk), UpsertStatus::Rejected);
    }
    assert!(ctx.protocol.headers[0].is_none());
    assert_eq!(ctx.protocol.headers.iter().filter(|h| h.is_some()).count(), 1);
    assert_eq!(ctx.protocol.n_upserts, 4);
    assert!(parse_upsert(SyncUpsertType::Header, &data).is_some());
    assert!(parse_upsert(SyncUpsertType::Header, &[1, 2, 3]).is_none());
}

#[test]
fn a_session_ends_only_if_the_headers_lead_back() {
    let chain = header_chain(3);
    let finished = |wrong: bool| {
        let mut ctx = empty_client();
        ctx.set_target(&chain[3]);
        for h in &chain[..3] {
            let sent = if wrong && h.number == 1 { header(1) } else { h.clone() };
            let data = encode_header(&sent);
            assert_eq!(ctx.apply_upsert(0, SyncUpsertType::Header, &data), UpsertStatus::Applied);
        }
        for prefix in 0..256 {
            ctx.handle_done(SyncDone { success: true, prefix, n: 3 });
        }
        (ctx.finalize(), ctx.db.latest_finalized)
    };
    assert_eq!(finished(false), (true, SeqNum(3)));
    assert_eq!(finished(true), (false, SeqNum(u64::MAX)));
}

#[test]
fn a_later_target_waits_for_the_current_one() {
    let mut node: RustStateSync<InMemoryExecutionDb, u8> = RustStateSync::new(empty_client());
    assert_eq!(node.update_target(header(10)).len(), 256);
    assert!(node.update_target(header(20)).is_empty());
    assert_eq!(node.next_target.as_ref().map(|h| h.number), Some(20));
    assert_eq!(node.current_target.as_ref().map(|h| h.number), Some(10));
}

fn response(request: StateSyncRequest, upserts: Vec<(SyncUpsertType, Vec<u8>)>, n: u64)
    -> StateSyncResponse {
    StateSyncResponse {
        version: STATESYNC_VERSION,
        nonce: 7,
        response_index: 0,
        request: to_network_request(&request),
        response: upserts,
        response_n: n,
    }
}

#[test]
fn responses_that_cannot_be_taken_are_told_apart() {
    let mut idle: RustStateSync<InMemoryExecutionDb, u8> = RustStateSync::new(empty_client());
    let first = build_sync_request(0, 1, 10, u64::MAX, u64::MAX);
    let end = idle.handle_response(1, &vec![response(first, vec![], 9)]).end;
    assert_eq!(end, StepEnd::Fault(SyncFault::NoTarget));

    let node = || {
        let mut node: RustStateSync<InMemoryExecutionDb, u8> = RustStateSync::new(empty_client());
        node.update_target(header(10));
        node
    };
    let broken = response(first, vec![(SyncUpsertType::Account, vec![1, 2])], 9);
    let end = node().handle_response(1, &vec![broken]).end;
    assert_eq!(end, StepEnd::Fault(SyncFault::UpsertFailed));

    let mut twice = node();
    let same = response(first, vec![], 9);
    let end = twice.handle_response(1, &vec![same.clone(), same]).end;
    assert_eq!(end, StepEnd::Fault(SyncFault::NotAdvancing));

    let other_target = build_sync_request(0, 1, 11, u64::MAX, u64::MAX);
    let end = node().handle_response(1, &vec![response(other_target, vec![], 9)]).end;
    assert_eq!(end, StepEnd::Fault(SyncFault::NotCountable));

    let mut wrong_root = node();
    let mut wanted = header(10);
    wanted.state_root = FixedBytes([1; 32]);
    wrong_root.ctx.target = Some(wanted);
    let mut end = StepEnd::Going;
    for prefix in 0..256u64 {
        let all = StateSyncRequest { until: 10, ..build_sync_request(prefix, 1, 10, u64::MAX, 0) };
        end = wrong_root.handle_response(1, &vec![response(all, vec![], 10)]).end;
    }
    assert_eq!(end, StepEnd::Fault(SyncFault::StateMismatch));
}

#[test]
fn a_part_of_an_answer_does_not_end_its_request() {
    let mut node: RustStateSync<InMemoryExecutionDb, u8> = RustStateSync::new(empty_client());
    node.update_target(header(10));
    let first = build_sync_request(0, 1, 10, u64::MAX, u64::MAX);
    let outcome = node.handle_response(4, &vec![response(first, vec![], 0)]);
    assert_eq!(outcome.end, StepEnd::Going);
    assert!(outcome.queued.is_empty());
    assert!(matches!(node.next_event(), Some(SyncRequest::Completion(4, 7))));
    assert!(node.next_event().is_none());
}

#[test]
fn progress_counts_blocks_over_all_prefixes() {
    let mut progress = Progress::new();
    assert_eq!(progress.estimate(), None);
    progress.update_target(20_000);
    assert_eq!(progress.min_until_guess, Some(SeqNum(10_000)));
    let step = |from, until| StateSyncRequest {
        prefix: 0,
        prefix_bytes: 1,
        target: 20_000,
        from,
        until,
        old_target: u64::MAX,
    };
    assert!(progress.update_handled_request(&step(0, 9_000)));
    assert_eq!(progress.current_progress, Some(0));
    assert!(progress.update_handled_request(&step(9_001, 19_800)));
    assert_eq!(progress.current_progress, Some(19_800));
    assert!(progress.update_handled_request(&step(19_801, 20_000)));
    assert_eq!(progress.current_progress, Some(19_999));
    assert!(progress.is_sound());
    assert_eq!(progress.estimate(), Some(SeqNum(19_999 / 256)));
    assert!(!progress.update_handled_request(&StateSyncRequest { target: 1, ..step(0, 1) }));
    progress.update_reached_target(20_000);
    assert_eq!(progress.estimate(), Some(SeqNum(20_000)));
}

#[test]
fn requests_go_almost_to_the_target_first() {
    let first = build_sync_request(7, 1, 1000, u64::MAX, u64::MAX);
    assert_eq!((first.from, first.until), (0, 990));
    let second = build_sync_request(7, 1, 1000, 990, 1000);
    assert_eq!((second.from, second.until, second.old_target), (991, 1000, 1000));
    assert!(static_validate_request(&first).is_ok());
    assert!(static_validate_request(&second).is_ok());
}

#[test]
fn faulty_requests_are_refused_with_what_is_wrong() {
    let refused = |r: StateSyncRequest| static_validate_request(&r).unwrap_err().message();
    assert_eq!(
        refused(StateSyncRequest { prefix_bytes: 9, ..request(0, 1, 1) }),
        "invalid request: prefix_bytes > 8"
    );
    assert_eq!(refused(request(0, 1, u64::MAX)), "invalid request: target is INVALID");
    assert_eq!(refused(request(5, 4, 10)), "invalid request: from (5) > until (4)");
    assert_eq!(refused(request(1, 11, 10)), "invalid request: until (11) > target (10)");
    assert_eq!(
        refused(StateSyncRequest { old_target: 12, ..request(1, 2, 10) }),
        "invalid request: old_target (12) > target (10)"
    );
}

#[test]
fn a_server_says_why_it_cannot_answer() {
    let provider = MockStateSyncProvider::new(InMemoryExecutionDb::with_finalized(10));
    assert_eq!(
        provider.handle_sync_request(&request(0, 11, 11)).unwrap_err(),
        StateSyncError::VersionNotAvailable(11)
    );
    assert_eq!(
        StateSyncError::VersionNotAvailable(11).message(),
        "version not available: 11"
    );
    let with_header = StateSyncRequest { prefix: 2, ..request(0, 5, 5) };
    assert_eq!(
        provider.handle_sync_request(&with_header).unwrap_err().message(),
        "internal error: block header not available at version 2"
    );
    let since = StateSyncRequest { old_target: 3, ..request(0, 5, 5) };
    assert_eq!(
        provider.handle_sync_request(&since).unwrap_err().message(),
        "internal error: deletion not found during sync"
    );
    assert!(matches!(
        serve_message(&provider, StateSyncNetworkMessage::Request(to_network_request(&since))),
        ServerAction::Failed(_)
    ));
    assert!(matches!(
        serve_message(&provider, StateSyncNetworkMessage::Completion(3)),
        ServerAction::Nothing
    ));
    assert!(matches!(
        serve_message(&provider, StateSyncNetworkMessage::Other),
        ServerAction::Unexpected
    ));
}

#[test]
fn deletions_under_the_prefix_are_sent_in_order() {
    let gone: Address = FixedBytes([1; 20]);
    let hash = alloy_primitives::keccak256([1u8; 20]);
    let prefix = hash.0[0] as u64;
    let deletion = Deletion { address: gone, key: None };
    assert!(deletion_matches_prefix(&deletion, prefix, 1));
    assert!(!deletion_matches_prefix(&deletion, prefix ^ 1, 1));
    assert_eq!(from_prefix(0x0102, 2), vec![1, 2]);
    assert_eq!(from_prefix(0x0102, 1), vec![2]);

    let mut deletions = FinalizedDeletions::new();
    let key: B256 = FixedBytes([9; 32]);
    deletions.write(SeqNum(4), vec![deletion, Deletion { address: gone, key: Some(key) }]);
    deletions.write(SeqNum(5), vec![]);
    let db = server(5);
    let ask = StateSyncRequest {
        prefix,
        prefix_bytes: 1,
        target: 5,
        from: 0,
        until: 5,
        old_target: 3,
    };
    let result = handle_sync_request(&ask, &db, &deletions).expect("an answer");
    let deleted: Vec<_> = result
        .upserts
        .iter()
        .filter(|u| u.0 == SyncUpsertType::AccountDelete || u.0 == SyncUpsertType::StorageDelete)
        .collect();
    assert_eq!(deleted.len(), 2);
    assert_eq!(deleted[0].1, gone.0.to_vec());
    assert_eq!(deleted[1].1, [gone.0.to_vec(), key.0.to_vec()].concat());
    assert_eq!(result.done, SyncDone { success: true, prefix, n: 5 });

    let live = LiveStateSyncProvider::new(&db, &deletions);
    assert_eq!(live.handle_sync_request(&ask).expect("an answer").upserts, result.upserts);
}

#[test]
fn a_database_remembers_the_deletions_of_finalized_blocks() {
    let mut db = StateSyncServerDb::new(InMemoryExecutionDb::new());
    let gone: Address = FixedBytes([3; 20]);
    let mut deltas = StateDeltas::new();
    deltas.insert(gone, AccountDelta { old_account: Some(account(1)), ..AccountDelta::new() });
    let bundle = monad_execution::bundle::state_deltas_to_bundle(
        &deltas,
        &monad_execution::types::CodeMap::new(),
    );
    let id = BlockId(FixedBytes([1; 32]));
    db.commit(id, &header(1), bundle, &vec![], &vec![]);
    assert!(db.finalized_deletions().for_each(SeqNum(1)).is_none());
    assert!(db.can_finalize(SeqNum(1), id));
    db.finalize(SeqNum(1), id);
    let found = db.finalized_deletions().for_each(SeqNum(1)).expect("remembered");
    assert_eq!(found.len(), 1);
    assert_eq!(found[0].address, gone);
}

#[test]
fn accounts_and_slots_read_back_as_they_were_sent() {
    let addr: Address = FixedBytes([0x42; 20]);
    let acct = account(9);
    let data = encode_account(addr, &acct);
    assert_eq!(data.len(), 92);
    assert_eq!(decode_account_db(&data), Some((addr, acct)));
    let plain = EthAccount { code_hash: None, ..acct };
    let (_, read) = decode_account_db(&encode_account(addr, &plain)).unwrap();
    assert_eq!(read.code_hash, Some(ZERO));
    assert_eq!(decode_account_db(&data[..19]), None);
    let (_, short) = decode_account_db(&data[..30]).unwrap();
    assert_eq!((short.nonce, short.balance, short.code_hash), (9, U256::from_u64(0), None));

    let key: B256 = FixedBytes([5; 32]);
    let value: B256 = FixedBytes([6; 32]);
    assert_eq!(decode_storage_key(&encode_bytes32_compact(&key)), Some(key));
    assert_eq!(decode_storage_db(&[key.0, value.0].concat()), Some((key, value)));
    assert_eq!(decode_storage_db(&key.0), Some((key, ZERO)));
    assert_eq!(decode_storage_db(&key.0[..31]), None);
    assert!(matches!(
        parse_upsert(SyncUpsertType::AccountDelete, &addr.0),
        Some(Received::Account(a, None)) if a == addr
    ));
    assert!(parse_upsert(SyncUpsertType::AccountDelete, &addr.0[..19]).is_none());
}

#[test]
fn storage_that_comes_before_its_account_is_kept_aside() {
    let addr: Address = FixedBytes([0x42; 20]);
    let key: B256 = FixedBytes([5; 32]);
    let value: B256 = FixedBytes([6; 32]);
    let mut client = RustStateSyncClient::new(empty_client());
    let slot = (SyncUpsertType::Storage, storage_upsert(&addr, &key, &value));
    assert!(client.handle_response(0, &vec![slot]));
    assert!(client.applier.protocol.buffered.contains_key(&addr));

    let acct = (SyncUpsertType::Account, encode_account(addr, &account(9)));
    assert!(client.handle_response(0, &vec![acct]));
    assert!(client.applier.protocol.buffered.is_empty());
    client.applier.commit();
    assert_eq!(StateSyncApplierDb::read_storage(&client.applier.db, &addr, &key), value);
    assert_eq!(client.applier.db.accounts.get(&addr).map(|a| a.nonce), Some(9));
}

#[test]
fn an_account_that_is_deleted_and_created_again_is_written_in_two_steps() {
    let addr: Address = FixedBytes([0x42; 20]);
    let mut ctx = empty_client();
    ctx.db.accounts.insert(addr, account(1));
    assert_eq!(
        ctx.apply_upsert(0, SyncUpsertType::AccountDelete, &addr.0),
        UpsertStatus::Applied
    );
    let key: B256 = FixedBytes([5; 32]);
    let again = encode_account(addr, &account(2));
    assert_eq!(ctx.apply_upsert(0, SyncUpsertType::Account, &again), UpsertStatus::Applied);
    assert!(!ctx.db.accounts.contains_key(&addr));
    let delta = ctx.protocol.deltas.get(&addr).and_then(|d| d.as_ref()).expect("a new account");
    assert_eq!(delta.account.map(|a| a.nonce), Some(2));
    assert!(delta.storage.is_empty() && delta.storage.get(&key).is_none());
    assert!(ctx.protocol.pending_retry.is_empty() && !ctx.protocol.needs_commit);
    ctx.commit();
    assert_eq!(ctx.db.accounts.get(&addr).map(|a| a.nonce), Some(2));
    assert_eq!(ctx.apply_upsert(0, SyncUpsertType::Account, &[1]), UpsertStatus::Rejected);
}

#[test]
fn a_session_ends_only_with_all_code() {
    let addr: Address = FixedBytes([0x42; 20]);
    let code = vec![0x60, 0x01];
    let hash = FixedBytes(alloy_primitives::keccak256(&code).0);
    let finished = |with_code: bool| {
        let mut ctx = empty_client();
        ctx.set_target(&header(1));
        let acct = EthAccount { code_hash: Some(hash), ..account(1) };
        ctx.apply_upsert(0, SyncUpsertType::Account, &encode_account(addr, &acct));
        if with_code {
            ctx.apply_upsert(0, SyncUpsertType::Code, &code);
        }
        for prefix in 0..256 {
            assert!(!ctx.has_reached_target());
            ctx.handle_done(SyncDone { success: true, prefix, n: 1 });
        }
        assert!(ctx.has_reached_target());
        ctx.finalize()
    };
    assert!(!finished(false));
    assert!(finished(true));
}

#[test]
fn timers_move_only_when_they_have_to() {
    assert_eq!(plan_timer(None, None), TimerPlan::Clear);
    assert_eq!(plan_timer(Some(3), None), TimerPlan::Clear);
    assert_eq!(plan_timer(None, Some(3)), TimerPlan::Start(3));
    assert_eq!(plan_timer(Some(3), Some(3)), TimerPlan::Keep);
    assert_eq!(plan_timer(Some(3), Some(4)), TimerPlan::Reset(4));
    assert!(accepts_response(true, true));
    assert!(!accepts_response(true, false));
    assert!(!accepts_response(false, true));
    assert!(is_client_compatible(STATESYNC_VERSION));
    assert!(!is_client_compatible(STATESYNC_VERSION + 1));
}
