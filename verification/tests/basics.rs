use monad_execution::block_cache::{
    insert_block_cache, prune_block_cache, BlockCache, BlockCacheEntry,
};
use monad_execution::ethcall::MonadTracer;
use monad_execution::hashing::has_prefix;
use monad_execution::header::{
    decode_header, encode_header, BlockHeader, EMPTY_OMMER_ROOT_BYTES, EMPTY_ROOT_BYTES,
};
use monad_execution::keymap::KeyMap;
use monad_execution::persist::{
    body_key, find_body, find_header, head_key, header_key, parse_proposed_head, put_head,
    put_once, ConsensusBlockBodyId, Head, LedgerError,
};
use monad_execution::primitives::{be_digits, BlockId, FixedBytes, B256, U256};
use monad_execution::revision::{EvmRevision, MonadRevision};
use monad_execution::types::KECCAK_EMPTY_BYTES;
use monad_execution::validation::compute_block_hash;

fn full_header() -> BlockHeader {
    BlockHeader {
        parent_hash: FixedBytes([1; 32]),
        ommers_hash: FixedBytes([2; 32]),
        beneficiary: FixedBytes([3; 20]),
        state_root: FixedBytes([4; 32]),
        transactions_root: FixedBytes([5; 32]),
        receipts_root: FixedBytes([6; 32]),
        logs_bloom: FixedBytes([7; 256]),
        difficulty: U256::from_u64(8),
        number: 9,
        gas_limit: 10,
        gas_used: 11,
        timestamp: 12,
        extra_data: vec![13, 14],
        mix_hash: FixedBytes([15; 32]),
        nonce: FixedBytes([16; 8]),
        base_fee_per_gas: Some(17),
        withdrawals_root: Some(FixedBytes([18; 32])),
        blob_gas_used: Some(19),
        excess_blob_gas: Some(20),
        parent_beacon_block_root: Some(FixedBytes([21; 32])),
        requests_hash: Some(FixedBytes([22; 32])),
    }
}

fn alloy_header() -> alloy_consensus::Header {
    alloy_consensus::Header {
        parent_hash: alloy_primitives::B256::repeat_byte(1),
        ommers_hash: alloy_primitives::B256::repeat_byte(2),
        beneficiary: alloy_primitives::Address::repeat_byte(3),
        state_root: alloy_primitives::B256::repeat_byte(4),
        transactions_root: alloy_primitives::B256::repeat_byte(5),
        receipts_root: alloy_primitives::B256::repeat_byte(6),
        logs_bloom: alloy_primitives::Bloom::repeat_byte(7),
        difficulty: alloy_primitives::U256::from(8),
        number: 9,
        gas_limit: 10,
        gas_used: 11,
        timestamp: 12,
        extra_data: vec![13, 14].into(),
        mix_hash: alloy_primitives::B256::repeat_byte(15),
        nonce: alloy_primitives::B64::repeat_byte(16),
        base_fee_per_gas: Some(17),
        withdrawals_root: Some(alloy_primitives::B256::repeat_byte(18)),
        blob_gas_used: Some(19),
        excess_blob_gas: Some(20),
        parent_beacon_block_root: Some(alloy_primitives::B256::repeat_byte(21)),
        requests_hash: Some(alloy_primitives::B256::repeat_byte(22)),
        ..Default::default()
    }
}

#[test]
fn constants_are_those_of_the_chain() {
    assert_eq!(KECCAK_EMPTY_BYTES, alloy_consensus::constants::KECCAK_EMPTY.0);
    assert_eq!(EMPTY_OMMER_ROOT_BYTES, alloy_consensus::constants::EMPTY_OMMER_ROOT_HASH.0);
    assert_eq!(EMPTY_ROOT_BYTES, alloy_consensus::constants::EMPTY_ROOT_HASH.0);
}

#[test]
fn headers_are_hashed_and_encoded_as_the_chain_does() {
    assert_eq!(compute_block_hash(&full_header()).0, alloy_header().hash_slow().0);
    assert_eq!(encode_header(&full_header()), alloy_rlp::encode(alloy_header()));
    assert_eq!(decode_header(&alloy_rlp::encode(alloy_header())), Some(full_header()));
    assert_eq!(decode_header(&encode_header(&BlockHeader::empty())), Some(BlockHeader::empty()));
    assert_eq!(decode_header(&[0xff]), None);
    let empty = alloy_consensus::Header::default();
    assert_eq!(compute_block_hash(&BlockHeader::empty()).0, empty.hash_slow().0);
}

#[test]
fn numbers_are_written_big_end_first() {
    assert_eq!(be_digits(0x0102, 4), vec![0, 0, 1, 2]);
    assert_eq!(be_digits(0x010203, 2), vec![2, 3]);
    assert_eq!(U256::from_u64(0x0102).0 .0[30..], [1, 2]);
    assert!(U256::from_u64(5).at_least(&U256::from_u64(5)));
    assert!(!U256::from_u64(4).at_least(&U256::from_u64(5)));
    assert!(has_prefix(&[1, 2, 3], &[1, 2]));
    assert!(!has_prefix(&[1, 2, 3], &[2]));
    assert!(!has_prefix(&[1], &[1, 2]));
}

#[test]
fn a_map_keeps_one_value_for_each_key() {
    let mut map: KeyMap<B256, u64> = KeyMap::new();
    let one = FixedBytes([1; 32]);
    let two = FixedBytes([2; 32]);
    assert!(map.is_empty());
    assert_eq!(map.insert(one, 10), None);
    assert_eq!(map.insert(two, 20), None);
    assert_eq!(map.insert(one, 11), Some(10));
    assert_eq!(map.len(), 2);
    assert_eq!(map.get(&one), Some(&11));
    let mut keys = map.keys();
    keys.sort_by_key(|k| k.0);
    assert_eq!(keys, vec![one, two]);
    assert_eq!(map.remove(&one), Some(11));
    assert!(!map.contains_key(&one));
    map.clear();
    assert_eq!(map.len(), 0);
}

#[test]
fn old_blocks_leave_the_cache() {
    let mut cache = BlockCache::new();
    for n in 1..=5u8 {
        let entry = BlockCacheEntry { block_number: n as u64 };
        assert!(insert_block_cache(&mut cache, FixedBytes([n; 32]), entry));
        assert!(!insert_block_cache(&mut cache, FixedBytes([n; 32]), entry));
    }
    prune_block_cache(&mut cache, 1);
    assert_eq!(cache.len(), 5);
    prune_block_cache(&mut cache, 4);
    assert_eq!(cache.len(), 3);
    assert!(!cache.contains_key(&FixedBytes([2; 32])));
    assert!(cache.contains_key(&FixedBytes([3; 32])));
}

#[test]
fn the_last_revision_that_started_applies() {
    let starts = [0, 100, 200, 300, 400];
    assert_eq!(MonadRevision::from_timestamp(250, &starts), MonadRevision::Two);
    assert_eq!(MonadRevision::from_timestamp(400, &starts), MonadRevision::Four);
    assert_eq!(MonadRevision::from_timestamp(50, &[60]), MonadRevision::Zero);
    assert_eq!(MonadRevision::from_timestamp(1, &[]), MonadRevision::Zero);
    assert_eq!(MonadRevision::from_timestamp(9, &[1; 11]), MonadRevision::Next);
    assert_eq!(MonadRevision::Three.evm_revision(), EvmRevision::Cancun);
    assert_eq!(MonadRevision::Four.evm_revision(), EvmRevision::Prague);
    assert_eq!(MonadRevision::Nine.evm_revision(), EvmRevision::Osaka);
}

#[test]
fn tracers_have_their_codes() {
    assert_eq!(MonadTracer::NoopTracer.code(), 0);
    assert_eq!(MonadTracer::CallTracer.code(), 1);
    assert_eq!(MonadTracer::PreStateTracer.code(), 2);
    assert_eq!(MonadTracer::StateDiffTracer.code(), 3);
    assert_eq!(MonadTracer::AccessListTracer.code(), 4);
}

#[test]
fn ledger_keys_tell_headers_bodies_and_heads_apart() {
    let id = BlockId(FixedBytes([7; 32]));
    let body = ConsensusBlockBodyId(FixedBytes([7; 32]));
    assert_eq!(header_key(&id), [b"v1/h/".to_vec(), vec![7; 32]].concat());
    assert_eq!(body_key(&body), [b"v1/b/".to_vec(), vec![7; 32]].concat());
    assert_eq!(head_key(Head::Proposed), b"v1/meta/proposed_head".to_vec());
    assert_eq!(head_key(Head::Voted), b"v1/meta/voted_head".to_vec());
    assert_eq!(head_key(Head::Finalized), b"v1/meta/finalized_head".to_vec());
}

#[test]
fn a_head_reads_back() {
    let id = BlockId(FixedBytes([7; 32]));
    let put = put_head(Head::Proposed, &id);
    assert_eq!(put.key, head_key(Head::Proposed));
    assert_eq!(parse_proposed_head(&Some(put.value)), Ok(id));
    assert_eq!(parse_proposed_head(&None), Err(LedgerError::NoProposedHead));
    assert_eq!(
        parse_proposed_head(&Some(vec![1, 2])),
        Err(LedgerError::CorruptProposedHead)
    );
    assert!(LedgerError::NoProposedHead.is_not_found());
    assert!(!LedgerError::CorruptProposedHead.is_not_found());
}

#[test]
fn headers_and_bodies_are_kept_once() {
    let put = put_once(false, vec![1], vec![2]).expect("written");
    assert_eq!((put.key, put.value), (vec![1], vec![2]));
    assert!(put_once(true, vec![1], vec![2]).is_none());
    assert_eq!(find_header(Some(vec![2])), Ok(vec![2]));
    assert_eq!(find_header(None), Err(LedgerError::HeaderNotFound));
    assert_eq!(find_body(Some(vec![2])), Ok(vec![2]));
    assert_eq!(find_body(None), Err(LedgerError::BodyNotFound));
}
