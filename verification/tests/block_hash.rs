use monad_execution::block_hash::{
    BlockHashBufferFinalized, BlockHashBufferProposal, BlockHashChain,
};
use monad_execution::header::BlockHeader;
use monad_execution::mock::db::InMemoryExecutionDb;
use monad_execution::primitives::{BlockId, FixedBytes, SeqNum, B256};
use monad_execution::traits::{BlockHashBuffer, ExecutionDb};
use monad_execution::validation::compute_block_hash;

fn word(v: u8) -> B256 {
    FixedBytes([v; 32])
}

fn test_block_id(v: u8) -> BlockId {
    BlockId(word(v))
}

#[test]
fn test_finalized_buffer_sequential_set() {
    let mut buf = BlockHashBufferFinalized::new();
    let hash0 = word(0xAA);
    let hash1 = word(0xBB);

    buf.set(SeqNum(0), hash0);
    assert_eq!(buf.n(), SeqNum(1));
    assert_eq!(buf.get(SeqNum(0)), hash0);

    buf.set(SeqNum(1), hash1);
    assert_eq!(buf.n(), SeqNum(2));
    assert_eq!(buf.get(SeqNum(1)), hash1);

    assert_eq!(buf.get(SeqNum(2)), word(0));
}

#[test]
fn test_proposal_from_finalized() {
    let mut fin = BlockHashBufferFinalized::new();
    fin.set(SeqNum(0), word(1));
    fin.set(SeqNum(1), word(2));

    let hash_2 = word(3);
    let prop = BlockHashBufferProposal::from_finalized(hash_2, fin.n());

    assert_eq!(prop.n(), SeqNum(3));
    assert_eq!(prop.get_with_fallback(SeqNum(2), &fin), hash_2);
    assert_eq!(prop.get_with_fallback(SeqNum(1), &fin), word(2));
    assert_eq!(prop.get_with_fallback(SeqNum(0), &fin), word(1));
}

#[test]
fn test_proposal_chain() {
    let mut fin = BlockHashBufferFinalized::new();
    fin.set(SeqNum(0), word(1));

    let hash_1 = word(0xAA);
    let prop_a = BlockHashBufferProposal::from_finalized(hash_1, fin.n());

    let hash_2 = word(0xBB);
    let prop_b = BlockHashBufferProposal::from_proposal(hash_2, &prop_a);

    assert_eq!(prop_b.get_with_fallback(SeqNum(2), &fin), hash_2);
    assert_eq!(prop_b.get_with_fallback(SeqNum(1), &fin), hash_1);
    assert_eq!(prop_b.get_with_fallback(SeqNum(0), &fin), word(1));
}

#[test]
fn test_block_hash_chain_propose_and_finalize() {
    let mut finalized = BlockHashBufferFinalized::new();
    finalized.set(SeqNum(0), word(0xAA));

    let mut chain = BlockHashChain::new(finalized);

    let block_id_1 = test_block_id(1);
    let block_hash_1 = word(0xBB);
    let parent_id_0 = test_block_id(0);

    chain.propose(block_hash_1, SeqNum(1), block_id_1, parent_id_0);

    let buf = chain.find_chain(&block_id_1);
    assert_eq!(buf.get(SeqNum(1)), block_hash_1);
    assert_eq!(buf.get(SeqNum(0)), word(0xAA));

    assert_eq!(chain.finalized().n(), SeqNum(1));

    chain.finalize(block_id_1);
    assert_eq!(chain.finalized().n(), SeqNum(2));
    assert_eq!(chain.finalized().get(SeqNum(1)), block_hash_1);
}

#[test]
fn test_finalize_only_writes_one_hash() {
    let mut finalized = BlockHashBufferFinalized::new();
    finalized.set(SeqNum(0), word(0xAA));

    let mut chain = BlockHashChain::new(finalized);

    let bid1 = test_block_id(1);
    chain.propose(word(0xBB), SeqNum(1), bid1, test_block_id(0));

    let bid2 = test_block_id(2);
    chain.propose(word(0xCC), SeqNum(2), bid2, bid1);

    chain.finalize(bid1);
    assert_eq!(chain.finalized().n(), SeqNum(2));

    chain.finalize(bid2);
    assert_eq!(chain.finalized().n(), SeqNum(3));
    assert_eq!(chain.finalized().get(SeqNum(2)), word(0xCC));
}

#[test]
fn finalized_buffer_forgets_blocks_that_are_too_old() {
    let mut buf = BlockHashBufferFinalized::new();
    for i in 0..300u64 {
        buf.set(SeqNum(i), word((i % 251) as u8 + 1));
    }
    assert_eq!(buf.n(), SeqNum(300));
    assert_eq!(buf.get(SeqNum(299)), word((299 % 251) as u8 + 1));
    assert_eq!(buf.get(SeqNum(44)), word(45));
}

#[test]
fn forks_do_not_see_each_other() {
    let mut finalized = BlockHashBufferFinalized::new();
    finalized.set(SeqNum(0), word(0xAA));
    let mut chain = BlockHashChain::new(finalized);
    chain.propose(word(0x01), SeqNum(1), test_block_id(1), test_block_id(0));
    chain.propose(word(0x02), SeqNum(1), test_block_id(2), test_block_id(0));
    chain.propose(word(0x03), SeqNum(2), test_block_id(3), test_block_id(2));

    assert_eq!(chain.find_chain(&test_block_id(1)).get(SeqNum(1)), word(0x01));
    assert_eq!(chain.find_chain(&test_block_id(3)).get(SeqNum(1)), word(0x02));
    assert_eq!(chain.find_chain(&test_block_id(3)).get(SeqNum(2)), word(0x03));
    assert_eq!(chain.next_number(&test_block_id(3)), SeqNum(3));

    assert!(chain.can_finalize(&test_block_id(2)));
    chain.finalize(test_block_id(2));
    assert_eq!(chain.finalized().get(SeqNum(1)), word(0x02));
}

#[test]
fn an_unknown_parent_falls_back_to_finalized_hashes() {
    let mut finalized = BlockHashBufferFinalized::new();
    finalized.set(SeqNum(0), word(0xAA));
    let chain = BlockHashChain::new(finalized);
    assert_eq!(chain.find_chain(&test_block_id(9)).get(SeqNum(0)), word(0xAA));
    assert_eq!(chain.find_chain(&test_block_id(9)).get(SeqNum(1)), word(0));
}

#[test]
fn hashes_are_loaded_from_a_database() {
    let mut db = InMemoryExecutionDb::new();
    for number in 0..3u64 {
        let header = BlockHeader { number, gas_limit: 7, ..BlockHeader::empty() };
        db.headers.insert(SeqNum(number), header);
    }
    db.finalize(SeqNum(3), test_block_id(0));
    let mut buf = BlockHashBufferFinalized::new();
    buf.init_from_db(&mut db, SeqNum(3));
    let header = BlockHeader { number: 2, gas_limit: 7, ..BlockHeader::empty() };
    assert_eq!(buf.get(SeqNum(2)), compute_block_hash(&header));
}

#[test]
fn loading_replaces_whatever_was_there() {
    let mut db = InMemoryExecutionDb::new();
    for number in (40..300u64).filter(|n| *n != 100) {
        db.headers.insert(SeqNum(number), BlockHeader { number, ..BlockHeader::empty() });
    }
    let mut buf = BlockHashBufferFinalized::with_initial(SeqNum(7));
    for seq in 7..400 {
        buf.set(SeqNum(seq), word(0xEE));
    }
    buf.init_from_db(&mut db, SeqNum(300));
    assert_eq!(buf.n(), SeqNum(300));
    for seq in 0..600 {
        let header = BlockHeader { number: seq, ..BlockHeader::empty() };
        let loaded = (44..300).contains(&seq) && seq != 100;
        let expected = if loaded { compute_block_hash(&header) } else { word(0) };
        assert_eq!(buf.get(SeqNum(seq)), expected);
    }
}
