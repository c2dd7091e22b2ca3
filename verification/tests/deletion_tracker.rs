use monad_execution::primitives::{Address, BlockId, FixedBytes, SeqNum};
use monad_execution::statesync::deletion_tracker::{
    extract_deletions, FinalizedDeletions, ProposedDeletions,
};
use monad_execution::statesync::types::Deletion;
use monad_execution::types::{AccountDelta, EthAccount, StateDeltas, StorageDelta};
use monad_execution::primitives::U256;

fn test_block_id(v: u8) -> BlockId {
    BlockId(FixedBytes([v; 32]))
}

fn count(fd: &FinalizedDeletions, seq_num: u64) -> Option<usize> {
    fd.for_each(SeqNum(seq_num)).map(|found| found.len())
}

#[test]
fn test_finalized_deletions_write_and_read() {
    let mut fd = FinalizedDeletions::new();
    let addr: Address = FixedBytes([1u8; 20]);
    let deletions = vec![
        Deletion { address: addr, key: None },
        Deletion { address: addr, key: Some(FixedBytes([2u8; 32])) },
    ];
    fd.write(SeqNum(100), deletions);

    assert_eq!(count(&fd, 100), Some(2));
    assert_eq!(count(&fd, 101), None);
}

#[test]
fn test_sequential_writes() {
    let mut fd = FinalizedDeletions::new();
    let addr: Address = FixedBytes([1u8; 20]);

    fd.write(SeqNum(100), vec![Deletion { address: addr, key: None }]);
    fd.write(
        SeqNum(101),
        vec![Deletion { address: addr, key: Some(FixedBytes([2u8; 32])) }],
    );

    assert_eq!(count(&fd, 100), Some(1));
    assert_eq!(count(&fd, 101), Some(1));
}

#[test]
fn test_proposed_deletions_on_finalize() {
    let mut pd = ProposedDeletions::new();
    let mut fd = FinalizedDeletions::new();

    let block_id = test_block_id(1);
    let addr: Address = FixedBytes([2u8; 20]);
    pd.push(SeqNum(10), block_id, vec![Deletion { address: addr, key: None }]);

    pd.on_finalize(&mut fd, SeqNum(10), block_id);

    assert_eq!(count(&fd, 10), Some(1));
    assert!(pd.is_empty());
}

#[test]
fn deletions_are_read_in_the_order_they_were_written() {
    let mut fd = FinalizedDeletions::new();
    let list: Vec<Deletion> = (0..5u8)
        .map(|i| Deletion { address: FixedBytes([i; 20]), key: None })
        .collect();
    fd.write(SeqNum(7), list);
    let found = fd.for_each(SeqNum(7)).unwrap();
    for i in 0..5u8 {
        assert_eq!(found[i as usize].address, FixedBytes([i; 20]));
    }
}

#[test]
fn finalizing_a_block_forgets_its_rivals() {
    let mut pd = ProposedDeletions::new();
    let mut fd = FinalizedDeletions::new();
    let a = Deletion { address: FixedBytes([1; 20]), key: None };
    let b = Deletion { address: FixedBytes([2; 20]), key: None };
    pd.push(SeqNum(10), test_block_id(1), vec![a]);
    pd.push(SeqNum(10), test_block_id(2), vec![b, b]);
    pd.push(SeqNum(11), test_block_id(3), vec![a]);
    pd.on_finalize(&mut fd, SeqNum(10), test_block_id(2));
    assert_eq!(count(&fd, 10), Some(2));
    assert!(!pd.is_empty());
    pd.on_finalize(&mut fd, SeqNum(11), test_block_id(3));
    assert_eq!(count(&fd, 11), Some(1));
    assert!(pd.is_empty());
}

#[test]
fn finalizing_an_unknown_block_records_nothing() {
    let mut pd = ProposedDeletions::new();
    let mut fd = FinalizedDeletions::new();
    pd.on_finalize(&mut fd, SeqNum(4), test_block_id(1));
    assert_eq!(count(&fd, 4), None);
}

#[test]
fn accounts_and_slots_that_vanish_are_deletions() {
    let account = EthAccount {
        nonce: 1,
        balance: U256::from_u64(5),
        code_hash: None,
        is_delegated: false,
    };
    let mut deltas = StateDeltas::new();
    let gone: Address = FixedBytes([1; 20]);
    let kept: Address = FixedBytes([2; 20]);
    deltas.insert(gone, AccountDelta { old_account: Some(account), ..AccountDelta::new() });
    let mut delta = AccountDelta {
        old_account: Some(account),
        new_account: Some(account),
        ..AccountDelta::new()
    };
    delta.storage.insert(
        FixedBytes([3; 32]),
        StorageDelta { old_value: FixedBytes([9; 32]), new_value: FixedBytes([0; 32]) },
    );
    delta.storage.insert(
        FixedBytes([4; 32]),
        StorageDelta { old_value: FixedBytes([0; 32]), new_value: FixedBytes([9; 32]) },
    );
    deltas.insert(kept, delta);
    let found = extract_deletions(&deltas);
    assert_eq!(found.len(), 2);
    assert!(found.iter().any(|d| d.address == gone && d.key.is_none()));
    assert!(found.iter().any(|d| d.address == kept && d.key == Some(FixedBytes([3; 32]))));
}

#[test]
fn exactly_the_latest_blocks_that_fit_are_remembered() {
    let gone = || Deletion { address: FixedBytes([7; 20]), key: None };
    let mut fd = FinalizedDeletions::new();
    for (seq, n) in [(10, 900_000), (11, 0), (12, 700_000), (13, 500_000), (14, 100)] {
        fd.write(SeqNum(seq), (0..n).map(|_| gone()).collect());
    }
    assert_eq!(count(&fd, 10), None);
    assert_eq!(count(&fd, 11), Some(0));
    assert_eq!(count(&fd, 12), Some(700_000));
    assert_eq!(count(&fd, 13), Some(500_000));
    assert_eq!(count(&fd, 14), Some(100));
    assert_eq!(count(&fd, 15), None);

    let mut many = FinalizedDeletions::new();
    for seq in 5..43_210 {
        many.write(SeqNum(seq), if seq % 10_000 == 0 { vec![gone()] } else { vec![] });
    }
    assert_eq!(count(&many, 9), None);
    assert_eq!(count(&many, 10), Some(0));
    assert_eq!(count(&many, 20_000), Some(1));
    assert_eq!(count(&many, 43_209), Some(0));
}
