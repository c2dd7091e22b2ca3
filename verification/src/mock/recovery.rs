//! Senders that are made up from the place of a transaction in its block.

use vstd::prelude::*;

use crate::primitives::{Address, FixedBytes};
use crate::types::Transaction;

verus! {

/// What finds the senders of transactions, and the accounts that authorize them.
pub trait SignatureRecovery {
    fn recover_senders(&self, txs: &Vec<Transaction>) -> Vec<Address>;

    fn recover_authorities(&self, txs: &Vec<Transaction>) -> Vec<Vec<Option<Address>>>;
}

/// Senders that are made up from the place of a transaction in its block.
pub struct MockSignatureRecovery;

/// The bytes of the sender at a place: the place plus one, in two bytes, and then zeros.
pub open spec fn mock_sender(i: int) -> Seq<u8> {
    Seq::new(
        20,
        |j: int|
            if j == 0 {
                ((i + 1) / 256 % 256) as u8
            } else if j == 1 {
                ((i + 1) % 256) as u8
            } else {
                0u8
            },
    )
}

impl MockSignatureRecovery {
    pub fn new() -> (r: Self)
        ensures
            r == MockSignatureRecovery,
    {
        MockSignatureRecovery
    }
}

impl Default for MockSignatureRecovery {
    fn default() -> (r: Self)
        ensures
            r == MockSignatureRecovery,
    {
        Self::new()
    }
}

impl SignatureRecovery for MockSignatureRecovery {
    fn recover_senders(&self, txs: &Vec<Transaction>) -> (r: Vec<Address>)
        ensures
            r@.len() == txs@.len(),
            forall|i: int| 0 <= i < r@.len() ==> (#[trigger] r@[i])@ == mock_sender(i),
    {
        let mut r: Vec<Address> = Vec::new();
        let mut i: usize = 0;
        while i < txs.len()
            invariant
                i <= txs@.len(),
                r@.len() == i,
                forall|j: int| 0 <= j < i ==> (#[trigger] r@[j])@ == mock_sender(j),
            decreases txs@.len() - i,
        {
            let mut bytes = [0u8; 20];
            bytes[0] = ((i + 1) / 256 % 256) as u8;
            bytes[1] = ((i + 1) % 256) as u8;
            let addr = FixedBytes(bytes);
            assert(addr@ =~= mock_sender(i as int));
            r.push(addr);
            i = i + 1;
        }
        r
    }

    fn recover_authorities(&self, txs: &Vec<Transaction>) -> (r: Vec<Vec<Option<Address>>>)
        ensures
            r@.len() == txs@.len(),
            forall|i: int| 0 <= i < r@.len() ==> (#[trigger] r@[i])@.len() == 0,
    {
        let mut r: Vec<Vec<Option<Address>>> = Vec::new();
        let mut i: usize = 0;
        while i < txs.len()
            invariant
                i <= txs@.len(),
                r@.len() == i,
                forall|j: int| 0 <= j < i ==> (#[trigger] r@[j])@.len() == 0,
            decreases txs@.len() - i,
        {
            r.push(Vec::new());
            i = i + 1;
        }
        r
    }
}

/// Up to 65535 transactions have different senders.
pub proof fn lemma_senders_differ(i: int, j: int)
    requires
        0 <= i < j < 0xffff,
    ensures
        mock_sender(i) != mock_sender(j),
{
    let a = mock_sender(i);
    let b = mock_sender(j);
    if a == b {
        assert(a[0] == b[0]);
        assert(a[1] == b[1]);
        assert(i + 1 == (i + 1) / 256 * 256 + (i + 1) % 256);
        assert(j + 1 == (j + 1) / 256 * 256 + (j + 1) % 256);
    }
}

} // verus!
