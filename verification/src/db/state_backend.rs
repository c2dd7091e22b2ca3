//! What consensus asks of finalized state.

use vstd::prelude::*;

use crate::db::bridge::{reth_to_monad_account, stored_account, Account};
use crate::header::BlockHeader;
use crate::primitives::{Address, SeqNum};
use crate::types::EthAccount;

verus! {

/// Why finalized state could not be read.
#[derive(Clone, Copy, Debug, PartialEq, Eq, Structural)]
pub enum StateBackendError {
    NotAvailableYet,
}

/// The highest block of storage: 0 if there is none.
pub fn last_block_number(last: Option<u64>) -> (r: SeqNum)
    ensures
        r.0 == match last {
            Some(n) => n,
            None => 0,
        },
{
    match last {
        Some(n) => SeqNum(n),
        None => SeqNum(0),
    }
}

/// The latest finalized block, where `last` is the highest block of storage and `has_genesis` tells
/// whether block 0 is there. An empty database has none.
pub open spec fn latest_block(last: SeqNum, has_genesis: bool) -> Option<SeqNum> {
    if last.0 != 0 || has_genesis {
        Some(last)
    } else {
        None
    }
}

/// The latest finalized block.
pub fn read_latest_finalized(last: SeqNum, has_genesis: bool) -> (r: Option<SeqNum>)
    ensures
        r == latest_block(last, has_genesis),
{
    if last.0 == 0 {
        if has_genesis {
            return Some(SeqNum(0));
        }
        return None;
    }
    Some(last)
}

/// Whether a block can be read where `latest` is the latest finalized one.
pub open spec fn available(latest: Option<SeqNum>, seq_num: SeqNum) -> bool {
    latest is Some && seq_num.0 <= (latest->0).0
}

/// What consensus asks of finalized state, and how often it did.
pub struct RethStateBackend {
    total_lookups: u64,
}

impl View for RethStateBackend {
    type V = u64;

    closed spec fn view(&self) -> u64 {
        self.total_lookups
    }
}

impl RethStateBackend {
    pub fn new() -> (r: Self)
        ensures
            r@ == 0,
    {
        RethStateBackend { total_lookups: 0 }
    }

    /// The accounts at some addresses, in their order, where `latest` is the latest finalized block
    /// and `read` reads an account from storage.
    pub fn get_account_statuses<F: Fn(&Address) -> Option<Account>>(
        &mut self,
        latest: Option<SeqNum>,
        seq_num: SeqNum,
        addresses: &Vec<Address>,
        read: F,
    ) -> (r: Result<Vec<Option<EthAccount>>, StateBackendError>)
        requires
            forall|a: &Address| #[trigger] call_requires(read, (a,)),
        ensures
            match r {
                Ok(accounts) => {
                    &&& available(latest, seq_num)
                    &&& accounts@.len() == addresses@.len()
                    &&& forall|i: int|
                        0 <= i < accounts@.len() ==> account_read(
                            read,
                            addresses@[i],
                            #[trigger] accounts@[i],
                        )
                    &&& final(self)@ == wrapping_count(old(self)@, addresses@.len())
                },
                Err(_) => !available(latest, seq_num) && final(self)@ == old(self)@,
            },
    {
        match latest {
            Some(latest) => {
                if seq_num.0 > latest.0 {
                    return Err(StateBackendError::NotAvailableYet);
                }
            },
            None => {
                return Err(StateBackendError::NotAvailableYet);
            },
        }
        let mut accounts: Vec<Option<EthAccount>> = Vec::new();
        let mut i: usize = 0;
        while i < addresses.len()
            invariant
                i <= addresses@.len(),
                accounts@.len() == i,
                forall|a: &Address| #[trigger] call_requires(read, (a,)),
                forall|j: int|
                    0 <= j < i ==> account_read(read, addresses@[j], #[trigger] accounts@[j]),
            decreases addresses@.len() - i,
        {
            let account = match read(&addresses[i]) {
                Some(acc) => {
                    proof {
                        assert(call_ensures(read, (&addresses@[i as int],), Some(acc)));
                    }
                    Some(reth_to_monad_account(&acc))
                },
                None => None,
            };
            accounts.push(account);
            i = i + 1;
        }
        self.total_lookups = self.total_lookups.wrapping_add(addresses.len() as u64);
        Ok(accounts)
    }

    /// The header of a block, where `latest` is the latest finalized block and `header` is what
    /// storage has for the block.
    pub fn get_execution_result(
        &self,
        latest: Option<SeqNum>,
        seq_num: SeqNum,
        header: Option<BlockHeader>,
    ) -> (r: Result<BlockHeader, StateBackendError>)
        ensures
            match r {
                Ok(h) => available(latest, seq_num) && header == Some(h),
                Err(_) => !available(latest, seq_num) || header is None,
            },
    {
        match latest {
            Some(latest) => {
                if seq_num.0 > latest.0 {
                    return Err(StateBackendError::NotAvailableYet);
                }
            },
            None => {
                return Err(StateBackendError::NotAvailableYet);
            },
        }
        match header {
            Some(h) => Ok(h),
            None => Err(StateBackendError::NotAvailableYet),
        }
    }

    /// The oldest block that can be read: block 0, unless the database is empty.
    pub fn raw_read_earliest_finalized_block(&self, latest: Option<SeqNum>) -> (r: Option<SeqNum>)
        ensures
            r == match latest {
                Some(_) => Some(SeqNum(0)),
                None => None,
            },
    {
        match latest {
            Some(_) => Some(SeqNum(0)),
            None => None,
        }
    }

    /// The newest block that can be read.
    pub fn raw_read_latest_finalized_block(&self, latest: Option<SeqNum>) -> (r: Option<SeqNum>)
        ensures
            r == latest,
    {
        latest
    }

    /// How many accounts were looked up, modulo 2 to the power 64.
    pub fn total_db_lookups(&self) -> (r: u64)
        ensures
            r == self@,
    {
        self.total_lookups
    }
}

/// Whether `account` is what reading an address gives.
pub open spec fn account_read<F: Fn(&Address) -> Option<Account>>(
    read: F,
    address: Address,
    account: Option<EthAccount>,
) -> bool {
    match account {
        Some(acct) => exists|stored: Account| #[trigger]
            call_ensures(read, (&address,), Some(stored)) && acct == stored_account(stored),
        None => call_ensures(read, (&address,), None),
    }
}

/// A count after `n` more, modulo 2 to the power 64.
pub open spec fn wrapping_count(count: u64, n: nat) -> u64 {
    ((count + n) % 0x1_0000_0000_0000_0000) as u64
}

/// A database that has any block has a latest one: the highest. Block 0 counts only if it is there.
pub proof fn lemma_latest_block_is_the_highest(last: SeqNum, has_genesis: bool)
    ensures
        last.0 > 0 || has_genesis ==> latest_block(last, has_genesis) == Some(last),
        last.0 == 0 && !has_genesis ==> latest_block(last, has_genesis) is None,
{
}

/// Finalized blocks can be read, and no others.
pub proof fn lemma_only_finalized_blocks_are_available(latest: Option<SeqNum>, seq_num: SeqNum)
    ensures
        latest is None ==> !available(latest, seq_num),
        latest is Some ==> (available(latest, seq_num) <==> seq_num.0 <= (latest->0).0),
{
}

/// Every account that is looked up counts, modulo 2 to the power 64.
pub proof fn lemma_lookups_are_counted(count: u64, n: nat)
    ensures
        count + n <= u64::MAX ==> wrapping_count(count, n) == count + n,
        count + n == u64::MAX + 1 ==> wrapping_count(count, n) == 0,
{
}

} // verus!
