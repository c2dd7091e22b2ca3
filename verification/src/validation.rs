//! Checks on the results of execution.

use vstd::prelude::*;

use crate::header::{hash_slow, header_hash, BlockHeader, ProposedEthHeader};
use crate::primitives::{SeqNum, B256};
use crate::traits::{BlockHashBuffer, ExecutionError};

verus! {

/// The hash of a block.
pub fn compute_block_hash(header: &BlockHeader) -> (r: B256)
    ensures
        r == header_hash(header@),
{
    hash_slow(header)
}

/// Whether the results that a block vouches for are those of consecutive blocks, each with the hash
/// that is known for it.
pub fn validate_delayed_execution_results<B: BlockHashBuffer>(
    block_hash_buffer: &B,
    execution_results: &Vec<BlockHeader>,
) -> (r: bool)
    ensures
        r == forall|i: int|
            0 <= i < execution_results@.len() ==> {
                let header = #[trigger] execution_results@[i];
                &&& header.number == execution_results@[0].number + i
                &&& header_hash(header@) == block_hash_buffer.spec_get(SeqNum(header.number))
            },
{
    let mut i: usize = 0;
    while i < execution_results.len()
        invariant
            i <= execution_results@.len(),
            forall|j: int|
                0 <= j < i ==> {
                    let header = #[trigger] execution_results@[j];
                    &&& header.number == execution_results@[0].number + j
                    &&& header_hash(header@) == block_hash_buffer.spec_get(SeqNum(header.number))
                },
        decreases execution_results@.len() - i,
    {
        let header = &execution_results[i];
        let first = execution_results[0].number;
        if header.number < first || (header.number - first) as u128 != i as u128 {
            assert(execution_results@[i as int].number != execution_results@[0].number + i);
            return false;
        }
        let block_hash = compute_block_hash(header);
        let stored_hash = block_hash_buffer.get(SeqNum(header.number));
        if block_hash != stored_hash {
            assert(header_hash(execution_results@[i as int]@) != block_hash_buffer.spec_get(
                SeqNum(execution_results@[i as int].number),
            ));
            return false;
        }
        i = i + 1;
    }
    true
}

/// What is wrong with the header that executing a block gave, if anything is.
pub open spec fn output_fault(input: ProposedEthHeader, output: BlockHeader) -> Option<
    ExecutionError,
> {
    if input.ommers_hash != output.ommers_hash {
        Some(ExecutionError::WrongOmmersHash)
    } else if input.transactions_root != output.transactions_root {
        Some(ExecutionError::WrongMerkleRoot)
    } else if output.withdrawals_root != Some(input.withdrawals_root) {
        Some(ExecutionError::WrongMerkleRoot)
    } else if output.gas_used > output.gas_limit {
        Some(ExecutionError::GasAboveLimit)
    } else {
        None
    }
}

/// Checks the header that executing a block gave against what consensus fixed of the block.
pub fn validate_live_execution_outputs(input: &ProposedEthHeader, output: &BlockHeader) -> (r:
    Result<(), ExecutionError>)
    ensures
        match r {
            Ok(()) => output_fault(*input, *output) is None,
            Err(e) => output_fault(*input, *output) == Some(e),
        },
{
    if input.ommers_hash != output.ommers_hash {
        return Err(ExecutionError::WrongOmmersHash);
    }
    if input.transactions_root != output.transactions_root {
        return Err(ExecutionError::WrongMerkleRoot);
    }
    match output.withdrawals_root {
        Some(root) => {
            if input.withdrawals_root != root {
                return Err(ExecutionError::WrongMerkleRoot);
            }
        },
        None => {
            return Err(ExecutionError::WrongMerkleRoot);
        },
    }
    if output.gas_used > output.gas_limit {
        return Err(ExecutionError::GasAboveLimit);
    }
    Ok(())
}

/// The header that executing a block gave is what consensus agreed on exactly if the ommers, the
/// transactions and the withdrawals are those that were fixed and no more gas was used than allowed.
/// Otherwise the error names what is wrong first.
pub proof fn lemma_output_is_what_consensus_fixed(input: ProposedEthHeader, output: BlockHeader)
    ensures
        output_fault(input, output) is None <==> {
            &&& output.ommers_hash == input.ommers_hash
            &&& output.transactions_root == input.transactions_root
            &&& output.withdrawals_root == Some(input.withdrawals_root)
            &&& output.gas_used <= output.gas_limit
        },
        output.ommers_hash != input.ommers_hash <==> output_fault(input, output) == Some(
            ExecutionError::WrongOmmersHash,
        ),
        output_fault(input, output) == Some(ExecutionError::GasAboveLimit) ==> output.gas_used
            > output.gas_limit,
        output_fault(input, output) == Some(ExecutionError::WrongMerkleRoot) ==> {
            ||| output.transactions_root != input.transactions_root
            ||| output.withdrawals_root != Some(input.withdrawals_root)
        },
        output_fault(input, output) is Some ==> {
            ||| output_fault(input, output)->0 is WrongOmmersHash
            ||| output_fault(input, output)->0 is WrongMerkleRoot
            ||| output_fault(input, output)->0 is GasAboveLimit
        },
{
}

} // verus!
