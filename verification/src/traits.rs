//! What the engine needs of a database, of an executor and of a store of block hashes.

use vstd::prelude::*;

use crate::bundle::{Bundle, BundleView};
use crate::header::{BlockHeader, HeaderView};
use crate::primitives::{Address, BlockId, SeqNum, B256};
use crate::transactions::{
    receipts_view, txs_view, ReceiptEnvelope, ReceiptView, TxEnvelope, TxType,
};
use crate::types::{Block, BlockExecOutput, EthAccount};

verus! {

/// Why a block could not be executed.
#[derive(Clone, Debug, PartialEq, Eq)]
pub enum ExecutionError {
    ValidationError(String),
    WrongOmmersHash,
    WrongMerkleRoot,
    GasAboveLimit,
    DatabaseError(String),
    InternalError(String),
}

impl ExecutionError {
    /// What an error says.
    pub open spec fn spec_message(&self) -> Seq<char> {
        match *self {
            ExecutionError::ValidationError(m) => "block validation error: "@ + m@,
            ExecutionError::WrongOmmersHash => "wrong ommers hash"@,
            ExecutionError::WrongMerkleRoot => "wrong merkle root"@,
            ExecutionError::GasAboveLimit => "gas above limit"@,
            ExecutionError::DatabaseError(m) => "database error: "@ + m@,
            ExecutionError::InternalError(m) => "internal error: "@ + m@,
        }
    }

    /// What an error says.
    pub fn message(&self) -> (r: String)
        ensures
            r@ == self.spec_message(),
    {
        match self {
            ExecutionError::ValidationError(m) => String::from_str(
                "block validation error: ",
            ).concat(m.as_str()),
            ExecutionError::WrongOmmersHash => String::from_str("wrong ommers hash"),
            ExecutionError::WrongMerkleRoot => String::from_str("wrong merkle root"),
            ExecutionError::GasAboveLimit => String::from_str("gas above limit"),
            ExecutionError::DatabaseError(m) => String::from_str("database error: ").concat(
                m.as_str(),
            ),
            ExecutionError::InternalError(m) => String::from_str("internal error: ").concat(
                m.as_str(),
            ),
        }
    }
}

/// Hashes of blocks by their number.
pub trait BlockHashBuffer {
    /// The hash that is known for a block; zero if none is.
    spec fn spec_get(&self, seq_num: SeqNum) -> B256;

    fn get(&self, seq_num: SeqNum) -> (r: B256)
        ensures
            r == self.spec_get(seq_num),
    ;
}

/// A change that was asked of a database.
pub enum DbOp {
    SetBlock { seq_num: SeqNum, block_id: BlockId },
    Commit {
        block_id: BlockId,
        header: HeaderView,
        bundle: BundleView,
        receipts: Seq<(TxType, ReceiptView)>,
        transactions: Seq<Seq<u8>>,
    },
    Finalize { seq_num: SeqNum, block_id: BlockId },
    Voted { seq_num: SeqNum, block_id: BlockId },
    Proposed { seq_num: SeqNum, block_id: BlockId },
    Verified { seq_num: SeqNum },
}

/// The state that blocks are executed on.
pub trait ExecutionDb {
    /// The changes that were asked for, in order.
    spec fn history(&self) -> Seq<DbOp>;

    /// Whether `after` is what becomes of the database when a change is asked of it.
    spec fn becomes(&self, op: DbOp, after: &Self) -> bool;

    /// A change that is asked for is the last of those that were.
    proof fn lemma_is_recorded(&self, op: DbOp, after: &Self)
        requires
            self.becomes(op, after),
        ensures
            after.history() == self.history().push(op),
    ;

    /// What holds between calls.
    spec fn wf(&self) -> bool;

    /// Whether this block can be finalized next.
    spec fn finalizable(&self, seq_num: SeqNum, block_id: BlockId) -> bool;

    fn has_executed(&self, block_id: &BlockId, seq_num: SeqNum) -> bool;

    fn get_latest_finalized_version(&self) -> SeqNum;

    fn read_account(&self, address: &Address) -> Option<EthAccount>;

    fn read_storage(&self, address: &Address, slot: &B256) -> B256;

    fn read_code(&self, code_hash: &B256) -> Option<Vec<u8>>;

    fn read_eth_header(&self) -> BlockHeader;

    fn set_block_and_prefix(&mut self, seq_num: SeqNum, block_id: BlockId)
        requires
            old(self).wf(),
        ensures
            final(self).wf(),
            final(self).history() == old(self).history().push(
                DbOp::SetBlock { seq_num, block_id },
            ),
            old(self).becomes(DbOp::SetBlock { seq_num, block_id }, final(self)),
    ;

    fn commit(
        &mut self,
        block_id: BlockId,
        header: &BlockHeader,
        bundle: Bundle,
        receipts: &Vec<ReceiptEnvelope>,
        transactions: &Vec<TxEnvelope>,
    )
        requires
            old(self).wf(),
        ensures
            final(self).wf(),
            final(self).history() == old(self).history().push(
                DbOp::Commit {
                    block_id,
                    header: header@,
                    bundle: bundle@,
                    receipts: receipts_view(receipts@),
                    transactions: txs_view(transactions@),
                },
            ),
            old(self).becomes(
                DbOp::Commit {
                    block_id,
                    header: header@,
                    bundle: bundle@,
                    receipts: receipts_view(receipts@),
                    transactions: txs_view(transactions@),
                },
                final(self),
            ),
    ;

    fn can_finalize(&self, seq_num: SeqNum, block_id: BlockId) -> (r: bool)
        requires
            self.wf(),
        ensures
            r == self.finalizable(seq_num, block_id),
    ;

    fn finalize(&mut self, seq_num: SeqNum, block_id: BlockId)
        requires
            old(self).wf(),
            old(self).finalizable(seq_num, block_id),
        ensures
            final(self).wf(),
            final(self).history() == old(self).history().push(
                DbOp::Finalize { seq_num, block_id },
            ),
            old(self).becomes(DbOp::Finalize { seq_num, block_id }, final(self)),
    ;

    fn update_voted_metadata(&mut self, seq_num: SeqNum, block_id: BlockId)
        requires
            old(self).wf(),
        ensures
            final(self).wf(),
            final(self).history() == old(self).history().push(DbOp::Voted { seq_num, block_id }),
            old(self).becomes(DbOp::Voted { seq_num, block_id }, final(self)),
    ;

    fn update_proposed_metadata(&mut self, seq_num: SeqNum, block_id: BlockId)
        requires
            old(self).wf(),
        ensures
            final(self).wf(),
            final(self).history() == old(self).history().push(
                DbOp::Proposed { seq_num, block_id },
            ),
            old(self).becomes(DbOp::Proposed { seq_num, block_id }, final(self)),
    ;

    fn update_verified_block(&mut self, seq_num: SeqNum)
        requires
            old(self).wf(),
        ensures
            final(self).wf(),
            final(self).history() == old(self).history().push(DbOp::Verified { seq_num }),
            old(self).becomes(DbOp::Verified { seq_num }, final(self)),
    ;
}

/// Whether a database gives `header` for the block that is selected.
pub open spec fn gives_header<D: ExecutionDb>(db: D, header: BlockHeader) -> bool {
    call_ensures(D::read_eth_header, (&db,), header)
}

/// Whether `after` is what becomes of a database when changes are asked of it one after the other.
pub open spec fn reached<D: ExecutionDb>(db: D, ops: Seq<DbOp>, after: D) -> bool
    decreases ops.len(),
{
    if ops.len() == 0 {
        after == db
    } else {
        exists|mid: D|
            reached(db, ops.drop_last(), mid) && #[trigger] mid.becomes(ops.last(), &after)
    }
}

/// The changes that lead from one database to another are those that were asked for in between.
pub proof fn lemma_reached_is_recorded<D: ExecutionDb>(db: D, ops: Seq<DbOp>, after: D)
    requires
        reached(db, ops, after),
    ensures
        after.history() == db.history() + ops,
    decreases ops.len(),
{
    if ops.len() == 0 {
        assert(db.history() + ops =~= db.history());
    } else {
        let mid = choose|mid: D|
            reached(db, ops.drop_last(), mid) && #[trigger] mid.becomes(ops.last(), &after);
        lemma_reached_is_recorded(db, ops.drop_last(), mid);
        mid.lemma_is_recorded(ops.last(), &after);
        assert(after.history() =~= db.history() + ops);
    }
}

/// The hashes that a store has.
pub open spec fn hashes_of<B: BlockHashBuffer>(block_hash_buffer: B) -> spec_fn(SeqNum) -> B256 {
    |s: SeqNum| block_hash_buffer.spec_get(s)
}

/// What executes a block on a database. It changes the database only by what `ExecutionDb` offers.
pub trait BlockExecutor {
    /// Whether executing a block, which sees `hashes` of earlier blocks, gives `r`, where `before`
    /// and `after` are the changes that were asked of the database before and after.
    spec fn runs(
        &self,
        block: Block,
        hashes: spec_fn(SeqNum) -> B256,
        before: Seq<DbOp>,
        after: Seq<DbOp>,
        r: Result<BlockExecOutput, ExecutionError>,
    ) -> bool;

    fn execute_block<D: ExecutionDb, B: BlockHashBuffer>(
        &self,
        block: &Block,
        db: &mut D,
        block_hash_buffer: &B,
    ) -> (r: Result<BlockExecOutput, ExecutionError>)
        requires
            old(db).wf(),
        ensures
            final(db).wf(),
            exists|ops: Seq<DbOp>| #[trigger] reached(*old(db), ops, *final(db)),
            self.runs(
                *block,
                hashes_of(*block_hash_buffer),
                old(db).history(),
                final(db).history(),
                r,
            ),
    ;
}

} // verus!
