//! The hashes of recent blocks: those of finalized blocks, and those of proposals on top of them.

use vstd::prelude::*;

use crate::header::{header_hash, BlockHeader, HeaderView};
use crate::primitives::{BlockId, SeqNum, B256};
use crate::seqs::lemma_filter_step;
use crate::traits::{gives_header, BlockHashBuffer, DbOp, ExecutionDb};
use crate::validation::compute_block_hash;

verus! {

/// How many block hashes are kept.
pub const HASH_BUFFER_SIZE: usize = 256;

/// The hashes of the latest finalized blocks. `n` is the number of the block to come next.
pub struct BlockHashBufferFinalized {
    hashes: [B256; 256],
    n: SeqNum,
}

/// Hashes of finalized blocks, by slot, and the number of the block to come next.
#[verifier::ext_equal]
pub struct FinalizedHashes {
    pub n: u64,
    pub slots: Seq<B256>,
}

impl FinalizedHashes {
    pub open spec fn empty(n: u64) -> FinalizedHashes {
        FinalizedHashes { n, slots: Seq::new(256, |i: int| B256::spec_zero()) }
    }

    /// The hash of a block, if it is one of the latest 256 before `n`; zero if it is not.
    pub open spec fn get(self, s: u64) -> B256 {
        if s >= self.n || self.n - s > HASH_BUFFER_SIZE {
            B256::spec_zero()
        } else {
            self.slots[s as int % 256]
        }
    }

    pub open spec fn set(self, s: u64, hash: B256) -> FinalizedHashes {
        FinalizedHashes { n: (s + 1) as u64, slots: self.slots.update(s as int % 256, hash) }
    }

    /// Whether the hash of block `s` can be set next: blocks come one after the other.
    pub open spec fn settable(self, s: u64) -> bool {
        s < u64::MAX && (self.n == 0 || s == self.n)
    }

    /// The hashes once those of the blocks up to and without `seq` were read, where `headers` are
    /// the headers that were read, starting at block `from`. A header of another block counts as
    /// none.
    pub open spec fn load(self, from: u64, headers: Seq<HeaderView>) -> FinalizedHashes
        decreases headers.len(),
    {
        if headers.len() == 0 {
            FinalizedHashes { n: from, ..self }
        } else {
            let s = (from + headers.len() - 1) as u64;
            self.load(from, headers.drop_last()).set(s, loaded_hash(s, headers.last()))
        }
    }
}

/// The hash that a header gives for block `s`: zero if it is the header of another block.
pub open spec fn loaded_hash(s: u64, header: HeaderView) -> B256 {
    if header.number == s {
        header_hash(header)
    } else {
        B256::spec_zero()
    }
}

/// The oldest block that is loaded when blocks up to and without `seq` are.
pub open spec fn load_start(seq: u64) -> u64 {
    if seq < HASH_BUFFER_SIZE {
        0
    } else {
        (seq - HASH_BUFFER_SIZE) as u64
    }
}

/// The call that selects a finalized block.
pub open spec fn load_op(s: u64) -> DbOp {
    DbOp::SetBlock { seq_num: SeqNum(s), block_id: BlockId(B256::spec_zero()) }
}

/// The calls that select one finalized block after the other.
pub open spec fn load_ops(from: u64, count: nat) -> Seq<DbOp> {
    Seq::new(count, |i: int| load_op((from + i) as u64))
}

/// Whether a database gives a header for the block that is selected which says `header`.
pub open spec fn header_read<D: ExecutionDb>(db: D, header: HeaderView) -> bool {
    exists|h: BlockHeader| #[trigger] gives_header(db, h) && h@ == header
}

/// Whether `headers` are read on the way from `db` to `after` by selecting one finalized block after
/// the other, starting at block `from`.
pub open spec fn headers_read<D: ExecutionDb>(
    db: D,
    from: u64,
    headers: Seq<HeaderView>,
    after: D,
) -> bool
    decreases headers.len(),
{
    if headers.len() == 0 {
        after == db
    } else {
        exists|mid: D|
            headers_read(db, from, headers.drop_last(), mid) && #[trigger] mid.becomes(
                load_op((from + headers.len() - 1) as u64),
                &after,
            ) && header_read(after, headers.last())
    }
}

impl View for BlockHashBufferFinalized {
    type V = FinalizedHashes;

    closed spec fn view(&self) -> FinalizedHashes {
        FinalizedHashes { n: self.n.0, slots: self.hashes@ }
    }
}

impl BlockHashBufferFinalized {
    /// No hashes; block 0, or any block, comes next.
    pub fn new() -> (r: Self)
        ensures
            r@ == FinalizedHashes::empty(0),
    {
        Self::with_initial(SeqNum(0))
    }

    /// No hashes; block `n` comes next.
    pub fn with_initial(n: SeqNum) -> (r: Self)
        ensures
            r@ == FinalizedHashes::empty(n.0),
    {
        let r = BlockHashBufferFinalized { hashes: [B256::zero(); 256], n };
        assert(r@ =~= FinalizedHashes::empty(n.0));
        r
    }

    /// Sets the hash of the block that comes next.
    pub fn set(&mut self, seq_num: SeqNum, hash: B256)
        requires
            old(self)@.settable(seq_num.0),
        ensures
            final(self)@ == old(self)@.set(seq_num.0, hash),
    {
        let i = (seq_num.0 % 256) as usize;
        self.hashes[i] = hash;
        self.n = SeqNum(seq_num.0 + 1);
        assert(self@ =~= old(self)@.set(seq_num.0, hash));
    }

    /// The number of the block that comes next.
    pub fn n(&self) -> (r: SeqNum)
        ensures
            r.0 == self@.n,
    {
        self.n
    }

    /// Sets the hash of block `seq_num` from the header that was read for it.
    pub fn set_from_header(&mut self, seq_num: SeqNum, header: &BlockHeader)
        requires
            old(self)@.settable(seq_num.0),
        ensures
            final(self)@ == old(self)@.set(seq_num.0, loaded_hash(seq_num.0, header@)),
    {
        if header.number == seq_num.0 {
            let hash = compute_block_hash(header);
            self.set(seq_num, hash);
        } else {
            self.set(seq_num, B256::zero());
        }
    }

    /// Reads the hashes of the latest 256 blocks before `seq_num` from a database.
    pub fn init_from_db<D: ExecutionDb>(&mut self, db: &mut D, seq_num: SeqNum)
        requires
            old(db).wf(),
        ensures
            final(db).wf(),
            exists|headers: Seq<HeaderView>|
                headers.len() == seq_num.0 - load_start(seq_num.0) && headers_read(
                    *old(db),
                    load_start(seq_num.0),
                    headers,
                    *final(db),
                ) && final(self)@ == #[trigger] old(self)@.load(load_start(seq_num.0), headers),
            final(db).history() == old(db).history() + load_ops(
                load_start(seq_num.0),
                (seq_num.0 - load_start(seq_num.0)) as nat,
            ),
            final(self)@.n == seq_num.0,
    {
        let start: u64 = if seq_num.0 < 256 {
            0
        } else {
            seq_num.0 - 256
        };
        self.n = SeqNum(start);
        let mut n: u64 = start;
        let ghost mut headers: Seq<HeaderView> = Seq::empty();
        assert(self@ =~= old(self)@.load(start, headers));
        assert(db.history() =~= old(db).history() + load_ops(start, 0));
        while n < seq_num.0
            invariant
                start == load_start(seq_num.0),
                start <= n <= seq_num.0,
                headers.len() == n - start,
                headers_read(*old(db), start, headers, *db),
                self@ == old(self)@.load(start, headers),
                self@.n == n,
                db.wf(),
                db.history() == old(db).history() + load_ops(start, (n - start) as nat),
            decreases seq_num.0 - n,
        {
            let sn = SeqNum(n);
            let ghost mid = *db;
            db.set_block_and_prefix(sn, BlockId(B256::zero()));
            let header = db.read_eth_header();
            self.set_from_header(sn, &header);
            proof {
                let more = headers.push(header@);
                assert(more.drop_last() =~= headers);
                assert(db.history() =~= old(db).history() + load_ops(start, (n + 1 - start) as nat));
                assert(gives_header(*db, header));
                assert(header_read(*db, header@));
                assert(headers_read(*old(db), start, more.drop_last(), mid));
                assert(mid.becomes(load_op((start + more.len() - 1) as u64), &*db));
                assert(headers_read(*old(db), start, more, *db));
                headers = more;
            }
            n = n + 1;
        }
    }
}

impl Default for BlockHashBufferFinalized {
    fn default() -> (r: Self)
        ensures
            r@ == FinalizedHashes::empty(0),
    {
        Self::new()
    }
}

impl BlockHashBuffer for BlockHashBufferFinalized {
    open spec fn spec_get(&self, seq_num: SeqNum) -> B256 {
        self@.get(seq_num.0)
    }

    fn get(&self, seq_num: SeqNum) -> (r: B256) {
        if seq_num.0 >= self.n.0 {
            return B256::zero();
        }
        if self.n.0 - seq_num.0 > 256 {
            return B256::zero();
        }
        self.hashes[(seq_num.0 % 256) as usize]
    }
}

/// The hashes of a chain of proposals on top of a finalized block.
pub struct BlockHashBufferProposal {
    n: SeqNum,
    deltas: Vec<B256>,
    finalized_n: SeqNum,
}

/// The hashes of a chain of proposals: `hashes[i]` is that of block `base + i`.
#[verifier::ext_equal]
pub struct ProposedHashes {
    pub base: u64,
    pub hashes: Seq<B256>,
}

impl ProposedHashes {
    /// The number of the block that comes next.
    pub open spec fn n(self) -> int {
        self.base + self.hashes.len()
    }

    /// The hash of a block, if it is one of the latest 256 before the next one; zero if it is not.
    /// A block that is finalized by now has the hash that was finalized.
    pub open spec fn get(self, s: u64, finalized: FinalizedHashes) -> B256 {
        if s >= self.n() || self.n() - s > HASH_BUFFER_SIZE {
            B256::spec_zero()
        } else if s >= self.base && s >= finalized.n {
            self.hashes[s - self.base]
        } else {
            finalized.get(s)
        }
    }
}

impl View for BlockHashBufferProposal {
    type V = ProposedHashes;

    closed spec fn view(&self) -> ProposedHashes {
        ProposedHashes { base: self.finalized_n.0, hashes: self.deltas@.reverse() }
    }
}

impl BlockHashBufferProposal {
    #[verifier::type_invariant]
    spec fn inv(self) -> bool {
        &&& self.deltas@.len() == self.n.0 - self.finalized_n.0
        &&& self.deltas@.len() > 0
    }

    /// A proposal right on top of the finalized blocks before `finalized_n`.
    pub fn from_finalized(hash: B256, finalized_n: SeqNum) -> (r: Self)
        requires
            finalized_n.0 < u64::MAX,
        ensures
            r@ == (ProposedHashes { base: finalized_n.0, hashes: seq![hash] }),
    {
        let mut deltas: Vec<B256> = Vec::new();
        deltas.push(hash);
        let r = BlockHashBufferProposal { n: SeqNum(finalized_n.0 + 1), deltas, finalized_n };
        assert(r@.hashes =~= seq![hash]);
        r
    }

    /// A proposal on top of another one.
    pub fn from_proposal(hash: B256, parent: &BlockHashBufferProposal) -> (r: Self)
        requires
            parent@.n() < u64::MAX,
        ensures
            r@ == (ProposedHashes { hashes: parent@.hashes.push(hash), ..parent@ }),
    {
        proof {
            use_type_invariant(parent);
        }
        let mut deltas: Vec<B256> = Vec::new();
        deltas.push(hash);
        deltas.extend_from_slice(parent.deltas.as_slice());
        proof {
            assert forall|i: int| 0 <= i < parent.deltas@.len() implies deltas@[i + 1]
                == parent.deltas@[i] by {}
        }
        let r = BlockHashBufferProposal {
            n: SeqNum(parent.n.0 + 1),
            deltas,
            finalized_n: parent.finalized_n,
        };
        assert(r@.hashes =~= parent@.hashes.push(hash));
        r
    }

    /// The number of the block that comes next.
    pub fn n(&self) -> (r: SeqNum)
        ensures
            r.0 == self@.n(),
    {
        proof {
            use_type_invariant(self);
        }
        self.n
    }

    /// The hash of a block, from this chain or from the finalized blocks below it.
    pub fn get_with_fallback(
        &self,
        seq_num: SeqNum,
        finalized: &BlockHashBufferFinalized,
    ) -> (r: B256)
        ensures
            r == self@.get(seq_num.0, finalized@),
    {
        proof {
            use_type_invariant(self);
        }
        if seq_num.0 >= self.n.0 {
            return B256::zero();
        }
        if self.n.0 - seq_num.0 > 256 {
            return B256::zero();
        }
        let idx = (self.n.0 - seq_num.0 - 1) as usize;
        if idx < self.deltas.len() && seq_num.0 >= finalized.n().0 {
            self.deltas[idx]
        } else {
            finalized.get(seq_num)
        }
    }
}

/// The hashes that a block sees: those of finalized blocks alone, or also those of the proposals
/// that it follows.
pub enum BlockHashBufferRef<'a> {
    Finalized(&'a BlockHashBufferFinalized),
    Proposal(&'a BlockHashBufferProposal, &'a BlockHashBufferFinalized),
}

impl<'a> BlockHashBuffer for BlockHashBufferRef<'a> {
    open spec fn spec_get(&self, seq_num: SeqNum) -> B256 {
        match *self {
            BlockHashBufferRef::Finalized(f) => f@.get(seq_num.0),
            BlockHashBufferRef::Proposal(p, f) => p@.get(seq_num.0, f@),
        }
    }

    fn get(&self, seq_num: SeqNum) -> (r: B256) {
        match self {
            BlockHashBufferRef::Finalized(f) => f.get(seq_num),
            BlockHashBufferRef::Proposal(p, f) => p.get_with_fallback(seq_num, f),
        }
    }
}

struct Proposal {
    seq_num: SeqNum,
    block_id: BlockId,
    parent_id: BlockId,
    buf: BlockHashBufferProposal,
}

/// The finalized hashes and every proposal on top of them, oldest first.
pub struct BlockHashChain {
    finalized: BlockHashBufferFinalized,
    proposals: Vec<Proposal>,
}

/// A proposed block and the hashes of the chain that it ends.
#[verifier::ext_equal]
pub struct ProposalView {
    pub seq_num: SeqNum,
    pub block_id: BlockId,
    pub parent_id: BlockId,
    pub buf: ProposedHashes,
}

#[verifier::ext_equal]
pub struct ChainView {
    pub finalized: FinalizedHashes,
    pub proposals: Seq<ProposalView>,
}

/// The place of the oldest proposal with this id, from `from` on.
pub open spec fn proposal_position(s: Seq<ProposalView>, block_id: BlockId, from: int) -> Option<int>
    decreases s.len() - from,
{
    if from >= s.len() {
        None
    } else if s[from].block_id == block_id {
        Some(from)
    } else {
        proposal_position(s, block_id, from + 1)
    }
}

impl ChainView {
    /// What holds of every chain: all slots are there, and a proposal has at least its own hash.
    pub open spec fn valid(self) -> bool {
        &&& self.finalized.slots.len() == 256
        &&& forall|i: int|
            0 <= i < self.proposals.len() ==> (#[trigger] self.proposals[i]).buf.hashes.len() > 0
    }

    pub open spec fn position(self, block_id: BlockId) -> Option<int> {
        proposal_position(self.proposals, block_id, 0)
    }

    /// The hash of block `s` as the chain that ends at `tip` sees it.
    pub open spec fn get(self, tip: BlockId, s: u64) -> B256 {
        match self.position(tip) {
            Some(i) => self.proposals[i].buf.get(s, self.finalized),
            None => self.finalized.get(s),
        }
    }

    /// The number of the block that comes next on the chain that ends at `tip`.
    pub open spec fn next(self, tip: BlockId) -> int {
        match self.position(tip) {
            Some(i) => self.proposals[i].buf.n(),
            None => self.finalized.n as int,
        }
    }

    /// The hashes of the chain that `tip` ends, with one more block.
    pub open spec fn extend(self, tip: BlockId, hash: B256) -> ProposedHashes {
        match self.position(tip) {
            Some(i) => ProposedHashes {
                hashes: self.proposals[i].buf.hashes.push(hash),
                ..self.proposals[i].buf
            },
            None => ProposedHashes { base: self.finalized.n, hashes: seq![hash] },
        }
    }

    pub open spec fn propose(
        self,
        hash: B256,
        seq_num: SeqNum,
        block_id: BlockId,
        parent_id: BlockId,
    ) -> ChainView {
        ChainView {
            proposals: self.proposals.push(
                ProposalView { seq_num, block_id, parent_id, buf: self.extend(parent_id, hash) },
            ),
            ..self
        }
    }

    /// Whether a block that was proposed is the next one to be finalized.
    pub open spec fn finalizable(self, block_id: BlockId) -> bool {
        match self.position(block_id) {
            Some(i) => self.proposals[i].buf.n() - 1 == self.finalized.n,
            None => true,
        }
    }

    /// The chain once a block is final: its hash is finalized, and the proposals that are not
    /// above it are gone. A block that was not proposed changes nothing.
    pub open spec fn finalize(self, block_id: BlockId) -> ChainView {
        match self.position(block_id) {
            Some(i) => {
                let winner = self.proposals[i];
                ChainView {
                    finalized: self.finalized.set(self.finalized.n, winner.buf.hashes.last()),
                    proposals: self.proposals.filter(
                        |p: ProposalView| p.seq_num.0 > winner.seq_num.0,
                    ),
                }
            },
            None => self,
        }
    }
}

impl Proposal {
    spec fn entry(self) -> ProposalView {
        ProposalView {
            seq_num: self.seq_num,
            block_id: self.block_id,
            parent_id: self.parent_id,
            buf: self.buf@,
        }
    }
}

impl View for BlockHashChain {
    type V = ChainView;

    closed spec fn view(&self) -> ChainView {
        ChainView {
            finalized: self.finalized@,
            proposals: self.proposals@.map_values(|p: Proposal| p.entry()),
        }
    }
}

impl BlockHashChain {
    /// The finalized hashes, with no proposals.
    pub fn new(finalized: BlockHashBufferFinalized) -> (r: Self)
        ensures
            r@ == (ChainView { finalized: finalized@, proposals: Seq::empty() }),
    {
        let r = BlockHashChain { finalized, proposals: Vec::new() };
        assert(r@.proposals =~= Seq::empty());
        r
    }

    /// The finalized hashes.
    pub fn finalized(&self) -> (r: &BlockHashBufferFinalized)
        ensures
            r@ == self@.finalized,
    {
        &self.finalized
    }

    /// The finalized hashes, to be changed in place.
    pub fn finalized_mut(&mut self) -> (r: &mut BlockHashBufferFinalized)
        ensures
            r@ == old(self)@.finalized,
            final(self)@ == (ChainView { finalized: final(r)@, ..old(self)@ }),
    {
        &mut self.finalized
    }

    fn position(&self, block_id: &BlockId) -> (r: Option<usize>)
        ensures
            match r {
                Some(i) => i < self.proposals@.len() && self@.position(*block_id) == Some(i as int),
                None => self@.position(*block_id) is None,
            },
    {
        let mut i: usize = 0;
        while i < self.proposals.len()
            invariant
                i <= self.proposals@.len(),
                self@.position(*block_id) == proposal_position(
                    self@.proposals,
                    *block_id,
                    i as int,
                ),
            decreases self.proposals@.len() - i,
        {
            assert(self@.proposals[i as int] == self.proposals@[i as int].entry());
            if self.proposals[i].block_id == *block_id {
                return Some(i);
            }
            i = i + 1;
        }
        None
    }

    /// The hashes that a block on top of `parent_id` sees.
    pub fn find_chain<'a>(&'a self, parent_id: &BlockId) -> (r: BlockHashBufferRef<'a>)
        ensures
            forall|s: SeqNum| #[trigger] r.spec_get(s) == self@.get(*parent_id, s.0),
    {
        match self.position(parent_id) {
            Some(i) => {
                assert(self@.proposals[i as int] == self.proposals@[i as int].entry());
                BlockHashBufferRef::Proposal(&self.proposals[i].buf, &self.finalized)
            },
            None => BlockHashBufferRef::Finalized(&self.finalized),
        }
    }

    /// Records the hash of a proposed block.
    pub fn propose(
        &mut self,
        eth_block_hash: B256,
        seq_num: SeqNum,
        block_id: BlockId,
        parent_id: BlockId,
    )
        requires
            old(self)@.next(parent_id) < u64::MAX,
        ensures
            final(self)@ == old(self)@.propose(eth_block_hash, seq_num, block_id, parent_id),
    {
        let buf = match self.position(&parent_id) {
            Some(i) => {
                assert(self@.proposals[i as int] == self.proposals@[i as int].entry());
                BlockHashBufferProposal::from_proposal(eth_block_hash, &self.proposals[i].buf)
            },
            None => BlockHashBufferProposal::from_finalized(eth_block_hash, self.finalized.n()),
        };
        self.proposals.push(Proposal { seq_num, block_id, parent_id, buf });
        assert(self@.proposals =~= old(self)@.propose(
            eth_block_hash,
            seq_num,
            block_id,
            parent_id,
        ).proposals);
    }

    /// The number of the block that comes next on top of `parent_id`.
    pub fn next_number(&self, parent_id: &BlockId) -> (r: SeqNum)
        ensures
            r.0 == self@.next(*parent_id),
    {
        match self.position(parent_id) {
            Some(i) => {
                assert(self@.proposals[i as int] == self.proposals@[i as int].entry());
                self.proposals[i].buf.n()
            },
            None => self.finalized.n(),
        }
    }

    /// Whether `finalize` can be called for a block.
    pub fn can_finalize(&self, block_id: &BlockId) -> (r: bool)
        ensures
            r == self@.finalizable(*block_id),
    {
        match self.position(block_id) {
            Some(i) => {
                assert(self@.proposals[i as int] == self.proposals@[i as int].entry());
                let buf = &self.proposals[i].buf;
                proof {
                    use_type_invariant(buf);
                }
                buf.n().0 - 1 == self.finalized.n().0
            },
            None => true,
        }
    }

    fn drop_up_to(&mut self, seq_num: SeqNum)
        ensures
            final(self)@ == (ChainView {
                proposals: old(self)@.proposals.filter(
                    |p: ProposalView| p.seq_num.0 > seq_num.0,
                ),
                ..old(self)@
            }),
    {
        let ghost all = self@.proposals;
        let ghost p = |p: ProposalView| p.seq_num.0 > seq_num.0;
        let ghost mut done: int = 0;
        let mut i: usize = 0;
        assert(all.take(0).filter(p) =~= Seq::<ProposalView>::empty()) by {
            reveal(Seq::filter);
        }
        assert(all.skip(0) =~= all);
        while i < self.proposals.len()
            invariant
                p == (|p: ProposalView| p.seq_num.0 > seq_num.0),
                all == old(self)@.proposals,
                self.finalized == old(self).finalized,
                0 <= done <= all.len(),
                i == all.take(done).filter(p).len(),
                i <= self.proposals@.len(),
                self@.proposals == all.take(done).filter(p) + all.skip(done),
            decreases all.len() - done,
        {
            proof {
                lemma_filter_step(all, done, p);
                assert(self@.proposals[i as int] == all[done]);
                assert(self@.proposals[i as int] == self.proposals@[i as int].entry());
                assert(all.skip(done).drop_first() =~= all.skip(done + 1));
            }
            let ghost before = self@.proposals;
            if self.proposals[i].seq_num.0 > seq_num.0 {
                i = i + 1;
                assert(before =~= all.take(done + 1).filter(p) + all.skip(done + 1));
            } else {
                self.proposals.remove(i);
                assert(self@.proposals =~= before.remove(i as int));
                assert(self@.proposals =~= all.take(done + 1).filter(p) + all.skip(done + 1));
            }
            proof {
                done = done + 1;
            }
        }
        assert(all.take(done) =~= all);
        assert(self@.proposals =~= all.filter(p));
    }

    /// Makes a proposed block final: its hash is recorded, and the proposals that are not above it
    /// are dropped. Returns whether the block was proposed.
    pub fn finalize(&mut self, block_id: BlockId) -> (r: bool)
        requires
            old(self)@.finalizable(block_id),
            old(self)@.finalized.n < u64::MAX,
        ensures
            r == (old(self)@.position(block_id) is Some),
            final(self)@ == old(self)@.finalize(block_id),
    {
        let to_finalize = self.finalized.n();
        let pos = match self.position(&block_id) {
            Some(i) => i,
            None => {
                return false;
            },
        };
        assert(self@.proposals[pos as int] == self.proposals@[pos as int].entry());
        let buf = &self.proposals[pos].buf;
        proof {
            use_type_invariant(buf);
        }
        let hash = buf.get_with_fallback(to_finalize, &self.finalized);
        self.finalized.set(to_finalize, hash);
        let winner_seq_num = self.proposals[pos].seq_num;
        assert(self@.proposals =~= old(self)@.proposals);
        self.drop_up_to(winner_seq_num);
        true
    }
}

/// Every buffer has a slot for each of the latest 256 blocks.
pub proof fn lemma_has_all_slots(buf: BlockHashBufferFinalized)
    ensures
        buf@.slots.len() == HASH_BUFFER_SIZE,
{
}

/// The finalized hashes of every chain have a slot for each of the latest 256 blocks.
pub proof fn lemma_chain_has_all_slots(chain: BlockHashChain)
    ensures
        chain@.finalized.slots.len() == HASH_BUFFER_SIZE,
{
}

/// Where the hash of the next block is set, exactly the latest 256 hashes can be read: the one that
/// was set, and those of the 255 blocks before it as they were.
pub proof fn lemma_set_keeps_latest(
    before: BlockHashBufferFinalized,
    hash: B256,
    after: BlockHashBufferFinalized,
    s: SeqNum,
)
    requires
        before@.n < u64::MAX,
        after@ == before@.set(before@.n, hash),
    ensures
        after@.n == before@.n + 1,
        after.spec_get(s) == if s.0 == before@.n {
            hash
        } else if s.0 < before@.n && before@.n - s.0 < HASH_BUFFER_SIZE {
            before.spec_get(s)
        } else {
            B256::spec_zero()
        },
{
    lemma_has_all_slots(before);
    lemma_finalized_set_get(before@, hash, s.0);
}

/// Once hashes are loaded, those of the blocks that were read can be read, and no others, whatever
/// was there before.
pub proof fn lemma_loaded_hashes_are_read(
    h: FinalizedHashes,
    from: u64,
    headers: Seq<HeaderView>,
    s: u64,
)
    requires
        h.slots.len() == HASH_BUFFER_SIZE,
        headers.len() <= HASH_BUFFER_SIZE,
        from + headers.len() <= u64::MAX,
        headers.len() < HASH_BUFFER_SIZE ==> from == 0,
    ensures
        h.load(from, headers).n == from + headers.len(),
        h.load(from, headers).get(s) == if from <= s < from + headers.len() {
            loaded_hash(s, headers[s - from])
        } else {
            B256::spec_zero()
        },
{
    lemma_loaded_slots(h, from, headers);
    if from <= s < from + headers.len() {
        assert(h.load(from, headers).slots[s as int % 256] == loaded_hash(s, headers[s - from]));
    }
}

proof fn lemma_loaded_slots(h: FinalizedHashes, from: u64, headers: Seq<HeaderView>)
    requires
        h.slots.len() == HASH_BUFFER_SIZE,
        headers.len() <= HASH_BUFFER_SIZE,
        from + headers.len() <= u64::MAX,
    ensures
        h.load(from, headers).n == from + headers.len(),
        h.load(from, headers).slots.len() == HASH_BUFFER_SIZE,
        forall|s: u64|
            from <= s < from + headers.len() ==> #[trigger] h.load(from, headers).slots[s as int
                % 256] == loaded_hash(s, headers[s - from]),
    decreases headers.len(),
{
    if headers.len() > 0 {
        let before = headers.drop_last();
        lemma_loaded_slots(h, from, before);
        let last = (from + headers.len() - 1) as u64;
        assert forall|s: u64| from <= s < from + headers.len() implies #[trigger] h.load(
            from,
            headers,
        ).slots[s as int % 256] == loaded_hash(s, headers[s - from]) by {
            if s < last {
                assert(h.load(from, before).slots[s as int % 256] == loaded_hash(
                    s,
                    before[s - from],
                ));
                assert(s as int % 256 != last as int % 256);
            }
        }
    }
}

/// The hash that was set for the next block is found, and so are those of the 255 blocks before
/// it.
pub proof fn lemma_finalized_set_get(h: FinalizedHashes, hash: B256, s: u64)
    requires
        h.slots.len() == 256,
        h.n < u64::MAX,
    ensures
        h.set(h.n, hash).get(h.n) == hash,
        s < h.n && h.n - s < HASH_BUFFER_SIZE ==> h.set(h.n, hash).get(s) == h.get(s),
        s > h.n || h.n - s >= HASH_BUFFER_SIZE ==> h.set(h.n, hash).get(s) == B256::spec_zero(),
{
}

/// A block that is proposed under a new id sees its own hash, and for every older block that is
/// still among the latest 256 it sees what its parent saw.
pub proof fn lemma_proposal_extends_parent(
    c: ChainView,
    hash: B256,
    seq_num: SeqNum,
    block_id: BlockId,
    parent_id: BlockId,
    s: u64,
)
    requires
        c.position(block_id) is None,
        c.next(parent_id) < u64::MAX,
        c.next(parent_id) >= c.finalized.n,
    ensures
        ({
            let after = c.propose(hash, seq_num, block_id, parent_id);
            &&& after.get(block_id, c.next(parent_id) as u64) == hash
            &&& s < c.next(parent_id) && c.next(parent_id) - s < HASH_BUFFER_SIZE ==> after.get(
                block_id,
                s,
            ) == c.get(parent_id, s)
        }),
{
    let after = c.propose(hash, seq_num, block_id, parent_id);
    lemma_position_range(c.proposals, parent_id, 0);
    lemma_position_of_new(c.proposals, after.proposals.last(), 0);
    assert(after.proposals =~= c.proposals.push(after.proposals.last()));
    assert(after.position(block_id) == Some(c.proposals.len() as int));
}

/// Proposing under a new id changes nothing for other chains.
pub proof fn lemma_proposal_keeps_others(
    c: ChainView,
    hash: B256,
    seq_num: SeqNum,
    block_id: BlockId,
    parent_id: BlockId,
    tip: BlockId,
    s: u64,
)
    requires
        tip != block_id,
    ensures
        c.propose(hash, seq_num, block_id, parent_id).get(tip, s) == c.get(tip, s),
{
    let after = c.propose(hash, seq_num, block_id, parent_id);
    lemma_position_range(c.proposals, tip, 0);
    lemma_position_of_other(c.proposals, after.proposals.last(), tip, 0);
    assert(after.proposals =~= c.proposals.push(after.proposals.last()));
}

/// Finalizing a proposed block advances by exactly one block, whose hash is the one that was
/// proposed; the hashes of the 255 blocks before it stay.
pub proof fn lemma_finalize_records_one_hash(c: ChainView, block_id: BlockId, s: u64)
    requires
        c.valid(),
        c.position(block_id) is Some,
        c.finalizable(block_id),
        c.finalized.n < u64::MAX,
    ensures
        c.finalize(block_id).finalized.n == c.finalized.n + 1,
        c.finalize(block_id).finalized.get(c.finalized.n) == c.get(block_id, c.finalized.n),
        s < c.finalized.n && c.finalized.n - s < HASH_BUFFER_SIZE ==> c.finalize(
            block_id,
        ).finalized.get(s) == c.finalized.get(s),
{
    lemma_position_range(c.proposals, block_id, 0);
}

/// Once a block is finalized, every proposal sees the finalized hash of it; what a proposal sees
/// of later blocks, and of the 255 blocks before it, stays.
pub proof fn lemma_finalized_hash_is_authoritative(
    p: ProposedHashes,
    finalized: FinalizedHashes,
    hash: B256,
    s: u64,
)
    requires
        finalized.slots.len() == 256,
        finalized.n < u64::MAX,
    ensures
        finalized.n < p.n() && p.n() - finalized.n <= HASH_BUFFER_SIZE ==> p.get(
            finalized.n,
            finalized.set(finalized.n, hash),
        ) == hash,
        s > finalized.n || (s < finalized.n && finalized.n - s < HASH_BUFFER_SIZE) ==> p.get(
            s,
            finalized.set(finalized.n, hash),
        ) == p.get(s, finalized),
{
}

/// Proposing and finalizing keep a chain valid.
pub proof fn lemma_chain_stays_valid(
    c: ChainView,
    hash: B256,
    seq_num: SeqNum,
    block_id: BlockId,
    parent_id: BlockId,
)
    requires
        c.valid(),
    ensures
        c.propose(hash, seq_num, block_id, parent_id).valid(),
        c.finalize(block_id).valid(),
{
    let after = c.finalize(block_id);
    match c.position(block_id) {
        Some(i) => {
            let winner = c.proposals[i];
            let p = |p: ProposalView| p.seq_num.0 > winner.seq_num.0;
            assert forall|j: int| 0 <= j < after.proposals.len() implies (
            #[trigger] after.proposals[j]).buf.hashes.len() > 0 by {
                c.proposals.lemma_filter_contains_rev(p, after.proposals[j]);
                let k = choose|k: int|
                    0 <= k < c.proposals.len() && c.proposals[k] == after.proposals[j];
                assert(c.proposals[k].buf.hashes.len() > 0);
            }
        },
        None => {},
    }
}

proof fn lemma_position_range(s: Seq<ProposalView>, block_id: BlockId, from: int)
    requires
        0 <= from,
    ensures
        match proposal_position(s, block_id, from) {
            Some(i) => from <= i < s.len() && s[i].block_id == block_id,
            None => true,
        },
    decreases s.len() - from,
{
    if from < s.len() && s[from].block_id != block_id {
        lemma_position_range(s, block_id, from + 1);
    }
}

proof fn lemma_position_of_new(s: Seq<ProposalView>, p: ProposalView, from: int)
    requires
        0 <= from <= s.len(),
        proposal_position(s, p.block_id, from) is None,
    ensures
        proposal_position(s.push(p), p.block_id, from) == Some(s.len() as int),
    decreases s.len() - from,
{
    if from < s.len() {
        lemma_position_of_new(s, p, from + 1);
    }
}

proof fn lemma_position_of_other(s: Seq<ProposalView>, p: ProposalView, tip: BlockId, from: int)
    requires
        0 <= from <= s.len(),
        p.block_id != tip,
    ensures
        proposal_position(s.push(p), tip, from) == proposal_position(s, tip, from),
    decreases s.len() - from,
{
    if from < s.len() && s[from].block_id != tip {
        lemma_position_of_other(s, p, tip, from + 1);
    } else if from == s.len() {
        assert(proposal_position(s.push(p), tip, from + 1) is None);
    }
}

/// Once a proposed block is final, exactly the proposals above it are left.
pub proof fn lemma_finalize_drops_what_is_not_above(c: ChainView, block_id: BlockId, p: ProposalView)
    requires
        c.position(block_id) is Some,
    ensures
        ({
            let winner = c.proposals[c.position(block_id)->0];
            &&& winner.block_id == block_id
            &&& c.finalize(block_id).proposals.contains(p) <==> c.proposals.contains(p)
                && p.seq_num.0 > winner.seq_num.0
        }),
{
    lemma_position_range(c.proposals, block_id, 0);
    let winner = c.proposals[c.position(block_id)->0];
    let above = |p: ProposalView| p.seq_num.0 > winner.seq_num.0;
    if c.proposals.contains(p) && above(p) {
        c.proposals.lemma_filter_contains(above, c.proposals.index_of(p));
    }
    if c.finalize(block_id).proposals.contains(p) {
        c.proposals.lemma_filter_contains_rev(above, p);
        let f = c.proposals.filter(above);
        let i = choose|i: int| 0 <= i < f.len() && f[i] == p;
        c.proposals.lemma_filter_pred(above, i);
    }
}

/// A block that was never proposed leaves the chain as it is when it is finalized.
pub proof fn lemma_unknown_block_changes_no_chain(c: ChainView, block_id: BlockId)
    requires
        forall|i: int|
            0 <= i < c.proposals.len() ==> (#[trigger] c.proposals[i]).block_id != block_id,
    ensures
        c.finalizable(block_id),
        c.finalize(block_id) == c,
        forall|s: u64| #[trigger] c.get(block_id, s) == c.finalized.get(s),
{
    lemma_position_range(c.proposals, block_id, 0);
}

/// At most the hashes of the 256 blocks before a finalized one are read from a database, each for its
/// own header: the hash of a header is taken only for the block that the header names.
pub proof fn lemma_latest_256_are_loaded(seq: u64, s: u64, header: HeaderView)
    ensures
        seq <= 256 ==> load_start(seq) == 0,
        seq > 256 ==> load_start(seq) + 256 == seq,
        header.number == s ==> loaded_hash(s, header) == header_hash(header),
        header.number != s ==> loaded_hash(s, header) == B256::spec_zero(),
        load_op(s) == (DbOp::SetBlock {
            seq_num: SeqNum(s),
            block_id: BlockId(B256::spec_zero()),
        }),
{
}

/// Hashes are known of the 256 blocks before the next one and of no others.
pub proof fn lemma_only_latest_256_are_known(h: FinalizedHashes, s: u64)
    ensures
        s >= h.n || h.n - s > 256 ==> h.get(s) == B256::spec_zero(),
        s < h.n && h.n - s <= 256 ==> h.get(s) == h.slots[s as int % 256],
{
}

/// A block that is proposed under a new id is one further than its parent.
pub proof fn lemma_proposal_comes_after_its_parent(
    c: ChainView,
    hash: B256,
    seq_num: SeqNum,
    block_id: BlockId,
    parent_id: BlockId,
)
    requires
        c.position(block_id) is None,
    ensures
        c.propose(hash, seq_num, block_id, parent_id).next(block_id) == c.next(parent_id) + 1,
        c.propose(hash, seq_num, block_id, parent_id).finalized == c.finalized,
{
    let after = c.propose(hash, seq_num, block_id, parent_id);
    lemma_position_of_new(c.proposals, after.proposals.last(), 0);
    assert(after.proposals =~= c.proposals.push(after.proposals.last()));
}

/// A proposed block can be finalized exactly if it comes right after the finalized ones.
pub proof fn lemma_next_block_can_be_finalized(c: ChainView, block_id: BlockId)
    requires
        c.position(block_id) is Some,
    ensures
        c.finalizable(block_id) <==> c.next(block_id) == c.finalized.n + 1,
{
}

} // verus!
