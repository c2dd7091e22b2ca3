//! Which accounts and storage slots each block deleted.

use vstd::prelude::*;

use crate::primitives::{Address, BlockId, SeqNum, B256, INVALID_BLOCK_NUM};
use crate::seqs::{
    lemma_filter_step, lemma_push_contains, lemma_push_distinct, lemma_take_excludes,
    lemma_take_step,
};
use crate::statesync::types::Deletion;
use crate::types::{AccountDelta, StateDeltas};

verus! {

/// How many finalized blocks are remembered at most.
pub const MAX_ENTRIES: usize = 43200;

/// How many deletions are remembered at most, over all blocks.
pub const MAX_DELETIONS: usize = 2_000_000;

/// Where the deletions of one finalized block lie. Positions count every deletion ever recorded.
#[derive(Clone, Copy, Debug)]
struct FinalizedEntry {
    seq_num: SeqNum,
    idx: usize,
    size: usize,
}

/// The deletions of the latest finalized blocks, in a ring of blocks over a ring of deletions.
pub struct FinalizedDeletions {
    start_seq_num: u64,
    end_seq_num: u64,
    entries: Vec<Option<FinalizedEntry>>,
    deletions: Vec<Deletion>,
    free_start: usize,
    free_end: usize,
}

/// What is remembered: the deletions of each block from `first` to `last`.
#[verifier::ext_equal]
pub struct DeletionLog {
    /// The oldest remembered block, if any is remembered.
    pub first: Option<u64>,
    /// The block that was written last, if any was written.
    pub last: Option<u64>,
    /// The deletions of each remembered block.
    pub blocks: Map<u64, Seq<Deletion>>,
    /// How many deletions have been recorded since the start.
    pub recorded: nat,
}

/// How many deletions the blocks from `lo` up to and without `hi` have together.
pub open spec fn total(blocks: Map<u64, Seq<Deletion>>, lo: int, hi: int) -> nat
    decreases hi - lo,
{
    if lo >= hi {
        0
    } else {
        total(blocks, lo, hi - 1) + blocks[(hi - 1) as u64].len()
    }
}

/// Whether the blocks from `lo` on can stay when block `seq` brings `n` deletions.
pub open spec fn fits(blocks: Map<u64, Seq<Deletion>>, lo: int, seq: int, n: nat) -> bool {
    seq - lo < MAX_ENTRIES && total(blocks, lo, seq) + n <= MAX_DELETIONS
}

/// The oldest block, from `lo` on, that stays when block `seq` brings `n` deletions.
pub open spec fn oldest_kept(blocks: Map<u64, Seq<Deletion>>, lo: int, seq: int, n: nat) -> int
    decreases seq - lo,
{
    if lo >= seq || fits(blocks, lo, seq, n) {
        lo
    } else {
        oldest_kept(blocks, lo + 1, seq, n)
    }
}

impl DeletionLog {
    /// The log before the first write.
    pub open spec fn empty() -> DeletionLog {
        DeletionLog { first: None, last: None, blocks: Map::empty(), recorded: 0 }
    }

    /// The log after block `seq` was written with `new`: the oldest blocks give way until the rest
    /// fits, and a block with too many deletions leaves nothing behind.
    pub open spec fn write(self, seq: u64, new: Seq<Deletion>) -> DeletionLog {
        if new.len() > MAX_DELETIONS {
            DeletionLog {
                first: None,
                last: Some(seq),
                blocks: Map::empty(),
                recorded: self.recorded,
            }
        } else {
            let lo = match self.first {
                Some(s) => oldest_kept(self.blocks, s as int, seq as int, new.len()),
                None => seq as int,
            };
            DeletionLog {
                first: Some(lo as u64),
                last: Some(seq),
                blocks: Map::new(
                    |s: u64| lo <= s <= seq,
                    |s: u64|
                        if s == seq {
                            new
                        } else {
                            self.blocks[s]
                        },
                ),
                recorded: self.recorded + new.len(),
            }
        }
    }

    /// Whether the remembered blocks lie in ascending slots of the ring of blocks, with no wrap
    /// from its last slot to its first.
    pub open spec fn unwrapped(self) -> bool {
        match (self.first, self.last) {
            (Some(s), Some(e)) => s as int % MAX_ENTRIES as int <= e as int % MAX_ENTRIES as int,
            _ => true,
        }
    }

    /// Whether block `seq` comes next: blocks come one after the other.
    pub open spec fn continued_by(self, seq: u64) -> bool {
        &&& seq != INVALID_BLOCK_NUM
        &&& match self.last {
            Some(e) => e + 1 == seq,
            None => true,
        }
    }

    /// Whether block `seq` can be written next, with `n` deletions: blocks come one after the
    /// other, the position of a deletion fits in a `usize`, and a block with too many deletions
    /// comes only while the ring of blocks is unwrapped.
    pub open spec fn accepts(self, seq: u64, n: nat) -> bool {
        &&& self.continued_by(seq)
        &&& self.recorded + MAX_DELETIONS <= usize::MAX
        &&& n > MAX_DELETIONS ==> self.unwrapped()
    }

    /// What holds of every log: the remembered blocks are those from `first` to `last`, and they
    /// keep within both bounds.
    pub open spec fn valid(self) -> bool {
        match self.first {
            Some(s) => {
                &&& self.last is Some
                &&& s <= self.last->0
                &&& self.last->0 != INVALID_BLOCK_NUM
                &&& self.last->0 - s < MAX_ENTRIES
                &&& self.blocks.dom() == Set::new(|t: u64| s <= t <= self.last->0)
                &&& total(self.blocks, s as int, self.last->0 + 1) <= MAX_DELETIONS
            },
            None => self.blocks == Map::<u64, Seq<Deletion>>::empty(),
        }
    }
}

proof fn lemma_total_front(blocks: Map<u64, Seq<Deletion>>, lo: int, hi: int)
    requires
        0 <= lo < hi,
    ensures
        total(blocks, lo, hi) == blocks[lo as u64].len() + total(blocks, lo + 1, hi),
    decreases hi - lo,
{
    if lo + 1 < hi {
        lemma_total_front(blocks, lo, hi - 1);
    } else {
        assert(total(blocks, lo, lo) == 0);
    }
}

proof fn lemma_total_monotonic(blocks: Map<u64, Seq<Deletion>>, lo: int, mid: int, hi: int)
    requires
        lo <= mid <= hi,
    ensures
        total(blocks, lo, mid) <= total(blocks, lo, hi),
    decreases hi - mid,
{
    if mid < hi {
        lemma_total_monotonic(blocks, lo, mid, hi - 1);
    }
}

proof fn lemma_total_same(
    a: Map<u64, Seq<Deletion>>,
    b: Map<u64, Seq<Deletion>>,
    lo: int,
    hi: int,
)
    requires
        0 <= lo,
        hi <= u64::MAX + 1,
        forall|s: u64| lo <= s < hi ==> a[s] == b[s],
    ensures
        total(a, lo, hi) == total(b, lo, hi),
    decreases hi - lo,
{
    if lo < hi {
        lemma_total_same(a, b, lo, hi - 1);
    }
}

proof fn lemma_oldest_kept_range(blocks: Map<u64, Seq<Deletion>>, lo: int, seq: int, n: nat)
    requires
        lo <= seq,
        n <= MAX_DELETIONS,
    ensures
        lo <= oldest_kept(blocks, lo, seq, n) <= seq,
        fits(blocks, oldest_kept(blocks, lo, seq, n), seq, n),
    decreases seq - lo,
{
    if !(lo >= seq || fits(blocks, lo, seq, n)) {
        lemma_oldest_kept_range(blocks, lo + 1, seq, n);
    }
}

proof fn lemma_distinct_slots(x: int, y: int, m: int)
    requires
        0 <= x < y < x + m,
    ensures
        x % m != y % m,
{
    if x % m == y % m {
        vstd::arithmetic::div_mod::lemma_fundamental_div_mod(x, m);
        vstd::arithmetic::div_mod::lemma_fundamental_div_mod(y, m);
        let p = x / m;
        let q = y / m;
        assert(m * q - m * p == y - x);
        assert(m * (q - p) == m * q - m * p) by (nonlinear_arith);
        assert(q - p <= 0 ==> m * (q - p) <= 0) by (nonlinear_arith)
            requires
                m > 0,
        ;
        assert(q - p >= 1 ==> m * (q - p) >= m) by (nonlinear_arith)
            requires
                m > 0,
        ;
    }
}

proof fn lemma_ascending_slots(x: int, y: int, m: int)
    requires
        0 <= x <= y < x + m,
        x % m <= y % m,
    ensures
        y % m - x % m == y - x,
{
    vstd::arithmetic::div_mod::lemma_fundamental_div_mod(x, m);
    vstd::arithmetic::div_mod::lemma_fundamental_div_mod(y, m);
    vstd::arithmetic::div_mod::lemma_mod_bound(x, m);
    vstd::arithmetic::div_mod::lemma_mod_bound(y, m);
    let p = x / m;
    let q = y / m;
    assert(m * (q - p) == m * q - m * p) by (nonlinear_arith);
    assert(q - p <= -1 ==> m * (q - p) <= -m) by (nonlinear_arith)
        requires
            m > 0,
    ;
    assert(q - p >= 1 ==> m * (q - p) >= m) by (nonlinear_arith)
        requires
            m > 0,
    ;
    assert(q - p == 0 ==> m * (q - p) == 0) by (nonlinear_arith);
}

impl FinalizedDeletions {
    /// The slot of a block.
    spec fn slot(s: int) -> int {
        s % MAX_ENTRIES as int
    }

    /// The place of a deletion.
    spec fn place(p: int) -> int {
        p % MAX_DELETIONS as int
    }

    spec fn entry(&self, s: int) -> FinalizedEntry {
        self.entries@[Self::slot(s)]->0
    }

    spec fn entry_deletions(&self, e: FinalizedEntry) -> Seq<Deletion> {
        Seq::new(e.size as nat, |j: int| self.deletions@[Self::place(e.idx + j)])
    }

    spec fn blocks(&self) -> Map<u64, Seq<Deletion>> {
        Map::new(
            |s: u64| self.start_seq_num != INVALID_BLOCK_NUM && self.start_seq_num <= s
                <= self.end_seq_num,
            |s: u64| self.entry_deletions(self.entry(s as int)),
        )
    }

    pub closed spec fn log(&self) -> DeletionLog {
        DeletionLog {
            first: if self.start_seq_num == INVALID_BLOCK_NUM {
                None
            } else {
                Some(self.start_seq_num)
            },
            last: if self.end_seq_num == INVALID_BLOCK_NUM {
                None
            } else {
                Some(self.end_seq_num)
            },
            blocks: self.blocks(),
            recorded: self.free_start as nat,
        }
    }

    /// The blocks from `lo` up to and without `hi` have entries, no other block has, and they hold
    /// the deletions of `b`, one block after the other.
    spec fn window(&self, b: Map<u64, Seq<Deletion>>, lo: int, hi: int) -> bool {
        &&& self.entries@.len() == MAX_ENTRIES
        &&& self.deletions@.len() == MAX_DELETIONS
        &&& 0 <= lo <= hi <= INVALID_BLOCK_NUM
        &&& hi - lo <= MAX_ENTRIES
        &&& MAX_DELETIONS <= self.free_end
        &&& self.free_start <= self.free_end
        &&& self.free_start == self.free_end - MAX_DELETIONS + total(b, lo, hi)
        &&& forall|s: int|
            lo <= s < hi ==> {
                &&& self.entries@[#[trigger] Self::slot(s)] is Some
                &&& self.entry(s).seq_num.0 == s
                &&& self.entry(s).idx == self.free_end - MAX_DELETIONS + total(b, lo, s)
                &&& self.entry_deletions(self.entry(s)) == b[s as u64]
            }
        &&& forall|i: int|
            0 <= i < MAX_ENTRIES && (#[trigger] self.entries@[i]) is Some ==> {
                let s = self.entries@[i]->0.seq_num.0;
                lo <= s < hi && Self::slot(s as int) == i
            }
    }

    pub closed spec fn wf(&self) -> bool {
        if self.start_seq_num == INVALID_BLOCK_NUM {
            self.window(self.blocks(), 0, 0)
        } else {
            &&& self.start_seq_num <= self.end_seq_num
            &&& self.end_seq_num != INVALID_BLOCK_NUM
            &&& self.window(self.blocks(), self.start_seq_num as int, self.end_seq_num + 1)
        }
    }

    /// Nothing remembered.
    pub fn new() -> (r: Self)
        ensures
            r.wf(),
            r.log() == DeletionLog::empty(),
    {
        let blank = Deletion { address: Address::zero(), key: None };
        let r = FinalizedDeletions {
            start_seq_num: INVALID_BLOCK_NUM,
            end_seq_num: INVALID_BLOCK_NUM,
            entries: vec![None; MAX_ENTRIES],
            deletions: vec![blank; MAX_DELETIONS],
            free_start: 0,
            free_end: MAX_DELETIONS,
        };
        proof {
            assert(r.blocks() =~= Map::<u64, Seq<Deletion>>::empty());
        }
        r
    }

    fn free_deletions(&self) -> (r: usize)
        requires
            self.free_start <= self.free_end,
        ensures
            r == self.free_end - self.free_start,
    {
        self.free_end - self.free_start
    }

    fn clear_entry(
        &mut self,
        i: usize,
        Ghost(b): Ghost<Map<u64, Seq<Deletion>>>,
        Ghost(lo): Ghost<int>,
        Ghost(hi): Ghost<int>,
    )
        requires
            i < MAX_ENTRIES,
            old(self).window(b, lo, hi),
            old(self).free_start + MAX_DELETIONS <= usize::MAX,
            old(self).entries@[i as int] is Some ==> {
                &&& old(self).entries@[i as int]->0.seq_num.0 == lo
                &&& old(self).start_seq_num == lo
            },
        ensures
            final(self).entries@ == old(self).entries@.update(i as int, None),
            final(self).deletions == old(self).deletions,
            final(self).free_start == old(self).free_start,
            final(self).end_seq_num == old(self).end_seq_num,
            match old(self).entries@[i as int] {
                Some(e) => {
                    &&& final(self).start_seq_num == lo + 1
                    &&& final(self).window(b, lo + 1, hi)
                    &&& final(self).free_end == old(self).free_end + e.size
                },
                None => {
                    &&& final(self).start_seq_num == old(self).start_seq_num
                    &&& final(self).window(b, lo, hi)
                    &&& final(self).free_end == old(self).free_end
                },
            },
    {
        match self.entries[i] {
            Some(entry) => {
                proof {
                    assert(Self::slot(lo) == i);
                    lemma_total_front(b, lo, hi);
                    assert(b[lo as u64].len() == entry.size);
                }
                self.free_end = self.free_end + entry.size;
                self.start_seq_num = self.start_seq_num + 1;
                self.entries.set(i, None);
                proof {
                    assert forall|s: int| lo + 1 <= s < hi implies {
                        &&& self.entries@[#[trigger] Self::slot(s)] is Some
                        &&& self.entry(s).seq_num.0 == s
                        &&& self.entry(s).idx == self.free_end - MAX_DELETIONS + total(b, lo + 1, s)
                        &&& self.entry_deletions(self.entry(s)) == b[s as u64]
                    } by {
                        lemma_distinct_slots(lo, s, MAX_ENTRIES as int);
                        lemma_total_front(b, lo, s);
                        assert(self.entry_deletions(self.entry(s)) =~= old(self).entry_deletions(
                            old(self).entry(s),
                        ));
                    }
                }
            },
            None => {
                assert(self.entries@.update(i as int, None) =~= self.entries@);
            },
        }
    }

    fn set_entry(
        &mut self,
        i: usize,
        seq_num: u64,
        deletions: &Vec<Deletion>,
        Ghost(b): Ghost<Map<u64, Seq<Deletion>>>,
        Ghost(lo): Ghost<int>,
    )
        requires
            old(self).window(b, lo, seq_num as int),
            seq_num != INVALID_BLOCK_NUM,
            seq_num - lo < MAX_ENTRIES,
            i == Self::slot(seq_num as int),
            old(self).entries@[i as int] is None,
            old(self).free_start + deletions@.len() <= old(self).free_end,
        ensures
            final(self).window(b.insert(seq_num, deletions@), lo, seq_num + 1),
            final(self).free_start == old(self).free_start + deletions@.len(),
            final(self).start_seq_num == old(self).start_seq_num,
            final(self).end_seq_num == old(self).end_seq_num,
    {
        let offset = self.free_start;
        let count = deletions.len();
        let mut j: usize = 0;
        while j < count
            invariant
                j <= count,
                count == deletions@.len(),
                offset == self.free_start,
                offset + count <= self.free_end,
                *self == (FinalizedDeletions { deletions: self.deletions, ..*old(self) }),
                self.deletions@.len() == MAX_DELETIONS,
                forall|k: int|
                    0 <= k < j ==> self.deletions@[Self::place(offset + k)]
                        == #[trigger] deletions@[k],
                forall|p: int|
                    self.free_end - MAX_DELETIONS <= p < offset ==> self.deletions@[
                        #[trigger] Self::place(p)] == old(self).deletions@[Self::place(p)],
                MAX_DELETIONS <= self.free_end,
                self.free_end - MAX_DELETIONS <= offset,
            decreases count - j,
        {
            let at = (offset + j) % MAX_DELETIONS;
            proof {
                assert forall|p: int|
                    self.free_end - MAX_DELETIONS <= p < offset + j implies #[trigger] Self::place(
                    p,
                ) != at by {
                    lemma_distinct_slots(p, offset + j, MAX_DELETIONS as int);
                }
            }
            let ghost before = self.deletions@;
            self.deletions.set(at, deletions[j]);
            proof {
                assert forall|k: int| 0 <= k < j + 1 implies self.deletions@[Self::place(offset + k)]
                    == #[trigger] deletions@[k] by {
                    if k < j {
                        assert(Self::place(offset + k) != at);
                    }
                }
            }
            j = j + 1;
        }
        self.free_start = offset + count;
        self.entries.set(i, Some(FinalizedEntry { seq_num: SeqNum(seq_num), idx: offset, size: count }));
        proof {
            let c = b.insert(seq_num, deletions@);
            assert(self.entry_deletions(self.entry(seq_num as int)) =~= deletions@);
            lemma_total_same(b, c, lo, seq_num as int);
            assert forall|s: int| lo <= s < seq_num + 1 implies {
                &&& self.entries@[#[trigger] Self::slot(s)] is Some
                &&& self.entry(s).seq_num.0 == s
                &&& self.entry(s).idx == self.free_end - MAX_DELETIONS + total(c, lo, s)
                &&& self.entry_deletions(self.entry(s)) == c[s as u64]
            } by {
                if s < seq_num {
                    lemma_distinct_slots(s, seq_num as int, MAX_ENTRIES as int);
                    lemma_total_same(b, c, lo, s);
                    lemma_total_monotonic(b, lo, s + 1, seq_num as int);
                    let e = self.entry(s);
                    assert(e == old(self).entry(s));
                    assert(b[s as u64].len() == e.size);
                    assert(total(b, lo, s + 1) == total(b, lo, s) + e.size);
                    assert(self.entry_deletions(e) =~= old(self).entry_deletions(e)) by {
                        assert forall|k: int| 0 <= k < e.size implies self.deletions@[
                            #[trigger] Self::place(e.idx + k)] == old(self).deletions@[Self::place(
                            e.idx + k,
                        )] by {
                            let p = e.idx + k;
                            assert(self.free_end - MAX_DELETIONS <= p < offset);
                        }
                    }
                }
            }
        }
    }

    /// Whether `write` can be called with `n` deletions of block `seq_num`.
    pub fn accepts(&self, seq_num: SeqNum, n: usize) -> (r: bool)
        requires
            self.wf(),
        ensures
            r == self.log().accepts(seq_num.0, n as nat),
    {
        if seq_num.0 == INVALID_BLOCK_NUM {
            return false;
        }
        if self.end_seq_num != INVALID_BLOCK_NUM && self.end_seq_num + 1 != seq_num.0 {
            return false;
        }
        if self.free_start > usize::MAX - MAX_DELETIONS {
            return false;
        }
        n <= MAX_DELETIONS || self.start_seq_num == INVALID_BLOCK_NUM || self.start_seq_num
            % MAX_ENTRIES as u64 <= self.end_seq_num % MAX_ENTRIES as u64
    }

    /// Records the deletions of a block that was finalized.
    pub fn write(&mut self, seq_num: SeqNum, deletions: Vec<Deletion>)
        requires
            old(self).wf(),
            old(self).log().accepts(seq_num.0, deletions@.len()),
        ensures
            final(self).wf(),
            final(self).log() == old(self).log().write(seq_num.0, deletions@),
    {
        let ghost b = self.blocks();
        let ghost hi = if self.start_seq_num == INVALID_BLOCK_NUM {
            0
        } else {
            self.end_seq_num + 1
        };
        let ghost mut lo = if self.start_seq_num == INVALID_BLOCK_NUM {
            0
        } else {
            self.start_seq_num as int
        };
        let ghost first = lo;
        self.end_seq_num = seq_num.0;
        assert(self.window(b, lo, hi)) by {
            assert forall|e: FinalizedEntry| #[trigger] self.entry_deletions(e) == old(
                self,
            ).entry_deletions(e) by {
                assert(self.entry_deletions(e) =~= old(self).entry_deletions(e));
            }
        }
        if deletions.len() > MAX_DELETIONS {
            let mut i: usize = 0;
            while i < MAX_ENTRIES
                invariant
                    i <= MAX_ENTRIES,
                    self.window(b, lo, hi),
                    first <= lo,
                    lo < hi ==> self.start_seq_num == lo,
                    lo < hi ==> Self::slot(lo) >= i,
                    first < hi ==> Self::slot(first) <= Self::slot(hi - 1),
                    hi - first <= MAX_ENTRIES,
                    0 <= first,
                    self.free_start == old(self).free_start,
                    self.end_seq_num == seq_num.0,
                    old(self).free_start + MAX_DELETIONS <= usize::MAX,
                    forall|j: int| 0 <= j < i ==> (#[trigger] self.entries@[j]) is None,
                decreases MAX_ENTRIES - i,
            {
                proof {
                    if lo < hi {
                        assert(self.entries@[Self::slot(lo)] is Some);
                        lemma_ascending_slots(first, hi - 1, MAX_ENTRIES as int);
                        lemma_between(first, lo, hi - 1);
                        if lo + 1 < hi {
                            lemma_between(first, lo + 1, hi - 1);
                        }
                        if self.entries@[i as int] is Some {
                            let s = self.entries@[i as int]->0.seq_num.0 as int;
                            lemma_between(first, s, hi - 1);
                        }
                    }
                }
                let ghost cleared = self.entries@[i as int] is Some;
                self.clear_entry(i, Ghost(b), Ghost(lo), Ghost(hi));
                proof {
                    if cleared {
                        lo = lo + 1;
                    }
                }
                i = i + 1;
            }
            self.start_seq_num = INVALID_BLOCK_NUM;
            proof {
                if lo < hi {
                    assert(Self::slot(lo) < MAX_ENTRIES);
                }
                assert(self.blocks() =~= Map::<u64, Seq<Deletion>>::empty());
                assert(total(b, lo, hi) == 0);
                assert(total(self.blocks(), 0, 0) == 0);
            }
            return;
        }
        let ghost n = deletions@.len();
        if self.start_seq_num == INVALID_BLOCK_NUM {
            self.start_seq_num = seq_num.0;
            proof {
                lo = seq_num.0 as int;
            }
        }
        let ghost from = lo;
        let ghost seq = seq_num.0 as int;
        assert(self.window(b, lo, seq)) by {
            assert forall|e: FinalizedEntry| #[trigger] self.entry_deletions(e) == old(
                self,
            ).entry_deletions(e) by {
                assert(self.entry_deletions(e) =~= old(self).entry_deletions(e));
            }
        }
        let target_idx = (seq_num.0 % MAX_ENTRIES as u64) as usize;
        proof {
            if self.entries@[target_idx as int] is Some {
                let s = self.entries@[target_idx as int]->0.seq_num.0 as int;
                if lo < s || seq - s < MAX_ENTRIES {
                    lemma_distinct_slots(s, seq, MAX_ENTRIES as int);
                }
            } else if seq - lo == MAX_ENTRIES {
                lemma_same_slot(lo, seq);
                assert(self.entries@[Self::slot(lo)] is Some);
            }
        }
        let ghost cleared = self.entries@[target_idx as int] is Some;
        self.clear_entry(target_idx, Ghost(b), Ghost(lo), Ghost(seq));
        proof {
            if cleared {
                assert(!fits(b, lo, seq, n));
                lo = lo + 1;
            }
        }
        while self.free_deletions() < deletions.len()
            invariant
                self.window(b, lo, seq),
                self.start_seq_num == lo,
                self.end_seq_num == seq,
                self.entries@[target_idx as int] is None,
                target_idx == Self::slot(seq),
                seq - lo < MAX_ENTRIES,
                n == deletions@.len(),
                n <= MAX_DELETIONS,
                seq == seq_num.0,
                from <= lo,
                self.free_start == old(self).free_start,
                old(self).free_start + MAX_DELETIONS <= usize::MAX,
                oldest_kept(b, from, seq, n) == oldest_kept(b, lo, seq, n),
            decreases seq - lo,
        {
            proof {
                if lo == seq {
                    assert(total(b, lo, seq) == 0);
                    assert(false);
                }
                assert(!fits(b, lo, seq, n));
                assert(self.entries@[Self::slot(lo)] is Some);
                lemma_distinct_slots(lo, seq, MAX_ENTRIES as int);
            }
            let idx = (self.start_seq_num % MAX_ENTRIES as u64) as usize;
            self.clear_entry(idx, Ghost(b), Ghost(lo), Ghost(seq));
            proof {
                lo = lo + 1;
            }
        }
        assert(fits(b, lo, seq, n));
        assert(oldest_kept(b, lo, seq, n) == lo);
        self.set_entry(target_idx, seq_num.0, &deletions, Ghost(b), Ghost(lo));
        proof {
            let c = b.insert(seq_num.0, deletions@);
            assert forall|s: u64| lo <= s <= seq implies self.blocks()[s] == c[s] by {
                assert(self.entries@[Self::slot(s as int)] is Some);
            }
            lemma_total_same(c, self.blocks(), lo, seq + 1);
            assert forall|s: int| lo <= s < seq + 1 implies total(c, lo, s) == total(
                self.blocks(),
                lo,
                s,
            ) by {
                lemma_total_same(c, self.blocks(), lo, s);
            }
            assert(self.log().blocks =~= old(self).log().write(seq_num.0, deletions@).blocks);
        }
    }

    /// The deletions of a block, in the order in which they were written; none if the block is not
    /// remembered.
    pub fn for_each(&self, seq_num: SeqNum) -> (r: Option<Vec<Deletion>>)
        requires
            self.wf(),
        ensures
            match r {
                Some(v) => self.log().blocks.contains_key(seq_num.0) && v@
                    == self.log().blocks[seq_num.0],
                None => !self.log().blocks.contains_key(seq_num.0),
            },
    {
        let idx = (seq_num.0 % MAX_ENTRIES as u64) as usize;
        proof {
            if self.log().blocks.contains_key(seq_num.0) {
                assert(self.entries@[Self::slot(seq_num.0 as int)] is Some);
            }
        }
        match self.entries[idx] {
            Some(entry) => {
                if entry.seq_num.0 != seq_num.0 {
                    return None;
                }
                let mut out: Vec<Deletion> = Vec::new();
                let mut i: usize = 0;
                proof {
                    let lo = self.start_seq_num as int;
                    let hi = self.end_seq_num + 1;
                    lemma_total_monotonic(self.blocks(), lo, entry.seq_num.0 + 1, hi);
                    assert(self.blocks()[seq_num.0].len() == entry.size);
                }
                while i < entry.size
                    invariant
                        i <= entry.size,
                        entry.idx + entry.size <= usize::MAX,
                        self.deletions@.len() == MAX_DELETIONS,
                        out@ == self.entry_deletions(entry).take(i as int),
                    decreases entry.size - i,
                {
                    let at = (entry.idx + i) % MAX_DELETIONS;
                    out.push(self.deletions[at]);
                    i = i + 1;
                    assert(out@ =~= self.entry_deletions(entry).take(i as int));
                }
                assert(out@ =~= self.entry_deletions(entry));
                Some(out)
            },
            None => None,
        }
    }
}

proof fn lemma_same_slot(x: int, y: int)
    requires
        y == x + MAX_ENTRIES,
    ensures
        x % MAX_ENTRIES as int == y % MAX_ENTRIES as int,
{
}

/// Between two blocks whose slots ascend, slots ascend.
proof fn lemma_between(x: int, s: int, y: int)
    requires
        0 <= x <= s <= y < x + MAX_ENTRIES,
        x % MAX_ENTRIES as int <= y % MAX_ENTRIES as int,
    ensures
        s % MAX_ENTRIES as int - x % MAX_ENTRIES as int == s - x,
{
    lemma_ascending_slots(x, y, MAX_ENTRIES as int);
    if s % (MAX_ENTRIES as int) < x % MAX_ENTRIES as int {
        vstd::arithmetic::div_mod::lemma_fundamental_div_mod(x, MAX_ENTRIES as int);
        vstd::arithmetic::div_mod::lemma_fundamental_div_mod(s, MAX_ENTRIES as int);
    }
    lemma_ascending_slots(x, s, MAX_ENTRIES as int);
}

impl FinalizedDeletions {
    /// The blocks that are remembered are the latest ones, without a gap, and within both bounds.
    pub proof fn lemma_log_valid(&self)
        requires
            self.wf(),
        ensures
            self.log().valid(),
    {
        assert(self.log().blocks.dom() =~= self.log().blocks.dom());
        match self.log().first {
            Some(s) => {
                assert(self.log().blocks.dom() =~= Set::new(
                    |t: u64| s <= t <= self.log().last->0,
                ));
            },
            None => {
                assert(self.log().blocks =~= Map::<u64, Seq<Deletion>>::empty());
            },
        }
    }
}

/// Reading a block back gives what was written for it.
pub proof fn lemma_read_after_write(log: DeletionLog, seq: u64, new: Seq<Deletion>)
    requires
        log.valid(),
        log.continued_by(seq),
        new.len() <= MAX_DELETIONS,
    ensures
        log.write(seq, new).blocks.contains_key(seq),
        log.write(seq, new).blocks[seq] == new,
{
    match log.first {
        Some(s) => {
            lemma_oldest_kept_range(log.blocks, s as int, seq as int, new.len());
        },
        None => {},
    }
}

/// A write keeps an earlier block exactly if that block, all later ones and the new one fit, and
/// it keeps what the block deleted.
pub proof fn lemma_write_keeps_what_fits(log: DeletionLog, seq: u64, new: Seq<Deletion>, s: u64)
    requires
        log.valid(),
        log.continued_by(seq),
        new.len() <= MAX_DELETIONS,
        log.blocks.contains_key(s),
    ensures
        log.write(seq, new).blocks.contains_key(s) <==> fits(
            log.blocks,
            s as int,
            seq as int,
            new.len(),
        ),
        log.write(seq, new).blocks.contains_key(s) ==> log.write(seq, new).blocks[s]
            == log.blocks[s],
{
    let first = log.first->0 as int;
    lemma_oldest_kept_range(log.blocks, first, seq as int, new.len());
    if fits(log.blocks, s as int, seq as int, new.len()) {
        lemma_oldest_kept_least(log.blocks, first, seq as int, new.len(), s as int);
    }
    if oldest_kept(log.blocks, first, seq as int, new.len()) <= s {
        lemma_total_suffix(
            log.blocks,
            oldest_kept(log.blocks, first, seq as int, new.len()),
            s as int,
            seq as int,
        );
    }
}

/// A write keeps the log valid.
pub proof fn lemma_write_valid(log: DeletionLog, seq: u64, new: Seq<Deletion>)
    requires
        log.valid(),
        log.continued_by(seq),
    ensures
        log.write(seq, new).valid(),
{
    let after = log.write(seq, new);
    if new.len() <= MAX_DELETIONS {
        let lo = after.first->0 as int;
        match log.first {
            Some(s) => {
                lemma_oldest_kept_range(log.blocks, s as int, seq as int, new.len());
            },
            None => {
                assert(total(log.blocks, lo, lo) == 0);
            },
        }
        lemma_total_same(log.blocks, after.blocks, lo, seq as int);
        assert(after.blocks.dom() =~= Set::new(|t: u64| lo <= t <= seq));
    }
}

/// The log after the blocks from `first` on were written one after the other, each with its
/// deletions.
pub open spec fn written(first: u64, lists: Seq<Seq<Deletion>>) -> DeletionLog
    decreases lists.len(),
{
    if lists.len() == 0 {
        DeletionLog::empty()
    } else {
        written(first, lists.drop_last()).write((first + lists.len() - 1) as u64, lists.last())
    }
}

/// How many deletions the lists from place `k` on have together.
pub open spec fn count_from(lists: Seq<Seq<Deletion>>, k: int) -> nat
    decreases lists.len(),
{
    if lists.len() == 0 || lists.len() <= k {
        0
    } else {
        count_from(lists.drop_last(), k) + lists.last().len()
    }
}

/// Whether the block at place `k` is among the latest that fit: it and all after it keep within both
/// bounds.
pub open spec fn is_recent(lists: Seq<Seq<Deletion>>, k: int) -> bool {
    &&& 0 <= k < lists.len()
    &&& lists.len() - 1 - k < MAX_ENTRIES
    &&& count_from(lists, k) <= MAX_DELETIONS
}

/// After any number of blocks was written, exactly the latest that fit are remembered, each with its
/// own deletions: the oldest are dropped first, and no more of them than needed.
pub proof fn lemma_latest_are_remembered(first: u64, lists: Seq<Seq<Deletion>>, t: u64)
    requires
        first + lists.len() <= INVALID_BLOCK_NUM,
        forall|k: int| 0 <= k < lists.len() ==> (#[trigger] lists[k]).len() <= MAX_DELETIONS,
    ensures
        written(first, lists).valid(),
        written(first, lists).blocks.contains_key(t) <==> is_recent(lists, t - first),
        is_recent(lists, t - first) ==> written(first, lists).blocks[t] == lists[t - first],
        forall|j: int, k: int|
            j <= k < lists.len() && #[trigger] is_recent(lists, j) ==> #[trigger] is_recent(
                lists,
                k,
            ),
{
    lemma_written(first, lists);
    assert forall|j: int, k: int| j <= k < lists.len() && #[trigger] is_recent(lists, j) implies
    #[trigger] is_recent(lists, k) by {
        lemma_count_from_falls(lists, j, k);
    }
}

proof fn lemma_count_from_falls(lists: Seq<Seq<Deletion>>, j: int, k: int)
    requires
        0 <= j <= k,
    ensures
        count_from(lists, k) <= count_from(lists, j),
    decreases lists.len(),
{
    if lists.len() > k {
        lemma_count_from_falls(lists.drop_last(), j, k);
    }
}

proof fn lemma_count_from_total(
    first: u64,
    lists: Seq<Seq<Deletion>>,
    blocks: Map<u64, Seq<Deletion>>,
    k: int,
)
    requires
        0 <= k <= lists.len(),
        first + lists.len() <= u64::MAX,
        forall|t: u64|
            first + k <= t < first + lists.len() ==> #[trigger] blocks[t] == lists[t - first],
    ensures
        total(blocks, first + k, (first + lists.len()) as int) == count_from(lists, k),
    decreases lists.len(),
{
    if k < lists.len() {
        let before = lists.drop_last();
        assert forall|t: u64| first + k <= t < first + before.len() implies #[trigger] blocks[t]
            == before[t - first] by {}
        lemma_count_from_total(first, before, blocks, k);
        let last = (first + lists.len() - 1) as u64;
        assert(blocks[last] == lists[last - first]);
    }
}

proof fn lemma_written(first: u64, lists: Seq<Seq<Deletion>>)
    requires
        first + lists.len() <= INVALID_BLOCK_NUM,
        forall|k: int| 0 <= k < lists.len() ==> (#[trigger] lists[k]).len() <= MAX_DELETIONS,
    ensures
        written(first, lists).valid(),
        written(first, lists).last == if lists.len() == 0 {
            None
        } else {
            Some((first + lists.len() - 1) as u64)
        },
        lists.len() > 0 ==> written(first, lists).first is Some && written(first, lists).first->0
            >= first,
        forall|t: u64| #[trigger]
            written(first, lists).blocks.contains_key(t) <==> is_recent(lists, t - first),
        forall|t: u64|
            is_recent(lists, t - first) ==> #[trigger] written(first, lists).blocks[t] == lists[t
                - first],
    decreases lists.len(),
{
    if lists.len() > 0 {
        let before = lists.drop_last();
        lemma_written(first, before);
        let log = written(first, before);
        let seq = (first + lists.len() - 1) as u64;
        let new = lists.last();
        let after = log.write(seq, new);
        assert(new == lists[lists.len() - 1]);
        lemma_write_valid(log, seq, new);
        lemma_read_after_write(log, seq, new);
        if log.first is Some {
            lemma_oldest_kept_range(log.blocks, log.first->0 as int, seq as int, new.len());
        }
        assert forall|t: u64| (#[trigger] after.blocks.contains_key(t) <==> is_recent(
            lists,
            t - first,
        )) && (is_recent(lists, t - first) ==> after.blocks[t] == lists[t - first]) by {
            let k = t - first;
            if t == seq {
                assert(count_from(before, k) == 0);
            } else if first <= t < seq {
                assert(lists[k] == before[k]);
                if log.blocks.contains_key(t) {
                    lemma_write_keeps_what_fits(log, seq, new, t);
                    assert forall|u: u64| first + k <= u < first + before.len() implies
                    #[trigger] log.blocks[u] == before[u - first] by {
                        assert(log.blocks.contains_key(u));
                        assert(is_recent(before, u - first));
                    }
                    lemma_count_from_total(first, before, log.blocks, k);
                } else {
                    assert(!is_recent(before, k));
                    assert(!after.blocks.contains_key(t));
                }
            }
        }
    }
}

proof fn lemma_total_suffix(blocks: Map<u64, Seq<Deletion>>, lo: int, mid: int, hi: int)
    requires
        0 <= lo <= mid <= hi,
    ensures
        total(blocks, mid, hi) <= total(blocks, lo, hi),
    decreases mid - lo,
{
    if lo < mid {
        lemma_total_suffix(blocks, lo + 1, mid, hi);
        lemma_total_front(blocks, lo, hi);
    }
}

proof fn lemma_oldest_kept_least(
    blocks: Map<u64, Seq<Deletion>>,
    lo: int,
    seq: int,
    n: nat,
    s: int,
)
    requires
        lo <= s <= seq,
        fits(blocks, s, seq, n),
    ensures
        oldest_kept(blocks, lo, seq, n) <= s,
    decreases seq - lo,
{
    if !(lo >= seq || fits(blocks, lo, seq, n)) {
        lemma_oldest_kept_least(blocks, lo + 1, seq, n, s);
    }
}

/// The deletions of one block that is not finalized yet.
struct ProposedEntry {
    seq_num: SeqNum,
    block_id: BlockId,
    deletions: Vec<Deletion>,
}

/// The deletions of the blocks that are not finalized yet, in the order of their proposal.
pub struct ProposedDeletions {
    proposals: Vec<ProposedEntry>,
}

/// The deletions of one proposed block.
#[verifier::ext_equal]
pub struct Pending {
    pub seq_num: SeqNum,
    pub block_id: BlockId,
    pub deletions: Seq<Deletion>,
}

impl ProposedEntry {
    spec fn pending(self) -> Pending {
        Pending { seq_num: self.seq_num, block_id: self.block_id, deletions: self.deletions@ }
    }
}

/// The place of the oldest pending block with this id, from `from` on.
pub open spec fn pending_position(s: Seq<Pending>, block_id: BlockId, from: int) -> Option<int>
    decreases s.len() - from,
{
    if from >= s.len() {
        None
    } else if s[from].block_id == block_id {
        Some(from)
    } else {
        pending_position(s, block_id, from + 1)
    }
}

/// What is pending once block `seq` is final: the blocks after it.
pub open spec fn pending_after(s: Seq<Pending>, seq: SeqNum) -> Seq<Pending> {
    s.filter(|p: Pending| p.seq_num.0 > seq.0)
}

/// The pending blocks without the one at `at`.
pub open spec fn pending_without(s: Seq<Pending>, at: Option<int>) -> Seq<Pending> {
    match at {
        Some(i) => s.remove(i),
        None => s,
    }
}

/// Whether a pending block with this id, if there is one, can be written as block `seq`.
pub open spec fn can_finalize(
    s: Seq<Pending>,
    log: DeletionLog,
    seq: SeqNum,
    block_id: BlockId,
) -> bool {
    match pending_position(s, block_id, 0) {
        Some(i) => s[i].seq_num == seq && log.accepts(seq.0, s[i].deletions.len()),
        None => true,
    }
}

/// The log of finalized blocks once the pending block with this id is final.
pub open spec fn log_after_finalize(
    s: Seq<Pending>,
    log: DeletionLog,
    seq: SeqNum,
    block_id: BlockId,
) -> DeletionLog {
    match pending_position(s, block_id, 0) {
        Some(i) => log.write(seq.0, s[i].deletions),
        None => log,
    }
}

impl View for ProposedDeletions {
    type V = Seq<Pending>;

    closed spec fn view(&self) -> Seq<Pending> {
        self.proposals@.map_values(|e: ProposedEntry| e.pending())
    }
}

impl ProposedDeletions {
    /// Nothing pending.
    pub fn new() -> (r: Self)
        ensures
            r@ == Seq::<Pending>::empty(),
    {
        let r = ProposedDeletions { proposals: Vec::new() };
        assert(r@ =~= Seq::<Pending>::empty());
        r
    }

    /// Whether no block is pending.
    pub fn is_empty(&self) -> (r: bool)
        ensures
            r == (self@.len() == 0),
    {
        self.proposals.len() == 0
    }

    /// Adds what a proposed block deletes.
    pub fn push(&mut self, seq_num: SeqNum, block_id: BlockId, deletions: Vec<Deletion>)
        ensures
            final(self)@ == old(self)@.push(Pending { seq_num, block_id, deletions: deletions@ }),
    {
        self.proposals.push(ProposedEntry { seq_num, block_id, deletions });
        assert(self@ =~= old(self)@.push(Pending { seq_num, block_id, deletions: deletions@ }));
    }

    fn position(&self, block_id: BlockId) -> (r: Option<usize>)
        ensures
            match r {
                Some(i) => i < self@.len() && pending_position(self@, block_id, 0) == Some(i as int),
                None => pending_position(self@, block_id, 0) is None,
            },
    {
        let mut i: usize = 0;
        while i < self.proposals.len()
            invariant
                i <= self.proposals@.len(),
                pending_position(self@, block_id, 0) == pending_position(self@, block_id, i as int),
            decreases self.proposals@.len() - i,
        {
            assert(self@[i as int] == self.proposals@[i as int].pending());
            if self.proposals[i].block_id == block_id {
                return Some(i);
            }
            i = i + 1;
        }
        None
    }

    fn drop_up_to(&mut self, seq_num: SeqNum)
        ensures
            final(self)@ == pending_after(old(self)@, seq_num),
    {
        let ghost all = self@;
        let ghost p = |p: Pending| p.seq_num.0 > seq_num.0;
        let ghost mut done: int = 0;
        let mut i: usize = 0;
        assert(all.take(0).filter(p) =~= Seq::<Pending>::empty()) by {
            reveal(Seq::filter);
        }
        assert(all.skip(0) =~= all);
        while i < self.proposals.len()
            invariant
                p == (|p: Pending| p.seq_num.0 > seq_num.0),
                all == old(self)@,
                0 <= done <= all.len(),
                i == all.take(done).filter(p).len(),
                i <= self.proposals@.len(),
                self@ == all.take(done).filter(p) + all.skip(done),
            decreases all.len() - done,
        {
            proof {
                lemma_filter_step(all, done, p);
                assert(self@[i as int] == all[done]);
                assert(self@[i as int] == self.proposals@[i as int].pending());
                assert(all.skip(done).drop_first() =~= all.skip(done + 1));
            }
            let ghost before = self@;
            if self.proposals[i].seq_num.0 > seq_num.0 {
                i = i + 1;
                assert(before =~= all.take(done + 1).filter(p) + all.skip(done + 1));
            } else {
                self.proposals.remove(i);
                assert(self@ =~= before.remove(i as int));
                assert(self@ =~= all.take(done + 1).filter(p) + all.skip(done + 1));
            }
            proof {
                done = done + 1;
            }
        }
        assert(all.take(done) =~= all);
        assert(self@ =~= all.filter(p));
    }

    /// Moves the deletions of the block that was finalized to `finalized`, and forgets the blocks
    /// that can no longer be finalized.
    pub fn on_finalize(
        &mut self,
        finalized: &mut FinalizedDeletions,
        seq_num: SeqNum,
        block_id: BlockId,
    )
        requires
            old(finalized).wf(),
            can_finalize(old(self)@, old(finalized).log(), seq_num, block_id),
        ensures
            final(finalized).wf(),
            final(finalized).log() == log_after_finalize(
                old(self)@,
                old(finalized).log(),
                seq_num,
                block_id,
            ),
            final(self)@ == pending_after(
                pending_without(old(self)@, pending_position(old(self)@, block_id, 0)),
                seq_num,
            ),
    {
        if let Some(pos) = self.position(block_id) {
            assert(self@[pos as int] == self.proposals@[pos as int].pending());
            let entry = self.proposals.remove(pos);
            assert(self@ =~= old(self)@.remove(pos as int));
            finalized.write(seq_num, entry.deletions);
        }
        self.drop_up_to(seq_num);
    }

    /// Whether `on_finalize` can be called for this block.
    pub fn can_finalize(
        &self,
        finalized: &FinalizedDeletions,
        seq_num: SeqNum,
        block_id: BlockId,
    ) -> (r: bool)
        requires
            finalized.wf(),
        ensures
            r == can_finalize(self@, finalized.log(), seq_num, block_id),
    {
        match self.position(block_id) {
            Some(pos) => {
                assert(self@[pos as int] == self.proposals@[pos as int].pending());
                self.proposals[pos].seq_num == seq_num && finalized.accepts(
                    seq_num,
                    self.proposals[pos].deletions.len(),
                )
            },
            None => true,
        }
    }
}

/// Whether `d` is among the deletions of `deltas`: an account that existed before and does not
/// after, or a slot, of an account that exists after, that is set to zero.
pub open spec fn is_deletion(deltas: Map<Address, AccountDelta>, d: Deletion) -> bool {
    &&& deltas.contains_key(d.address)
    &&& match d.key {
        Some(key) => {
            let storage = deltas[d.address].storage@;
            &&& deltas[d.address].new_account is Some
            &&& storage.contains_key(key)
            &&& storage[key].old_value != storage[key].new_value
            &&& storage[key].new_value == B256::spec_zero()
        },
        None => deltas[d.address].old_account is Some && deltas[d.address].new_account is None,
    }
}

/// Every deletion of `state_deltas`, once.
pub fn extract_deletions(state_deltas: &StateDeltas) -> (r: Vec<Deletion>)
    ensures
        r@.no_duplicates(),
        forall|d: Deletion| #[trigger] r@.contains(d) <==> is_deletion(state_deltas@, d),
{
    let mut r: Vec<Deletion> = Vec::new();
    let addresses = state_deltas.keys();
    let mut i: usize = 0;
    while i < addresses.len()
        invariant
            i <= addresses@.len(),
            addresses@.no_duplicates(),
            addresses@.to_set() == state_deltas@.dom(),
            r@.no_duplicates(),
            forall|d: Deletion| #[trigger]
                r@.contains(d) <==> addresses@.take(i as int).contains(d.address) && is_deletion(
                    state_deltas@,
                    d,
                ),
        decreases addresses@.len() - i,
    {
        let address = addresses[i];
        proof {
            assert(addresses@.to_set().contains(address));
            lemma_take_step(addresses@, i as int);
            lemma_take_excludes(addresses@, i as int);
        }
        if let Some(delta) = state_deltas.get(&address) {
            push_slot_deletions(&mut r, address, delta, Ghost(state_deltas@));
            if delta.old_account.is_some() && delta.new_account.is_none() {
                let d = Deletion { address, key: None };
                proof {
                    lemma_push_contains(r@, d);
                    lemma_push_distinct(r@, d);
                }
                r.push(d);
            }
        }
        i = i + 1;
    }
    proof {
        assert(addresses@.take(i as int) =~= addresses@);
        assert forall|d: Deletion| #[trigger] r@.contains(d) <==> is_deletion(state_deltas@, d) by {
            assert(addresses@.to_set().contains(d.address) <==> addresses@.contains(d.address));
        }
    }
    r
}

/// Adds the slots of one account that are deleted.
fn push_slot_deletions(
    r: &mut Vec<Deletion>,
    address: Address,
    delta: &AccountDelta,
    Ghost(deltas): Ghost<Map<Address, AccountDelta>>,
)
    requires
        deltas.contains_key(address),
        deltas[address] == *delta,
        old(r)@.no_duplicates(),
        forall|d: Deletion| #[trigger] old(r)@.contains(d) ==> d.address != address,
    ensures
        final(r)@.no_duplicates(),
        forall|d: Deletion| #[trigger]
            final(r)@.contains(d) <==> old(r)@.contains(d) || (d.address == address && d.key is Some
                && is_deletion(deltas, d)),
{
    if delta.new_account.is_none() {
        return;
    }
    let zero = B256::zero();
    let slots = delta.storage.keys();
    let mut j: usize = 0;
    while j < slots.len()
        invariant
            j <= slots@.len(),
            slots@.no_duplicates(),
            slots@.to_set() == delta.storage@.dom(),
            zero == B256::spec_zero(),
            deltas.contains_key(address),
            deltas[address] == *delta,
            delta.new_account is Some,
            r@.no_duplicates(),
            forall|d: Deletion| #[trigger] old(r)@.contains(d) ==> d.address != address,
            forall|d: Deletion| #[trigger]
                r@.contains(d) <==> old(r)@.contains(d) || (d.address == address && d.key is Some
                    && slots@.take(j as int).contains(d.key->0) && is_deletion(deltas, d)),
        decreases slots@.len() - j,
    {
        let key = slots[j];
        proof {
            assert(slots@.to_set().contains(key));
            lemma_take_step(slots@, j as int);
            lemma_take_excludes(slots@, j as int);
        }
        if let Some(sd) = delta.storage.get(&key) {
            if sd.old_value != sd.new_value && sd.new_value == zero {
                let d = Deletion { address, key: Some(key) };
                proof {
                    lemma_push_contains(r@, d);
                    lemma_push_distinct(r@, d);
                }
                r.push(d);
            }
        }
        j = j + 1;
    }
    proof {
        assert(slots@.take(j as int) =~= slots@);
        assert forall|d: Deletion| #[trigger] r@.contains(d) <==> old(r)@.contains(d) || (d.address
            == address && d.key is Some && is_deletion(deltas, d)) by {
            if d.key is Some {
                assert(slots@.to_set().contains(d.key->0) <==> slots@.contains(d.key->0));
            }
        }
    }
}

/// An account is deleted by a block exactly if it existed before and does not after.
pub proof fn lemma_account_is_deleted_if_it_is_gone(
    deltas: Map<Address, AccountDelta>,
    address: Address,
)
    requires
        deltas.contains_key(address),
    ensures
        is_deletion(deltas, Deletion { address, key: None }) <==> {
            &&& deltas[address].old_account is Some
            &&& deltas[address].new_account is None
        },
{
}

/// A slot is deleted by a block exactly if it becomes zero and its account is there afterwards; slots
/// of an account that is gone are not deleted one by one.
pub proof fn lemma_slot_is_deleted_if_it_becomes_zero(
    deltas: Map<Address, AccountDelta>,
    address: Address,
    key: B256,
)
    requires
        deltas.contains_key(address),
        deltas[address].storage@.contains_key(key),
    ensures
        is_deletion(deltas, Deletion { address, key: Some(key) }) <==> {
            &&& deltas[address].new_account is Some
            &&& deltas[address].storage@[key].new_value == B256::spec_zero()
            &&& deltas[address].storage@[key].old_value != B256::spec_zero()
        },
{
}

/// Nothing is deleted of an account that a block does not change.
pub proof fn lemma_unchanged_account_has_no_deletion(
    deltas: Map<Address, AccountDelta>,
    d: Deletion,
)
    requires
        !deltas.contains_key(d.address) || (d.key is Some && !deltas[d.address].storage@.contains_key(
            d.key->0,
        )),
    ensures
        !is_deletion(deltas, d),
{
}

proof fn lemma_pending_position(s: Seq<Pending>, block_id: BlockId, from: int)
    requires
        0 <= from <= s.len(),
    ensures
        match pending_position(s, block_id, from) {
            Some(i) => {
                &&& from <= i < s.len()
                &&& s[i].block_id == block_id
                &&& forall|j: int| from <= j < i ==> (#[trigger] s[j]).block_id != block_id
            },
            None => forall|j: int| from <= j < s.len() ==> (#[trigger] s[j]).block_id != block_id,
        },
    decreases s.len() - from,
{
    if from < s.len() && s[from].block_id != block_id {
        lemma_pending_position(s, block_id, from + 1);
    }
}

/// When a proposed block is finalized, what it deleted is remembered under its number.
pub proof fn lemma_finalized_deletions_are_remembered(
    s: Seq<Pending>,
    log: DeletionLog,
    seq: SeqNum,
    i: int,
)
    requires
        log.valid(),
        log.continued_by(seq.0),
        0 <= i < s.len(),
        forall|j: int| 0 <= j < i ==> (#[trigger] s[j]).block_id != s[i].block_id,
        s[i].deletions.len() <= MAX_DELETIONS,
    ensures
        log_after_finalize(s, log, seq, s[i].block_id).blocks.contains_key(seq.0),
        log_after_finalize(s, log, seq, s[i].block_id).blocks[seq.0] == s[i].deletions,
        log_after_finalize(s, log, seq, s[i].block_id).last == Some(seq.0),
{
    lemma_pending_position(s, s[i].block_id, 0);
    lemma_read_after_write(log, seq.0, s[i].deletions);
}

/// A block that was not proposed leaves what is remembered as it is.
pub proof fn lemma_unknown_block_is_not_remembered(
    s: Seq<Pending>,
    log: DeletionLog,
    seq: SeqNum,
    block_id: BlockId,
)
    requires
        forall|j: int| 0 <= j < s.len() ==> (#[trigger] s[j]).block_id != block_id,
    ensures
        log_after_finalize(s, log, seq, block_id) == log,
        can_finalize(s, log, seq, block_id),
        pending_without(s, pending_position(s, block_id, 0)) == s,
{
    lemma_pending_position(s, block_id, 0);
}

/// Once a block is final, exactly the proposed blocks above it are still pending.
pub proof fn lemma_pending_blocks_are_above(s: Seq<Pending>, seq: SeqNum, p: Pending)
    ensures
        pending_after(s, seq).contains(p) <==> s.contains(p) && p.seq_num.0 > seq.0,
{
    let above = |p: Pending| p.seq_num.0 > seq.0;
    if s.contains(p) && above(p) {
        s.lemma_filter_contains(above, s.index_of(p));
    }
    if pending_after(s, seq).contains(p) {
        s.lemma_filter_contains_rev(above, p);
        let f = s.filter(above);
        let i = choose|i: int| 0 <= i < f.len() && f[i] == p;
        s.lemma_filter_pred(above, i);
    }
}

/// Of blocks that come one after the other and delete little, the latest 43200 are remembered, and no
/// older one: as long as they deleted at most two million accounts and slots together.
pub proof fn lemma_43200_blocks_are_remembered(first: u64, lists: Seq<Seq<Deletion>>, t: u64)
    requires
        first + lists.len() <= u64::MAX,
        forall|k: int| 0 <= k < lists.len() ==> (#[trigger] lists[k]).len() <= 2_000_000,
        first <= t < first + lists.len(),
        count_from(lists, t - first) <= 2_000_000,
    ensures
        written(first, lists).blocks.contains_key(t) <==> first + lists.len() - t <= 43200,
        written(first, lists).blocks.contains_key(t) ==> written(first, lists).blocks[t]
            == lists[t - first],
{
    lemma_latest_are_remembered(first, lists, t);
}

} // verus!
