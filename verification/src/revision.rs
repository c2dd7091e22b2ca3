//! The rules that a block is executed under.

use vstd::prelude::*;

verus! {

/// A revision of the chain's rules.
#[derive(Debug, Clone, Copy, PartialEq, Eq, PartialOrd, Ord, Structural)]
pub enum MonadRevision {
    Zero,
    One,
    Two,
    Three,
    Four,
    Five,
    Six,
    Seven,
    Eight,
    Nine,
    Next,
}

/// A revision of the virtual machine's rules.
#[derive(Debug, Clone, Copy, PartialEq, Eq, Structural)]
pub enum EvmRevision {
    Cancun,
    Prague,
    Osaka,
}

/// How many revisions there are.
pub const REVISIONS: usize = 11;

/// The revisions, oldest first.
pub open spec fn nth_revision(i: int) -> MonadRevision {
    if i == 0 {
        MonadRevision::Zero
    } else if i == 1 {
        MonadRevision::One
    } else if i == 2 {
        MonadRevision::Two
    } else if i == 3 {
        MonadRevision::Three
    } else if i == 4 {
        MonadRevision::Four
    } else if i == 5 {
        MonadRevision::Five
    } else if i == 6 {
        MonadRevision::Six
    } else if i == 7 {
        MonadRevision::Seven
    } else if i == 8 {
        MonadRevision::Eight
    } else if i == 9 {
        MonadRevision::Nine
    } else {
        MonadRevision::Next
    }
}

/// Whether the revision at `i` is the last one, of those that have a start, that has started.
pub open spec fn last_started(starts: Seq<u64>, timestamp: u64, i: int) -> bool {
    &&& 0 <= i < starts.len()
    &&& i < REVISIONS
    &&& timestamp >= starts[i]
    &&& forall|j: int| i < j < starts.len() && j < REVISIONS ==> timestamp < #[trigger] starts[j]
}

impl MonadRevision {
    /// The virtual machine's rules under this revision.
    pub fn evm_revision(&self) -> (r: EvmRevision)
        ensures
            r == match *self {
                MonadRevision::Nine | MonadRevision::Next => EvmRevision::Osaka,
                MonadRevision::Four
                | MonadRevision::Five
                | MonadRevision::Six
                | MonadRevision::Seven
                | MonadRevision::Eight => EvmRevision::Prague,
                MonadRevision::Zero
                | MonadRevision::One
                | MonadRevision::Two
                | MonadRevision::Three => EvmRevision::Cancun,
            },
    {
        match self {
            MonadRevision::Nine | MonadRevision::Next => EvmRevision::Osaka,
            MonadRevision::Four
            | MonadRevision::Five
            | MonadRevision::Six
            | MonadRevision::Seven
            | MonadRevision::Eight => EvmRevision::Prague,
            _ => EvmRevision::Cancun,
        }
    }

    fn nth(i: usize) -> (r: Self)
        ensures
            r == nth_revision(i as int),
    {
        if i == 0 {
            MonadRevision::Zero
        } else if i == 1 {
            MonadRevision::One
        } else if i == 2 {
            MonadRevision::Two
        } else if i == 3 {
            MonadRevision::Three
        } else if i == 4 {
            MonadRevision::Four
        } else if i == 5 {
            MonadRevision::Five
        } else if i == 6 {
            MonadRevision::Six
        } else if i == 7 {
            MonadRevision::Seven
        } else if i == 8 {
            MonadRevision::Eight
        } else if i == 9 {
            MonadRevision::Nine
        } else {
            MonadRevision::Next
        }
    }

    /// The revision at a time: the last one that has started, where `chain_revision_timestamps`
    /// holds the start of each; the oldest one if none has.
    pub fn from_timestamp(timestamp: u64, chain_revision_timestamps: &[u64]) -> (r: Self)
        ensures
            forall|i: int| #[trigger]
                last_started(chain_revision_timestamps@, timestamp, i) ==> r == nth_revision(i),
            (forall|i: int|
                0 <= i < chain_revision_timestamps@.len() && i < REVISIONS ==> timestamp
                    < #[trigger] chain_revision_timestamps@[i]) ==> r == MonadRevision::Zero,
    {
        let mut result = MonadRevision::Zero;
        let ghost starts = chain_revision_timestamps@;
        let ghost mut found: int = -1;
        let mut i: usize = 0;
        while i < chain_revision_timestamps.len()
            invariant
                starts == chain_revision_timestamps@,
                i <= starts.len(),
                -1 <= found < i,
                found == -1 ==> result == MonadRevision::Zero,
                found >= 0 ==> found < REVISIONS && result == nth_revision(found) && timestamp
                    >= starts[found],
                forall|j: int| found < j < i && j < REVISIONS ==> timestamp < #[trigger] starts[j],
            decreases starts.len() - i,
        {
            if i < REVISIONS && timestamp >= chain_revision_timestamps[i] {
                result = Self::nth(i);
                proof {
                    found = i as int;
                }
            }
            i = i + 1;
        }
        proof {
            assert forall|k: int| #[trigger] last_started(starts, timestamp, k) implies result
                == nth_revision(k) by {
                if found < k {
                    assert(timestamp < starts[k]);
                }
                if k < found {
                    assert(timestamp < starts[found]);
                }
            }
        }
        result
    }
}

/// At any time at which some revision has started, exactly one of them is the last that has.
pub proof fn lemma_one_revision_applies(starts: Seq<u64>, timestamp: u64, i: int) -> (last: int)
    requires
        0 <= i < starts.len(),
        i < REVISIONS,
        timestamp >= starts[i],
    ensures
        last_started(starts, timestamp, last),
        forall|j: int| #[trigger] last_started(starts, timestamp, j) ==> j == last,
    decreases starts.len() - i,
{
    if exists|j: int| i < j < starts.len() && j < REVISIONS && timestamp >= #[trigger] starts[j] {
        let j = choose|j: int|
            i < j < starts.len() && j < REVISIONS && timestamp >= #[trigger] starts[j];
        lemma_one_revision_applies(starts, timestamp, j)
    } else {
        assert forall|j: int| #[trigger] last_started(starts, timestamp, j) implies j == i by {
            if j < i {
                assert(timestamp < starts[i]);
            }
        }
        i
    }
}

/// The revisions are numbered in their order, from zero on, and each has one number.
pub proof fn lemma_revisions_are_numbered_in_order(i: int, j: int)
    requires
        0 <= i < 11,
        0 <= j < 11,
    ensures
        nth_revision(0) is Zero && nth_revision(1) is One && nth_revision(2) is Two,
        nth_revision(3) is Three && nth_revision(4) is Four && nth_revision(5) is Five,
        nth_revision(6) is Six && nth_revision(7) is Seven && nth_revision(8) is Eight,
        nth_revision(9) is Nine && nth_revision(10) is Next,
        nth_revision(i) == nth_revision(j) ==> i == j,
{
}

/// A revision applies from its start until the start of the next one.
pub proof fn lemma_revision_applies_from_its_start(starts: Seq<u64>, timestamp: u64, i: int)
    requires
        0 <= i < starts.len() <= 11,
        forall|j: int, k: int| 0 <= j < k < starts.len() ==> #[trigger] starts[j] < #[trigger] starts[k],
    ensures
        last_started(starts, timestamp, i) <==> starts[i] <= timestamp && (i + 1 < starts.len()
            ==> timestamp < starts[i + 1]),
{
    if starts[i] <= timestamp && (i + 1 < starts.len() ==> timestamp < starts[i + 1]) {
        assert forall|j: int| i < j < starts.len() && j < REVISIONS implies timestamp
            < #[trigger] starts[j] by {
            if j > i + 1 {
                assert(starts[i + 1] < starts[j]);
            }
        }
    }
}

} // verus!
