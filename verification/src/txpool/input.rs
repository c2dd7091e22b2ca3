//! Transactions on their way into the pool, in batches, by priority.

use vstd::prelude::*;

use crate::primitives::U256;
use crate::txpool::EthTxPoolIpcTx;

verus! {

/// How many transactions a batch has at most.
pub const MAX_BATCH_LEN: usize = 128;

/// For how long a batch is gathered, in milliseconds.
pub const BATCH_TIMER_INTERVAL_MS: u64 = 8;

/// The transactions that wait, those of higher priority first and, among those of the same
/// priority, those that came first.
pub struct EthTxPoolChannelInputStream {
    queue: Vec<EthTxPoolIpcTx>,
    channel_closed: bool,
}

#[verifier::ext_equal]
pub struct InputView {
    pub queue: Seq<EthTxPoolIpcTx>,
    pub closed: bool,
}

impl View for EthTxPoolChannelInputStream {
    type V = InputView;

    closed spec fn view(&self) -> InputView {
        InputView { queue: self.queue@, closed: self.channel_closed }
    }
}

/// Whether transactions are in the order of their priorities.
pub open spec fn is_ordered(queue: Seq<EthTxPoolIpcTx>) -> bool {
    forall|i: int, j: int|
        0 <= i <= j < queue.len() ==> (#[trigger] queue[i]).priority.spec_value() >= (
        #[trigger] queue[j]).priority.spec_value()
}

/// Where a transaction of some priority goes: behind all that have at least that priority.
pub open spec fn place_for(queue: Seq<EthTxPoolIpcTx>, priority: U256) -> int
    decreases queue.len(),
{
    if queue.len() == 0 {
        0
    } else if queue.last().priority.spec_value() >= priority.spec_value() {
        queue.len() as int
    } else {
        place_for(queue.drop_last(), priority)
    }
}

/// How many transactions a batch takes from a queue.
pub open spec fn batch_len(queue: Seq<EthTxPoolIpcTx>) -> int {
    if queue.len() < MAX_BATCH_LEN {
        queue.len() as int
    } else {
        MAX_BATCH_LEN as int
    }
}

/// What is done once nothing more can be received at the moment. `restart` tells whether the timer
/// starts anew.
#[derive(Clone, Copy, Debug, PartialEq, Eq, Structural)]
pub enum BatchPlan {
    /// There is nothing to hand out.
    Wait,
    /// A batch is handed out if the timer went off.
    OnTimer { restart: bool },
    /// A batch is handed out.
    Now { restart: bool },
}

impl EthTxPoolChannelInputStream {
    /// Nothing waits.
    pub fn new() -> (r: Self)
        ensures
            r@ == (InputView { queue: Seq::empty(), closed: false }),
    {
        EthTxPoolChannelInputStream { queue: Vec::new(), channel_closed: false }
    }

    /// How many transactions wait.
    pub fn len(&self) -> (r: usize)
        ensures
            r == self@.queue.len(),
    {
        self.queue.len()
    }

    /// Whether another transaction can be received.
    pub fn wants_more(&self) -> (r: bool)
        ensures
            r == (!self@.closed && self@.queue.len() < MAX_BATCH_LEN),
    {
        !self.channel_closed && self.queue.len() < MAX_BATCH_LEN
    }

    /// A transaction was received.
    pub fn receive(&mut self, tx: EthTxPoolIpcTx)
        ensures
            final(self)@ == (InputView {
                queue: old(self)@.queue.insert(place_for(old(self)@.queue, tx.priority), tx),
                ..old(self)@
            }),
    {
        let ghost all = self.queue@;
        let mut k = self.queue.len();
        assert(all.take(k as int) =~= all);
        while k > 0
            invariant_except_break
                k <= all.len(),
                all == self.queue@,
                place_for(all, tx.priority) == place_for(all.take(k as int), tx.priority),
            ensures
                k <= all.len(),
                all == self.queue@,
                place_for(all, tx.priority) == k,
            decreases k,
        {
            assert(all.take(k as int).last() == all[k - 1]);
            if self.queue[k - 1].priority.at_least(&tx.priority) {
                break;
            }
            assert(all.take(k as int).drop_last() =~= all.take(k - 1));
            k = k - 1;
        }
        self.queue.insert(k, tx);
    }

    /// No more transactions will be received.
    pub fn close(&mut self)
        ensures
            final(self)@ == (InputView { closed: true, ..old(self)@ }),
    {
        self.channel_closed = true;
    }

    /// What is done now, where `was_empty` tells whether nothing waited before. The timer starts
    /// when the first transaction of a batch comes; a full batch does not wait for it.
    pub fn plan_batch(&self, was_empty: bool) -> (r: BatchPlan)
        ensures
            r == if self@.queue.len() == 0 {
                BatchPlan::Wait
            } else if self@.queue.len() < MAX_BATCH_LEN {
                BatchPlan::OnTimer { restart: was_empty }
            } else {
                BatchPlan::Now { restart: was_empty }
            },
    {
        if self.queue.len() == 0 {
            BatchPlan::Wait
        } else if self.queue.len() < MAX_BATCH_LEN {
            BatchPlan::OnTimer { restart: was_empty }
        } else {
            BatchPlan::Now { restart: was_empty }
        }
    }

    /// Hands out a batch: the transactions that come first.
    pub fn take_batch(&mut self) -> (r: Vec<EthTxPoolIpcTx>)
        ensures
            ({
                let queue = old(self)@.queue;
                let n = batch_len(queue);
                &&& r@ == queue.take(n)
                &&& final(self)@ == (InputView { queue: queue.skip(n), ..old(self)@ })
            }),
    {
        let n = if self.queue.len() < MAX_BATCH_LEN {
            self.queue.len()
        } else {
            MAX_BATCH_LEN
        };
        let ghost all = self.queue@;
        let mut rest = self.queue.split_off(n);
        std::mem::swap(&mut rest, &mut self.queue);
        assert(rest@ =~= all.take(n as int));
        assert(self.queue@ =~= all.skip(n as int));
        rest
    }
}

/// Where a transaction goes, all before it have at least its priority, and all behind it have less.
pub proof fn lemma_place_for(queue: Seq<EthTxPoolIpcTx>, priority: U256)
    requires
        is_ordered(queue),
    ensures
        0 <= place_for(queue, priority) <= queue.len(),
        forall|i: int|
            0 <= i < place_for(queue, priority) ==> (#[trigger] queue[i]).priority.spec_value()
                >= priority.spec_value(),
        forall|i: int|
            place_for(queue, priority) <= i < queue.len() ==> (
            #[trigger] queue[i]).priority.spec_value() < priority.spec_value(),
    decreases queue.len(),
{
    if queue.len() > 0 {
        let rest = queue.drop_last();
        assert forall|i: int, j: int| 0 <= i <= j < rest.len() implies (
        #[trigger] rest[i]).priority.spec_value() >= (#[trigger] rest[j]).priority.spec_value() by {
            assert(queue[i].priority.spec_value() >= queue[j].priority.spec_value());
        }
        lemma_place_for(rest, priority);
        if queue.last().priority.spec_value() >= priority.spec_value() {
            assert forall|i: int| 0 <= i < queue.len() implies (
            #[trigger] queue[i]).priority.spec_value() >= priority.spec_value() by {
                assert(queue[i].priority.spec_value() >= queue[queue.len()
                    - 1].priority.spec_value());
            }
        } else {
            let k = place_for(rest, priority);
            assert forall|i: int| 0 <= i < queue.len() implies ((
            #[trigger] queue[i]).priority.spec_value() >= priority.spec_value()) == (i < k) by {
                if i < rest.len() {
                    assert(rest[i] == queue[i]);
                }
            }
        }
    }
}

/// Receiving a transaction keeps the order.
pub proof fn lemma_receiving_keeps_order(queue: Seq<EthTxPoolIpcTx>, tx: EthTxPoolIpcTx)
    requires
        is_ordered(queue),
    ensures
        is_ordered(queue.insert(place_for(queue, tx.priority), tx)),
{
    let k = place_for(queue, tx.priority);
    lemma_place_for(queue, tx.priority);
    let after = queue.insert(k, tx);
    assert forall|i: int, j: int| 0 <= i <= j < after.len() implies (
    #[trigger] after[i]).priority.spec_value() >= (#[trigger] after[j]).priority.spec_value() by {
        let a = if i < k {
            i
        } else {
            i - 1
        };
        let b = if j < k {
            j
        } else {
            j - 1
        };
        if i != k && j != k {
            assert(after[i] == queue[a] && after[j] == queue[b]);
            assert(queue[a].priority.spec_value() >= queue[b].priority.spec_value());
        } else if i == k && j != k {
            assert(after[j] == queue[b]);
        } else if i != k && j == k {
            assert(after[i] == queue[a]);
        }
    }
}

/// A batch holds nothing of lower priority than what is left, and what is left stays in order.
pub proof fn lemma_batch_has_the_highest_priorities(queue: Seq<EthTxPoolIpcTx>, n: int, i: int, j: int)
    requires
        is_ordered(queue),
        0 <= n <= queue.len(),
        0 <= i < n,
        0 <= j < queue.len() - n,
    ensures
        queue.take(n)[i].priority.spec_value() >= queue.skip(n)[j].priority.spec_value(),
        is_ordered(queue.skip(n)),
        queue.take(n) + queue.skip(n) == queue,
{
    assert(queue[i].priority.spec_value() >= queue[n + j].priority.spec_value());
    assert forall|i: int, j: int| 0 <= i <= j < queue.skip(n).len() implies (
    #[trigger] queue.skip(n)[i]).priority.spec_value() >= (
    #[trigger] queue.skip(n)[j]).priority.spec_value() by {
        assert(queue[n + i].priority.spec_value() >= queue[n + j].priority.spec_value());
    }
    assert(queue.take(n) + queue.skip(n) =~= queue);
}

/// What happens to a queue: a transaction is received, or a batch is handed out.
pub enum InputStep {
    Receive(EthTxPoolIpcTx),
    Batch,
}

/// What became of a queue that was empty at first: all that was received, the batches that were
/// handed out, and what waits, each in order.
pub struct InputRun {
    pub received: Seq<EthTxPoolIpcTx>,
    pub batches: Seq<Seq<EthTxPoolIpcTx>>,
    pub queue: Seq<EthTxPoolIpcTx>,
}

/// What becomes of a queue that is empty at first: a transaction goes where `receive` puts it, and a
/// batch is what `take_batch` hands out.
pub open spec fn run_input(steps: Seq<InputStep>) -> InputRun
    decreases steps.len(),
{
    if steps.len() == 0 {
        InputRun { received: Seq::empty(), batches: Seq::empty(), queue: Seq::empty() }
    } else {
        let before = run_input(steps.drop_last());
        match steps.last() {
            InputStep::Receive(tx) => InputRun {
                received: before.received.push(tx),
                queue: before.queue.insert(place_for(before.queue, tx.priority), tx),
                ..before
            },
            InputStep::Batch => InputRun {
                batches: before.batches.push(before.queue.take(batch_len(before.queue))),
                queue: before.queue.skip(batch_len(before.queue)),
                ..before
            },
        }
    }
}

/// Batches one behind the other.
pub open spec fn joined(batches: Seq<Seq<EthTxPoolIpcTx>>) -> Seq<EthTxPoolIpcTx>
    decreases batches.len(),
{
    if batches.len() == 0 {
        Seq::empty()
    } else {
        joined(batches.drop_last()) + batches.last()
    }
}

/// Tells which transactions have some priority.
pub open spec fn has_priority(v: nat) -> spec_fn(EthTxPoolIpcTx) -> bool {
    |tx: EthTxPoolIpcTx| tx.priority.spec_value() == v
}

/// Whatever the order of receiving and handing out: what was received is what was handed out and
/// what waits, nothing is lost or handed out twice, and among transactions of the same priority the
/// order is that of their arrival. What waits is in the order of priorities, and so is every batch.
pub proof fn lemma_input_keeps_all(steps: Seq<InputStep>)
    ensures
        ({
            let run = run_input(steps);
            let out = joined(run.batches) + run.queue;
            &&& run.received.to_multiset() == joined(run.batches).to_multiset().add(
                run.queue.to_multiset(),
            )
            &&& forall|v: nat| #[trigger]
                out.filter(has_priority(v)) == run.received.filter(has_priority(v))
            &&& is_ordered(run.queue)
            &&& forall|i: int|
                0 <= i < run.batches.len() ==> is_ordered(#[trigger] run.batches[i])
                    && run.batches[i].len() <= MAX_BATCH_LEN
        }),
    decreases steps.len(),
{
    let run = run_input(steps);
    let out = joined(run.batches) + run.queue;
    if steps.len() == 0 {
        assert(out =~= run.received);
        assert(joined(run.batches) =~= Seq::empty());
        assert(run.received.to_multiset() =~= joined(run.batches).to_multiset().add(
            run.queue.to_multiset(),
        )) by {
            run.received.to_multiset_ensures();
        }
    } else {
        lemma_input_keeps_all(steps.drop_last());
        let before = run_input(steps.drop_last());
        let given = joined(before.batches);
        match steps.last() {
            InputStep::Receive(tx) => {
                let k = place_for(before.queue, tx.priority);
                lemma_place_for(before.queue, tx.priority);
                lemma_receiving_keeps_order(before.queue, tx);
                lemma_insert_multiset(before.queue, k, tx);
                before.received.to_multiset_ensures();
                assert(run.received.to_multiset() =~= given.to_multiset().add(
                    run.queue.to_multiset(),
                ));
                assert forall|v: nat| #[trigger] out.filter(has_priority(v)) == run.received.filter(
                    has_priority(v),
                ) by {
                    lemma_insert_filter(before.queue, k, tx, v);
                    let p = has_priority(v);
                    Seq::filter_distributes_over_add(given, run.queue, p);
                    Seq::filter_distributes_over_add(given, before.queue, p);
                    assert((given + before.queue).filter(p) == before.received.filter(p));
                    assert(run.received.drop_last() =~= before.received);
                    reveal(Seq::filter);
                    assert(out.filter(p) =~= run.received.filter(p));
                }
            },
            InputStep::Batch => {
                let n = batch_len(before.queue);
                let batch = before.queue.take(n);
                assert(run.batches.drop_last() =~= before.batches);
                assert(out =~= given + before.queue);
                assert(before.queue =~= batch + run.queue);
                vstd::seq_lib::lemma_multiset_commutative(batch, run.queue);
                vstd::seq_lib::lemma_multiset_commutative(given, batch);
                assert(run.received.to_multiset() =~= joined(run.batches).to_multiset().add(
                    run.queue.to_multiset(),
                ));
                lemma_ordered_part(before.queue, 0, n);
                lemma_ordered_part(before.queue, n, before.queue.len() as int);
                assert(batch =~= before.queue.subrange(0, n));
                assert(run.queue =~= before.queue.subrange(n, before.queue.len() as int));
                assert forall|i: int| 0 <= i < run.batches.len() implies is_ordered(
                    #[trigger] run.batches[i],
                ) && run.batches[i].len() <= MAX_BATCH_LEN by {
                    if i < before.batches.len() {
                        assert(run.batches[i] == before.batches[i]);
                    }
                }
            },
        }
    }
}

/// Whatever the order of receiving and handing out before: a batch is not empty if anything waits,
/// has at most 128 transactions, and has none of lower priority than one that is left.
pub proof fn lemma_batch_comes_first(steps: Seq<InputStep>)
    requires
        steps.len() > 0,
        steps.last() is Batch,
        run_input(steps.drop_last()).queue.len() > 0,
    ensures
        ({
            let run = run_input(steps);
            let batch = run.batches.last();
            &&& run.batches.len() > 0
            &&& 1 <= batch.len() <= MAX_BATCH_LEN
            &&& batch.len() < MAX_BATCH_LEN ==> run.queue.len() == 0
            &&& is_ordered(batch)
            &&& forall|i: int, j: int|
                0 <= i < batch.len() && 0 <= j < run.queue.len() ==> (
                #[trigger] batch[i]).priority.spec_value() >= (
                #[trigger] run.queue[j]).priority.spec_value()
        }),
{
    let before = run_input(steps.drop_last());
    let run = run_input(steps);
    let n = batch_len(before.queue);
    let batch = run.batches.last();
    lemma_input_keeps_all(steps.drop_last());
    lemma_input_keeps_all(steps);
    assert(batch == run.batches[run.batches.len() - 1]);
    assert forall|i: int, j: int| 0 <= i < batch.len() && 0 <= j < run.queue.len() implies (
    #[trigger] batch[i]).priority.spec_value() >= (
    #[trigger] run.queue[j]).priority.spec_value() by {
        lemma_batch_has_the_highest_priorities(before.queue, n, i, j);
    }
}

proof fn lemma_ordered_part(queue: Seq<EthTxPoolIpcTx>, from: int, to: int)
    requires
        is_ordered(queue),
        0 <= from <= to <= queue.len(),
    ensures
        is_ordered(queue.subrange(from, to)),
{
    let part = queue.subrange(from, to);
    assert forall|i: int, j: int| 0 <= i <= j < part.len() implies (
    #[trigger] part[i]).priority.spec_value() >= (#[trigger] part[j]).priority.spec_value() by {
        assert(queue[from + i].priority.spec_value() >= queue[from + j].priority.spec_value());
    }
}

proof fn lemma_insert_multiset(queue: Seq<EthTxPoolIpcTx>, k: int, tx: EthTxPoolIpcTx)
    requires
        0 <= k <= queue.len(),
    ensures
        queue.insert(k, tx).to_multiset() == queue.to_multiset().insert(tx),
{
    let after = queue.insert(k, tx);
    after.to_multiset_ensures();
    assert(after[k] == tx);
    assert(after.contains(tx));
    assert(after.remove(k) =~= queue);
    assert(after.to_multiset() =~= queue.to_multiset().insert(tx));
}

/// Among transactions of the same priority, one that is received comes last.
proof fn lemma_insert_filter(queue: Seq<EthTxPoolIpcTx>, k: int, tx: EthTxPoolIpcTx, v: nat)
    requires
        is_ordered(queue),
        k == place_for(queue, tx.priority),
    ensures
        queue.insert(k, tx).filter(has_priority(v)) == if tx.priority.spec_value() == v {
            queue.filter(has_priority(v)).push(tx)
        } else {
            queue.filter(has_priority(v))
        },
{
    let p = has_priority(v);
    lemma_place_for(queue, tx.priority);
    let front = queue.take(k);
    let back = queue.skip(k);
    assert(queue =~= front + back);
    assert(queue.insert(k, tx) =~= front.push(tx) + back);
    Seq::filter_distributes_over_add(front, back, p);
    Seq::filter_distributes_over_add(front.push(tx), back, p);
    assert(front.push(tx).drop_last() =~= front);
    assert(front.push(tx).filter(p) == if p(tx) {
        front.filter(p).push(tx)
    } else {
        front.filter(p)
    }) by {
        reveal(Seq::filter);
    }
    if p(tx) {
        if back.filter(p).len() > 0 {
            back.lemma_filter_pred(p, 0);
            back.lemma_filter_contains_rev(p, back.filter(p)[0]);
            let j = choose|j: int| 0 <= j < back.len() && back[j] == back.filter(p)[0];
            assert(queue[k + j].priority.spec_value() < tx.priority.spec_value());
        }
        assert(back.filter(p) =~= Seq::empty());
        assert(queue.insert(k, tx).filter(p) =~= queue.filter(p).push(tx));
    }
}

/// A batch takes all that waits, up to 128 transactions.
pub proof fn lemma_batch_takes_up_to_128(queue: Seq<EthTxPoolIpcTx>)
    ensures
        queue.len() <= 128 ==> batch_len(queue) == queue.len(),
        queue.len() > 128 ==> batch_len(queue) == 128,
{
}

} // verus!
