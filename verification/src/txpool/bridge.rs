//! What became of the transactions that users sent.

use std::collections::VecDeque;

use vstd::prelude::*;

use crate::keymap::KeyMap;
use crate::primitives::{Address, TxHash, U256};
use crate::rpc::tx::{tx_hash, tx_hash_of};
use crate::seqs::{lemma_push_contains, lemma_push_distinct, lemma_take_excludes, lemma_take_step};
use crate::transactions::TxEnvelope;
use crate::txpool::maps::{
    hashes_contents, hashes_get, hashes_insert, hashes_keys, hashes_remove, new_hashes_map,
    new_sender_map, new_status_map, sender_contents, sender_insert, sender_remove, status_contents,
    status_get, status_insert, status_keys, status_remove,
};
use crate::txpool::{
    EthTxPoolEvent, EthTxPoolEventType, EthTxPoolIpcTx, EthTxPoolSnapshot, TxStatus,
    DEFAULT_TX_PRIORITY_VALUE,
};

verus! {

/// For how long a transaction is watched, in nanoseconds: 15 minutes.
pub const TX_EVICT_NANOS: u64 = 900_000_000_000;

/// A transaction that is watched. Its watchers are on `channel`, and `version` tells how often they
/// were told of a new status.
#[derive(Clone, Copy, Debug)]
pub struct TxEntry {
    pub status: TxStatus,
    pub channel: u64,
    pub version: u64,
}

/// One who watches a transaction, and the version that it saw last; none if the status that it has
/// not looked at yet counts as new.
#[derive(Clone, Copy, Debug)]
pub struct TxStatusReceiver {
    pub hash: TxHash,
    pub channel: u64,
    pub seen: Option<u64>,
}

/// The transactions that are watched, each with the time since when, oldest first.
pub type EthTxPoolBridgeEvictionQueue = VecDeque<(u64, TxHash)>;

/// The transactions that are watched.
pub struct EthTxPoolBridgeState {
    status: dashmap::DashMap<[u8; 32], TxEntry>,
    hash_address: dashmap::DashMap<[u8; 32], [u8; 20]>,
    address_hashes: dashmap::DashMap<[u8; 20], Vec<TxHash>>,
    next_channel: u64,
}

#[verifier::ext_equal]
pub struct BridgeView {
    pub status: Map<TxHash, TxEntry>,
    pub senders: Map<TxHash, Address>,
    pub hashes: Map<Address, Set<TxHash>>,
    pub next_channel: u64,
}

impl View for EthTxPoolBridgeState {
    type V = BridgeView;

    closed spec fn view(&self) -> BridgeView {
        BridgeView {
            status: status_contents(self.status),
            senders: sender_contents(self.hash_address),
            hashes: hashes_contents(self.address_hashes).map_values(|s: Seq<TxHash>| s.to_set()),
            next_channel: self.next_channel,
        }
    }
}

/// The number after the one of a channel or a version.
pub open spec fn next_number(n: u64) -> u64 {
    if n == u64::MAX {
        0
    } else {
        (n + 1) as u64
    }
}

/// The number that comes `k` numbers after the one of a channel or a version.
pub open spec fn number_after(n: u64, k: nat) -> u64 {
    ((n + k) % 0x1_0000_0000_0000_0000) as u64
}

fn advance(n: u64) -> (r: u64)
    ensures
        r == next_number(n),
{
    if n == u64::MAX {
        0
    } else {
        n + 1
    }
}

impl BridgeView {
    /// Nothing is watched.
    pub open spec fn empty() -> BridgeView {
        BridgeView {
            status: Map::empty(),
            senders: Map::empty(),
            hashes: Map::empty(),
            next_channel: 0,
        }
    }

    /// A transaction is watched that was not watched before.
    pub open spec fn watched(self, hash: TxHash, status: TxStatus) -> BridgeView {
        BridgeView {
            status: self.status.insert(
                hash,
                TxEntry { status, channel: self.next_channel, version: 0 },
            ),
            next_channel: next_number(self.next_channel),
            ..self
        }
    }

    /// The watchers of a transaction are told of its status.
    pub open spec fn told(self, hash: TxHash, status: TxStatus) -> BridgeView {
        let e = self.status[hash];
        BridgeView {
            status: self.status.insert(
                hash,
                TxEntry { status, channel: e.channel, version: next_number(e.version) },
            ),
            ..self
        }
    }

    /// A transaction got a status.
    pub open spec fn with_status(self, hash: TxHash, status: TxStatus) -> BridgeView {
        if self.status.contains_key(hash) {
            self.told(hash, status)
        } else {
            self.watched(hash, status)
        }
    }

    /// A transaction has a sender.
    pub open spec fn with_sender(self, hash: TxHash, address: Address) -> BridgeView {
        let known = if self.hashes.contains_key(address) {
            self.hashes[address]
        } else {
            Set::empty()
        };
        BridgeView {
            senders: self.senders.insert(hash, address),
            hashes: self.hashes.insert(address, known.insert(hash)),
            ..self
        }
    }

    /// A transaction is not watched any more, and its sender forgets it.
    pub open spec fn forgotten(self, hash: TxHash) -> BridgeView {
        if !self.status.contains_key(hash) {
            self
        } else {
            let status = self.status.remove(hash);
            if !self.senders.contains_key(hash) {
                BridgeView { status, ..self }
            } else {
                let address = self.senders[hash];
                BridgeView {
                    status,
                    senders: self.senders.remove(hash),
                    hashes: if self.hashes.contains_key(address) {
                        self.hashes.insert(address, self.hashes[address].remove(hash))
                    } else {
                        self.hashes
                    },
                    ..self
                }
            }
        }
    }

    /// Senders without transactions are forgotten.
    pub open spec fn without_idle_senders(self) -> BridgeView {
        BridgeView {
            hashes: self.hashes.restrict(
                Set::new(
                    |a: Address|
                        self.hashes.contains_key(a) && self.hashes[a] != Set::<TxHash>::empty(),
                ),
            ),
            ..self
        }
    }
}

/// What an event does to a transaction.
pub open spec fn status_of_event(action: EthTxPoolEventType) -> TxStatus {
    match action {
        EthTxPoolEventType::Insert { .. } => TxStatus::Pooled,
        EthTxPoolEventType::Commit => TxStatus::Committed,
        EthTxPoolEventType::Drop { reason } => TxStatus::Dropped { reason },
        EthTxPoolEventType::Evict { reason } => TxStatus::Evicted { reason },
    }
}

/// What an event leads to. A transaction that was not watched before is watched from `now` on.
pub open spec fn after_event(
    v: BridgeView,
    queue: Seq<(u64, TxHash)>,
    event: EthTxPoolEvent,
    now: u64,
) -> (BridgeView, Seq<(u64, TxHash)>) {
    let w = v.with_status(event.tx_hash, status_of_event(event.action));
    (
        match event.action {
            EthTxPoolEventType::Insert { address, .. } => w.with_sender(event.tx_hash, address),
            _ => w,
        },
        if v.status.contains_key(event.tx_hash) {
            queue
        } else {
            queue.push((now, event.tx_hash))
        },
    )
}

/// What some events lead to, one after the other.
pub open spec fn after_events(
    v: BridgeView,
    queue: Seq<(u64, TxHash)>,
    events: Seq<EthTxPoolEvent>,
    now: u64,
) -> (BridgeView, Seq<(u64, TxHash)>)
    decreases events.len(),
{
    if events.len() == 0 {
        (v, queue)
    } else {
        let (w, q) = after_events(v, queue, events.drop_last(), now);
        after_event(w, q, events.last(), now)
    }
}

/// Whether a transaction that is watched since `since` is watched for too long.
pub open spec fn is_expired(since: u64, now: u64) -> bool {
    now - since >= TX_EVICT_NANOS
}

/// What is left when the transactions at the front that are watched for too long are forgotten.
pub open spec fn evicted(v: BridgeView, queue: Seq<(u64, TxHash)>, now: u64) -> (
    BridgeView,
    Seq<(u64, TxHash)>,
)
    decreases queue.len(),
{
    if queue.len() > 0 && is_expired(queue[0].0, now) {
        evicted(v.forgotten(queue[0].1), queue.drop_first(), now)
    } else {
        (v, queue)
    }
}

/// The hashes in a queue.
pub open spec fn queued(queue: Seq<(u64, TxHash)>) -> Seq<TxHash> {
    queue.map_values(|e: (u64, TxHash)| e.1)
}

/// Whether a transaction is watched in `v` that a snapshot does not hold.
pub open spec fn is_gone(v: BridgeView, txs: Set<TxHash>, hash: TxHash) -> bool {
    v.status.contains_key(hash) && !txs.contains(hash)
}

/// Whether the transactions that are watched in `w` for the first time since `v` are `fresh`, in the
/// order in which they got their channels: the first gets the one that is next in `v`, each other
/// the one after that of the one before it, and the one after the last is next in `w`.
pub open spec fn opens_channels(
    v: BridgeView,
    txs: Set<TxHash>,
    fresh: Seq<TxHash>,
    w: BridgeView,
) -> bool {
    &&& fresh.no_duplicates()
    &&& forall|h: TxHash| #[trigger]
        fresh.contains(h) <==> txs.contains(h) && !v.status.contains_key(h)
    &&& forall|i: int|
        0 <= i < fresh.len() ==> w.status[#[trigger] fresh[i]].channel == number_after(
            v.next_channel,
            i as nat,
        )
    &&& w.next_channel == number_after(v.next_channel, fresh.len())
}

/// Whether `w` is what a snapshot leaves of `v`: exactly its transactions are watched, and they are
/// in the pool. Those who watched before keep their channel and are not told. Each of the others
/// gets a channel of its own, from the one that is next in `v` on.
pub open spec fn follows_snapshot(v: BridgeView, txs: Set<TxHash>, w: BridgeView) -> bool {
    &&& w.status.dom() == txs
    &&& forall|h: TxHash| #[trigger]
        w.status.contains_key(h) ==> {
            &&& w.status[h].status == TxStatus::Pooled
            &&& if v.status.contains_key(h) {
                &&& w.status[h].channel == v.status[h].channel
                &&& w.status[h].version == v.status[h].version
            } else {
                w.status[h].version == 0
            }
        }
    &&& exists|fresh: Seq<TxHash>| #[trigger] opens_channels(v, txs, fresh, w)
    &&& forall|h: TxHash| #[trigger]
        w.senders.contains_key(h) <==> v.senders.contains_key(h) && !is_gone(v, txs, h)
    &&& forall|h: TxHash| #[trigger]
        w.senders.contains_key(h) ==> w.senders[h] == v.senders[h]
    &&& w.hashes.dom() == v.hashes.dom()
    &&& forall|a: Address, h: TxHash|
        v.hashes.contains_key(a) ==> (#[trigger] w.hashes[a].contains(h) <==> v.hashes[a].contains(
            h,
        ) && !(is_gone(v, txs, h) && v.senders.contains_key(h) && v.senders[h] == a))
}

/// Whether a queue holds exactly some transactions, each once, all watched since `now`.
pub open spec fn starts_anew(queue: Seq<(u64, TxHash)>, txs: Set<TxHash>, now: u64) -> bool {
    &&& queued(queue).no_duplicates()
    &&& forall|h: TxHash| #[trigger] queued(queue).contains(h) <==> txs.contains(h)
    &&& forall|i: int| 0 <= i < queue.len() ==> (#[trigger] queue[i]).0 == now
}

/// Some hashes with one more.
fn with_hash(hashes: Vec<TxHash>, hash: &TxHash) -> (r: Vec<TxHash>)
    requires
        hashes@.no_duplicates(),
    ensures
        r@.no_duplicates(),
        r@.to_set() == hashes@.to_set().insert(*hash),
{
    let mut r = hashes;
    let mut i: usize = 0;
    while i < r.len()
        invariant
            i <= r@.len(),
            r == hashes,
            hashes@.no_duplicates(),
            forall|j: int| 0 <= j < i ==> r@[j] != *hash,
        decreases r@.len() - i,
    {
        if r[i] == *hash {
            proof {
                assert(hashes@.contains(hashes@[i as int]));
                assert(hashes@.to_set().insert(*hash) =~= hashes@.to_set());
            }
            return r;
        }
        i = i + 1;
    }
    proof {
        lemma_push_distinct(r@, *hash);
        lemma_push_contains(r@, *hash);
    }
    r.push(*hash);
    assert(r@.to_set() =~= hashes@.to_set().insert(*hash));
    r
}

/// Some hashes without one.
fn without_hash(hashes: &Vec<TxHash>, hash: &TxHash) -> (r: Vec<TxHash>)
    requires
        hashes@.no_duplicates(),
    ensures
        r@.no_duplicates(),
        r@.to_set() == hashes@.to_set().remove(*hash),
{
    let mut r: Vec<TxHash> = Vec::new();
    let mut i: usize = 0;
    while i < hashes.len()
        invariant
            i <= hashes@.len(),
            hashes@.no_duplicates(),
            r@.no_duplicates(),
            forall|h: TxHash| #[trigger]
                r@.contains(h) <==> hashes@.take(i as int).contains(h) && h != *hash,
        decreases hashes@.len() - i,
    {
        proof {
            lemma_take_step(hashes@, i as int);
            lemma_take_excludes(hashes@, i as int);
        }
        if hashes[i] != *hash {
            proof {
                lemma_push_contains(r@, hashes@[i as int]);
                lemma_push_distinct(r@, hashes@[i as int]);
            }
            r.push(hashes[i]);
        }
        i = i + 1;
    }
    proof {
        assert(hashes@.take(i as int) =~= hashes@);
        assert(r@.to_set() =~= hashes@.to_set().remove(*hash));
    }
    r
}

impl EthTxPoolBridgeState {
    /// What holds between calls.
    pub closed spec fn wf(&self) -> bool {
        forall|a: Address| #[trigger]
            hashes_contents(self.address_hashes).contains_key(a) ==> hashes_contents(
                self.address_hashes,
            )[a].no_duplicates()
    }

    /// Nothing is watched.
    pub fn new_empty() -> (r: Self)
        ensures
            r@ == BridgeView::empty(),
            r.wf(),
    {
        let r = EthTxPoolBridgeState {
            status: new_status_map(),
            hash_address: new_sender_map(),
            address_hashes: new_hashes_map(),
            next_channel: 0,
        };
        assert(r@.hashes =~= Map::empty());
        r
    }

    fn watch(&mut self, hash: &TxHash, status: TxStatus)
        requires
            old(self).wf(),
        ensures
            final(self).wf(),
            final(self)@ == old(self)@.watched(*hash, status),
    {
        let entry = TxEntry { status, channel: self.next_channel, version: 0 };
        status_insert(&mut self.status, hash, entry);
        self.next_channel = advance(self.next_channel);
    }

    fn set_status(
        &mut self,
        eviction_queue: &mut EthTxPoolBridgeEvictionQueue,
        now: u64,
        hash: &TxHash,
        status: TxStatus,
    )
        requires
            old(self).wf(),
        ensures
            final(self).wf(),
            final(self)@ == old(self)@.with_status(*hash, status),
            final(eviction_queue)@ == if old(self)@.status.contains_key(*hash) {
                old(eviction_queue)@
            } else {
                old(eviction_queue)@.push((now, *hash))
            },
    {
        match status_get(&self.status, hash) {
            Some(e) => {
                let entry = TxEntry { status, channel: e.channel, version: advance(e.version) };
                status_insert(&mut self.status, hash, entry);
            },
            None => {
                self.watch(hash, status);
                eviction_queue.push_back((now, *hash));
            },
        }
    }

    fn set_sender(&mut self, hash: &TxHash, address: &Address)
        requires
            old(self).wf(),
        ensures
            final(self).wf(),
            final(self)@ == old(self)@.with_sender(*hash, *address),
    {
        let ghost before = self@;
        let ghost lists = hashes_contents(self.address_hashes);
        sender_insert(&mut self.hash_address, hash, address);
        let known = match hashes_get(&self.address_hashes, address) {
            Some(v) => v,
            None => Vec::new(),
        };
        let hashes = with_hash(known, hash);
        proof {
            if !lists.contains_key(*address) {
                assert(known@.to_set() =~= Set::empty());
            }
        }
        hashes_insert(&mut self.address_hashes, address, hashes);
        assert(self@.hashes =~= before.with_sender(*hash, *address).hashes);
    }

    fn forget(&mut self, hash: &TxHash)
        requires
            old(self).wf(),
        ensures
            final(self).wf(),
            final(self)@ == old(self)@.forgotten(*hash),
    {
        let ghost before = self@;
        let ghost lists = hashes_contents(self.address_hashes);
        if !status_remove(&mut self.status, hash) {
            assert(self@.status =~= before.status);
            assert(self@ =~= before);
            return;
        }
        if let Some(address) = sender_remove(&mut self.hash_address, hash) {
            if let Some(v) = hashes_get(&self.address_hashes, &address) {
                let rest = without_hash(&v, hash);
                hashes_insert(&mut self.address_hashes, &address, rest);
            }
            assert(self@.hashes =~= before.forgotten(*hash).hashes);
        } else {
            assert(self@.senders =~= before.senders);
        }
        assert(self@ =~= before.forgotten(*hash));
    }

    /// Watches a transaction, known by its hash. The result tells whether it has to be sent to the
    /// pool, and is what its sender watches it with. The status of a transaction that is known
    /// already counts as new.
    pub fn add_hash(
        &mut self,
        eviction_queue: &mut EthTxPoolBridgeEvictionQueue,
        now: u64,
        hash: TxHash,
    ) -> (r: (bool, TxStatusReceiver))
        requires
            old(self).wf(),
        ensures
            final(self).wf(),
            if old(self)@.status.contains_key(hash) {
                let e = old(self)@.status[hash];
                let known = e.status != TxStatus::Unknown;
                &&& r.0 == !known
                &&& r.1 == (TxStatusReceiver {
                    hash,
                    channel: e.channel,
                    seen: if known {
                        None
                    } else {
                        Some(e.version)
                    },
                })
                &&& final(self)@ == old(self)@
                &&& final(eviction_queue)@ == old(eviction_queue)@
            } else {
                &&& r.0
                &&& r.1 == (TxStatusReceiver {
                    hash,
                    channel: old(self)@.next_channel,
                    seen: Some(0),
                })
                &&& final(self)@ == old(self)@.watched(hash, TxStatus::Unknown)
                &&& final(eviction_queue)@ == old(eviction_queue)@.push((now, hash))
            },
    {
        match status_get(&self.status, &hash) {
            Some(e) => {
                let known = match e.status {
                    TxStatus::Unknown => false,
                    _ => true,
                };
                let seen = if known {
                    None
                } else {
                    Some(e.version)
                };
                (!known, TxStatusReceiver { hash, channel: e.channel, seen })
            },
            None => {
                let channel = self.next_channel;
                self.watch(&hash, TxStatus::Unknown);
                eviction_queue.push_back((now, hash));
                (true, TxStatusReceiver { hash, channel, seen: Some(0) })
            },
        }
    }

    /// Applies some events, one after the other.
    pub fn handle_events(
        &mut self,
        eviction_queue: &mut EthTxPoolBridgeEvictionQueue,
        now: u64,
        events: &Vec<EthTxPoolEvent>,
    )
        requires
            old(self).wf(),
        ensures
            final(self).wf(),
            (final(self)@, final(eviction_queue)@) == after_events(
                old(self)@,
                old(eviction_queue)@,
                events@,
                now,
            ),
    {
        let mut i: usize = 0;
        while i < events.len()
            invariant
                i <= events@.len(),
                self.wf(),
                (self@, eviction_queue@) == after_events(
                    old(self)@,
                    old(eviction_queue)@,
                    events@.take(i as int),
                    now,
                ),
            decreases events@.len() - i,
        {
            let event = &events[i];
            let ghost before = self@;
            let ghost queue = eviction_queue@;
            let hash = event.tx_hash;
            match &event.action {
                EthTxPoolEventType::Insert { address, .. } => {
                    self.set_status(eviction_queue, now, &hash, TxStatus::Pooled);
                    self.set_sender(&hash, address);
                },
                EthTxPoolEventType::Commit => {
                    self.set_status(eviction_queue, now, &hash, TxStatus::Committed);
                },
                EthTxPoolEventType::Drop { reason } => {
                    let status = TxStatus::Dropped { reason: *reason };
                    self.set_status(eviction_queue, now, &hash, status);
                },
                EthTxPoolEventType::Evict { reason } => {
                    let status = TxStatus::Evicted { reason: *reason };
                    self.set_status(eviction_queue, now, &hash, status);
                },
            }
            proof {
                assert((self@, eviction_queue@) == after_event(before, queue, *event, now));
                assert(events@.take(i + 1).drop_last() =~= events@.take(i as int));
            }
            i = i + 1;
        }
        assert(events@.take(i as int) =~= events@);
    }
}

impl EthTxPoolBridgeState {
    fn keep_pooled(
        &mut self,
        eviction_queue: &mut EthTxPoolBridgeEvictionQueue,
        now: u64,
        txs: &KeyMap<TxHash, ()>,
    )
        requires
            old(self).wf(),
            old(eviction_queue)@.len() == 0,
        ensures
            final(self).wf(),
            follows_snapshot(
                old(self)@,
                txs@.dom().intersect(old(self)@.status.dom()),
                final(self)@,
            ),
            starts_anew(
                final(eviction_queue)@,
                txs@.dom().intersect(old(self)@.status.dom()),
                now,
            ),
    {
        let ghost v = self@;
        let ghost kept = txs@.dom().intersect(v.status.dom());
        let keys = status_keys(&self.status);
        let mut i: usize = 0;
        proof {
            assert(queued(eviction_queue@) =~= Seq::empty());
        }
        while i < keys.len()
            invariant
                i <= keys@.len(),
                keys@.no_duplicates(),
                keys@.to_set() == v.status.dom(),
                kept == txs@.dom().intersect(v.status.dom()),
                self.wf(),
                self@.next_channel == v.next_channel,
                forall|h: TxHash| #[trigger]
                    self@.status.contains_key(h) <==> v.status.contains_key(h) && (kept.contains(h)
                        || !keys@.take(i as int).contains(h)),
                forall|h: TxHash| #[trigger]
                    self@.status.contains_key(h) ==> {
                        &&& self@.status[h].channel == v.status[h].channel
                        &&& self@.status[h].version == v.status[h].version
                        &&& keys@.take(i as int).contains(h) ==> self@.status[h].status
                            == TxStatus::Pooled
                    },
                forall|h: TxHash| #[trigger]
                    self@.senders.contains_key(h) <==> v.senders.contains_key(h) && !(is_gone(
                        v,
                        kept,
                        h,
                    ) && keys@.take(i as int).contains(h)),
                forall|h: TxHash| #[trigger]
                    self@.senders.contains_key(h) ==> self@.senders[h] == v.senders[h],
                self@.hashes.dom() == v.hashes.dom(),
                forall|a: Address, h: TxHash|
                    v.hashes.contains_key(a) ==> (#[trigger] self@.hashes[a].contains(h)
                        <==> v.hashes[a].contains(h) && !(is_gone(v, kept, h) && keys@.take(
                        i as int,
                    ).contains(h) && v.senders.contains_key(h) && v.senders[h] == a)),
                queued(eviction_queue@).no_duplicates(),
                forall|h: TxHash| #[trigger]
                    queued(eviction_queue@).contains(h) <==> kept.contains(h) && keys@.take(
                        i as int,
                    ).contains(h),
                forall|j: int|
                    0 <= j < eviction_queue@.len() ==> (#[trigger] eviction_queue@[j]).0 == now,
            decreases keys@.len() - i,
        {
            let hash = keys[i];
            let ghost before = self@;
            proof {
                assert(keys@.to_set().contains(hash));
                lemma_take_step(keys@, i as int);
                lemma_take_excludes(keys@, i as int);
                assert(before.status.contains_key(hash));
            }
            if txs.contains_key(&hash) {
                if let Some(e) = status_get(&self.status, &hash) {
                    let entry = TxEntry {
                        status: TxStatus::Pooled,
                        channel: e.channel,
                        version: e.version,
                    };
                    status_insert(&mut self.status, &hash, entry);
                }
                proof {
                    lemma_push_contains(queued(eviction_queue@), hash);
                    lemma_push_distinct(queued(eviction_queue@), hash);
                    assert(queued(eviction_queue@.push((now, hash))) =~= queued(
                        eviction_queue@,
                    ).push(hash));
                }
                eviction_queue.push_back((now, hash));
                assert(self@.senders == before.senders);
                assert(self@.hashes == before.hashes);
            } else {
                self.forget(&hash);
                proof {
                    assert(is_gone(v, kept, hash));
                    assert(self@ == before.forgotten(hash));
                    assert forall|h: TxHash| #[trigger] self@.senders.contains_key(h) <==> h != hash
                        && before.senders.contains_key(h) by {
                    }
                }
            }
            i = i + 1;
        }
        proof {
            assert(keys@.take(i as int) =~= keys@);
            assert forall|h: TxHash| keys@.contains(h) <==> v.status.contains_key(h) by {
                assert(keys@.to_set().contains(h) <==> keys@.contains(h));
            }
            assert(self@.status.dom() =~= kept);
            assert(opens_channels(v, kept, Seq::empty(), self@));
        }
    }

    /// Takes over what the pool holds: exactly those transactions are watched from here on.
    pub fn apply_snapshot(
        &mut self,
        eviction_queue: &mut EthTxPoolBridgeEvictionQueue,
        now: u64,
        snapshot: &EthTxPoolSnapshot,
    )
        requires
            old(self).wf(),
        ensures
            final(self).wf(),
            follows_snapshot(old(self)@, snapshot.txs@.dom(), final(self)@),
            starts_anew(final(eviction_queue)@, snapshot.txs@.dom(), now),
    {
        let ghost v = self@;
        let ghost txs = snapshot.txs@.dom();
        let ghost kept = txs.intersect(v.status.dom());
        *eviction_queue = VecDeque::new();
        self.keep_pooled(eviction_queue, now, &snapshot.txs);
        let ghost mid = self@;
        let ghost mut fresh: Seq<TxHash> = Seq::empty();
        let keys = snapshot.txs.keys();
        let mut i: usize = 0;
        proof {
            let none = choose|none: Seq<TxHash>| #[trigger] opens_channels(v, kept, none, mid);
            if none.len() > 0 {
                assert(none.contains(none[0]));
            }
        }
        while i < keys.len()
            invariant
                i <= keys@.len(),
                keys@.no_duplicates(),
                keys@.to_set() == txs,
                kept == txs.intersect(v.status.dom()),
                self.wf(),
                follows_snapshot(v, kept, mid),
                self@.senders == mid.senders,
                self@.hashes == mid.hashes,
                forall|h: TxHash| #[trigger]
                    self@.status.contains_key(h) <==> kept.contains(h) || keys@.take(
                        i as int,
                    ).contains(h),
                forall|h: TxHash| #[trigger]
                    self@.status.contains_key(h) ==> if kept.contains(h) {
                        self@.status[h] == mid.status[h]
                    } else {
                        self@.status[h].status == TxStatus::Pooled && self@.status[h].version == 0
                    },
                fresh.no_duplicates(),
                forall|h: TxHash| #[trigger]
                    fresh.contains(h) <==> !kept.contains(h) && keys@.take(i as int).contains(h),
                forall|j: int|
                    0 <= j < fresh.len() ==> self@.status[#[trigger] fresh[j]].channel
                        == number_after(v.next_channel, j as nat),
                self@.next_channel == number_after(v.next_channel, fresh.len()),
                queued(eviction_queue@).no_duplicates(),
                forall|h: TxHash| #[trigger]
                    queued(eviction_queue@).contains(h) <==> kept.contains(h) || keys@.take(
                        i as int,
                    ).contains(h),
                forall|j: int|
                    0 <= j < eviction_queue@.len() ==> (#[trigger] eviction_queue@[j]).0 == now,
            decreases keys@.len() - i,
        {
            let hash = keys[i];
            proof {
                assert(keys@.to_set().contains(hash));
                lemma_take_step(keys@, i as int);
                lemma_take_excludes(keys@, i as int);
            }
            if status_get(&self.status, &hash).is_none() {
                self.watch(&hash, TxStatus::Pooled);
                proof {
                    assert forall|j: int| 0 <= j < fresh.len() implies #[trigger] fresh[j]
                        != hash by {
                        assert(fresh.contains(fresh[j]));
                    }
                    lemma_push_contains(fresh, hash);
                    lemma_push_distinct(fresh, hash);
                    fresh = fresh.push(hash);
                    lemma_push_contains(queued(eviction_queue@), hash);
                    lemma_push_distinct(queued(eviction_queue@), hash);
                    assert(queued(eviction_queue@.push((now, hash))) =~= queued(
                        eviction_queue@,
                    ).push(hash));
                }
                eviction_queue.push_back((now, hash));
            }
            i = i + 1;
        }
        proof {
            assert(keys@.take(i as int) =~= keys@);
            assert forall|h: TxHash| keys@.contains(h) <==> txs.contains(h) by {
                assert(keys@.to_set().contains(h) <==> keys@.contains(h));
            }
            assert(self@.status.dom() =~= txs);
            assert(opens_channels(v, txs, fresh, self@));
            assert forall|h: TxHash| is_gone(v, kept, h) == is_gone(v, txs, h) by {
            }
        }
    }

    /// What is watched of a pool that holds these transactions.
    pub fn new(
        eviction_queue: &mut EthTxPoolBridgeEvictionQueue,
        now: u64,
        snapshot: &EthTxPoolSnapshot,
    ) -> (r: Self)
        ensures
            r.wf(),
            follows_snapshot(BridgeView::empty(), snapshot.txs@.dom(), r@),
            starts_anew(final(eviction_queue)@, snapshot.txs@.dom(), now),
    {
        let mut r = Self::new_empty();
        r.apply_snapshot(eviction_queue, now, snapshot);
        r
    }

    fn forget_idle_senders(&mut self)
        requires
            old(self).wf(),
        ensures
            final(self).wf(),
            final(self)@ == old(self)@.without_idle_senders(),
    {
        let ghost v = self@;
        let keys = hashes_keys(&self.address_hashes);
        let ghost lists = hashes_contents(self.address_hashes);
        let mut i: usize = 0;
        while i < keys.len()
            invariant
                i <= keys@.len(),
                keys@.no_duplicates(),
                keys@.to_set() == lists.dom(),
                v == old(self)@,
                v.hashes == lists.map_values(|s: Seq<TxHash>| s.to_set()),
                self.wf(),
                self@.status == v.status,
                self@.senders == v.senders,
                self@.next_channel == v.next_channel,
                forall|a: Address| #[trigger]
                    hashes_contents(self.address_hashes).contains_key(a) <==> lists.contains_key(a)
                        && (lists[a].len() > 0 || !keys@.take(i as int).contains(a)),
                forall|a: Address| #[trigger]
                    hashes_contents(self.address_hashes).contains_key(a) ==> hashes_contents(
                        self.address_hashes,
                    )[a] == lists[a],
            decreases keys@.len() - i,
        {
            let address = keys[i];
            proof {
                assert(keys@.to_set().contains(address));
                lemma_take_step(keys@, i as int);
                lemma_take_excludes(keys@, i as int);
            }
            let idle = match hashes_get(&self.address_hashes, &address) {
                Some(v) => v.len() == 0,
                None => false,
            };
            if idle {
                hashes_remove(&mut self.address_hashes, &address);
            }
            i = i + 1;
        }
        proof {
            assert(keys@.take(i as int) =~= keys@);
            assert forall|a: Address| #[trigger] lists.contains_key(a) implies (lists[a].len() > 0)
                == (v.hashes[a] != Set::<TxHash>::empty()) by {
                if lists[a].len() > 0 {
                    assert(lists[a].contains(lists[a][0]));
                    assert(v.hashes[a].contains(lists[a][0]));
                } else {
                    assert(v.hashes[a] =~= Set::<TxHash>::empty());
                }
            }
            assert forall|a: Address| keys@.contains(a) <==> lists.contains_key(a) by {
                assert(keys@.to_set().contains(a) <==> keys@.contains(a));
            }
            assert(self@.hashes =~= v.without_idle_senders().hashes);
            assert(self@ =~= v.without_idle_senders());
        }
    }

    /// Forgets the transactions that are watched for too long, and senders without transactions.
    pub fn cleanup(&mut self, eviction_queue: &mut EthTxPoolBridgeEvictionQueue, now: u64)
        requires
            old(self).wf(),
        ensures
            final(self).wf(),
            ({
                let (v, queue) = evicted(old(self)@, old(eviction_queue)@, now);
                &&& final(self)@ == v.without_idle_senders()
                &&& final(eviction_queue)@ == queue
            }),
    {
        loop
            invariant
                self.wf(),
                evicted(self@, eviction_queue@, now) == evicted(
                    old(self)@,
                    old(eviction_queue)@,
                    now,
                ),
            ensures
                self.wf(),
                (self@, eviction_queue@) == evicted(old(self)@, old(eviction_queue)@, now),
            decreases eviction_queue@.len(),
        {
            if eviction_queue.len() == 0 {
                break;
            }
            let since = eviction_queue[0].0;
            if now < since || now - since < TX_EVICT_NANOS {
                break;
            }
            let ghost queue = eviction_queue@;
            if let Some((_, hash)) = eviction_queue.pop_front() {
                assert(eviction_queue@ =~= queue.drop_first());
                self.forget(&hash);
            }
        }
        self.forget_idle_senders();
    }

    /// The status of a transaction, if it is watched.
    pub fn get_status_by_hash(&self, hash: &TxHash) -> (r: Option<TxStatus>)
        ensures
            r == if self@.status.contains_key(*hash) {
                Some(self@.status[*hash].status)
            } else {
                None
            },
    {
        match status_get(&self.status, hash) {
            Some(e) => Some(e.status),
            None => None,
        }
    }

    /// The status of every transaction of a sender that is watched, in some order; none if the
    /// sender is not known.
    pub fn get_status_by_address(&self, address: &Address) -> (r: Option<Vec<(TxHash, TxStatus)>>)
        requires
            self.wf(),
        ensures
            match r {
                None => !self@.hashes.contains_key(*address),
                Some(list) => {
                    &&& self@.hashes.contains_key(*address)
                    &&& list@.no_duplicates()
                    &&& forall|e: (TxHash, TxStatus)| #[trigger]
                        list@.contains(e) <==> self@.hashes[*address].contains(e.0)
                            && self@.status.contains_key(e.0) && self@.status[e.0].status == e.1
                },
            },
    {
        let hashes = match hashes_get(&self.address_hashes, address) {
            Some(v) => v,
            None => {
                return None;
            },
        };
        let mut list: Vec<(TxHash, TxStatus)> = Vec::new();
        let mut i: usize = 0;
        while i < hashes.len()
            invariant
                i <= hashes@.len(),
                hashes@.no_duplicates(),
                list@.no_duplicates(),
                forall|e: (TxHash, TxStatus)| #[trigger]
                    list@.contains(e) <==> hashes@.take(i as int).contains(e.0)
                        && self@.status.contains_key(e.0) && self@.status[e.0].status == e.1,
            decreases hashes@.len() - i,
        {
            proof {
                lemma_take_step(hashes@, i as int);
                lemma_take_excludes(hashes@, i as int);
            }
            let hash = hashes[i];
            if let Some(e) = status_get(&self.status, &hash) {
                proof {
                    lemma_push_contains(list@, (hash, e.status));
                    lemma_push_distinct(list@, (hash, e.status));
                }
                list.push((hash, e.status));
            }
            i = i + 1;
        }
        proof {
            assert(hashes@.take(i as int) =~= hashes@);
            assert forall|h: TxHash| hashes@.contains(h) <==> self@.hashes[*address].contains(h) by {
            }
        }
        Some(list)
    }

    /// Watches a transaction; none if it cannot be read.
    pub fn add_tx(
        &mut self,
        eviction_queue: &mut EthTxPoolBridgeEvictionQueue,
        now: u64,
        tx: &TxEnvelope,
    ) -> (r: Option<(bool, TxStatusReceiver)>)
        requires
            old(self).wf(),
        ensures
            final(self).wf(),
            match tx_hash_of(tx@) {
                None => {
                    &&& r is None
                    &&& final(self)@ == old(self)@
                    &&& final(eviction_queue)@ == old(eviction_queue)@
                },
                Some(hash) => {
                    &&& r is Some
                    &&& (r->0).1.hash == hash
                    &&& (r->0).0 == !(old(self)@.status.contains_key(hash) && old(
                        self,
                    )@.status[hash].status != TxStatus::Unknown)
                    &&& if old(self)@.status.contains_key(hash) {
                        final(self)@ == old(self)@ && final(eviction_queue)@ == old(
                            eviction_queue,
                        )@
                    } else {
                        &&& final(self)@ == old(self)@.watched(hash, TxStatus::Unknown)
                        &&& final(eviction_queue)@ == old(eviction_queue)@.push((now, hash))
                    }
                    &&& final(self)@.status[hash].channel == (r->0).1.channel
                    &&& (r->0).1.seen == if (r->0).0 {
                        Some(final(self)@.status[hash].version)
                    } else {
                        None
                    }
                },
            },
    {
        match tx_hash(&tx.rlp) {
            Some(hash) => Some(self.add_hash(eviction_queue, now, hash)),
            None => None,
        }
    }

    /// Takes a transaction that a user sent: it is watched, and sent on to the pool unless it is
    /// known already. None if it cannot be read.
    pub fn accept_tx(
        &mut self,
        eviction_queue: &mut EthTxPoolBridgeEvictionQueue,
        now: u64,
        tx: TxEnvelope,
    ) -> (r: Option<(TxStatusReceiver, Option<EthTxPoolIpcTx>)>)
        requires
            old(self).wf(),
        ensures
            final(self).wf(),
            match tx_hash_of(tx@) {
                None => {
                    &&& r is None
                    &&& final(self)@ == old(self)@
                    &&& final(eviction_queue)@ == old(eviction_queue)@
                },
                Some(hash) => {
                    &&& r is Some
                    &&& (r->0).0.hash == hash
                    &&& if old(self)@.status.contains_key(hash) {
                        final(self)@ == old(self)@ && final(eviction_queue)@ == old(
                            eviction_queue,
                        )@
                    } else {
                        &&& final(self)@ == old(self)@.watched(hash, TxStatus::Unknown)
                        &&& final(eviction_queue)@ == old(eviction_queue)@.push((now, hash))
                    }
                    &&& final(self)@.status[hash].channel == (r->0).0.channel
                    &&& match (r->0).1 {
                        Some(sent) => {
                            &&& final(self)@.status[hash].status == TxStatus::Unknown
                            &&& (r->0).0.seen == Some(final(self)@.status[hash].version)
                            &&& sent.tx == tx
                            &&& sent.priority == U256::spec_from_u64(DEFAULT_TX_PRIORITY_VALUE)
                            &&& sent.extra_data@.len() == 0
                        },
                        None => {
                            &&& final(self)@.status[hash].status != TxStatus::Unknown
                            &&& (r->0).0.seen is None
                        },
                    }
                },
            },
    {
        match self.add_tx(eviction_queue, now, &tx) {
            Some((is_new, receiver)) => {
                if is_new {
                    let sent = EthTxPoolIpcTx::new_with_default_priority(tx, Vec::new());
                    Some((receiver, Some(sent)))
                } else {
                    Some((receiver, None))
                }
            },
            None => None,
        }
    }

    /// What users may look at.
    pub fn create_view(&self) -> (r: EthTxPoolBridgeStateView<'_>)
        ensures
            *r.state == *self,
    {
        EthTxPoolBridgeStateView { state: self }
    }

    /// What a watcher sees: the status of its transaction; none if it is not watched any more.
    pub fn borrow_status(&self, receiver: &TxStatusReceiver) -> (r: Option<TxStatus>)
        ensures
            r == if self@.status.contains_key(receiver.hash) && self@.status[receiver.hash].channel
                == receiver.channel {
                Some(self@.status[receiver.hash].status)
            } else {
                None
            },
    {
        match status_get(&self.status, &receiver.hash) {
            Some(e) => if e.channel == receiver.channel {
                Some(e.status)
            } else {
                None
            },
            None => None,
        }
    }

    /// Whether a watcher was told of a status that it did not see yet; none if its transaction is
    /// not watched any more.
    pub fn has_changed(&self, receiver: &TxStatusReceiver) -> (r: Option<bool>)
        ensures
            r == if self@.status.contains_key(receiver.hash) && self@.status[receiver.hash].channel
                == receiver.channel {
                Some(receiver.seen != Some(self@.status[receiver.hash].version))
            } else {
                None
            },
    {
        match status_get(&self.status, &receiver.hash) {
            Some(e) => if e.channel == receiver.channel {
                match receiver.seen {
                    Some(v) => Some(v != e.version),
                    None => Some(true),
                }
            } else {
                None
            },
            None => None,
        }
    }
}

/// What users may look at.
pub struct EthTxPoolBridgeStateView<'a> {
    pub state: &'a EthTxPoolBridgeState,
}

impl<'a> EthTxPoolBridgeStateView<'a> {
    /// The status of a transaction, if it is watched.
    pub fn get_status_by_hash(&self, hash: &TxHash) -> (r: Option<TxStatus>)
        ensures
            r == if self.state@.status.contains_key(*hash) {
                Some(self.state@.status[*hash].status)
            } else {
                None
            },
    {
        self.state.get_status_by_hash(hash)
    }

    /// The status of every transaction of a sender that is watched, in some order; none if the
    /// sender is not known.
    pub fn get_status_by_address(&self, address: &Address) -> (r: Option<Vec<(TxHash, TxStatus)>>)
        requires
            self.state.wf(),
        ensures
            match r {
                None => !self.state@.hashes.contains_key(*address),
                Some(list) => {
                    &&& self.state@.hashes.contains_key(*address)
                    &&& list@.no_duplicates()
                    &&& forall|e: (TxHash, TxStatus)| #[trigger]
                        list@.contains(e) <==> self.state@.hashes[*address].contains(e.0)
                            && self.state@.status.contains_key(e.0)
                            && self.state@.status[e.0].status == e.1
                },
            },
    {
        self.state.get_status_by_address(address)
    }
}

/// Whether what is known of transactions fits together: exactly the transactions in the queue are
/// watched, each once, and the sender of a transaction that is watched knows it.
pub open spec fn is_consistent(v: BridgeView, queue: Seq<(u64, TxHash)>) -> bool {
    &&& queued(queue).no_duplicates()
    &&& forall|h: TxHash| #[trigger] queued(queue).contains(h) <==> v.status.contains_key(h)
    &&& forall|h: TxHash| #[trigger] v.senders.contains_key(h) ==> v.status.contains_key(h)
    &&& forall|h: TxHash| #[trigger]
        v.senders.contains_key(h) ==> v.hashes.contains_key(v.senders[h])
            && v.hashes[v.senders[h]].contains(h)
}

/// Watching one more transaction keeps what is known consistent.
pub proof fn lemma_watching_is_consistent(
    v: BridgeView,
    queue: Seq<(u64, TxHash)>,
    hash: TxHash,
    status: TxStatus,
    now: u64,
)
    requires
        is_consistent(v, queue),
        !v.status.contains_key(hash),
    ensures
        is_consistent(v.watched(hash, status), queue.push((now, hash))),
{
    let q = queue.push((now, hash));
    assert(queued(q) =~= queued(queue).push(hash));
    lemma_push_contains(queued(queue), hash);
    lemma_push_distinct(queued(queue), hash);
}

/// Events keep what is known consistent.
pub proof fn lemma_events_are_consistent(
    v: BridgeView,
    queue: Seq<(u64, TxHash)>,
    events: Seq<EthTxPoolEvent>,
    now: u64,
)
    requires
        is_consistent(v, queue),
    ensures
        is_consistent(
            after_events(v, queue, events, now).0,
            after_events(v, queue, events, now).1,
        ),
    decreases events.len(),
{
    if events.len() > 0 {
        lemma_events_are_consistent(v, queue, events.drop_last(), now);
        let (w, q) = after_events(v, queue, events.drop_last(), now);
        let event = events.last();
        let status = status_of_event(event.action);
        if !w.status.contains_key(event.tx_hash) {
            lemma_watching_is_consistent(w, q, event.tx_hash, status, now);
        }
    }
}

/// A snapshot makes what is known consistent again.
pub proof fn lemma_snapshot_is_consistent(
    v: BridgeView,
    queue: Seq<(u64, TxHash)>,
    txs: Set<TxHash>,
    w: BridgeView,
    anew: Seq<(u64, TxHash)>,
    now: u64,
)
    requires
        is_consistent(v, queue),
        follows_snapshot(v, txs, w),
        starts_anew(anew, txs, now),
    ensures
        is_consistent(w, anew),
{
    assert forall|h: TxHash| #[trigger] queued(anew).contains(h) <==> w.status.contains_key(h) by {
        assert(w.status.dom().contains(h) <==> txs.contains(h));
    }
    assert forall|h: TxHash| #[trigger] w.senders.contains_key(h) implies w.status.contains_key(h)
        && w.hashes.contains_key(w.senders[h]) && w.hashes[w.senders[h]].contains(h) by {
        assert(v.senders.contains_key(h));
        assert(v.status.contains_key(h));
        assert(txs.contains(h));
        assert(w.status.dom().contains(h));
        assert(w.hashes.dom().contains(v.senders[h]));
        assert(w.hashes[v.senders[h]].contains(h));
    }
}

/// No two transactions that a snapshot makes watched for the first time share a channel, unless it
/// holds more of them than there are channels.
pub proof fn lemma_new_channels_differ(
    v: BridgeView,
    txs: Set<TxHash>,
    w: BridgeView,
    a: TxHash,
    b: TxHash,
)
    requires
        follows_snapshot(v, txs, w),
        txs.finite(),
        txs.len() <= 0x1_0000_0000_0000_0000,
        txs.contains(a) && !v.status.contains_key(a),
        txs.contains(b) && !v.status.contains_key(b),
        a != b,
    ensures
        w.status[a].channel != w.status[b].channel,
{
    let fresh = choose|fresh: Seq<TxHash>| #[trigger] opens_channels(v, txs, fresh, w);
    fresh.unique_seq_to_set();
    assert forall|h: TxHash| #[trigger] fresh.to_set().contains(h) implies txs.contains(h) by {
        assert(fresh.contains(h));
    }
    vstd::set_lib::lemma_len_subset(fresh.to_set(), txs);
    assert(fresh.contains(a) && fresh.contains(b));
    let i = choose|i: int| 0 <= i < fresh.len() && fresh[i] == a;
    let j = choose|j: int| 0 <= j < fresh.len() && fresh[j] == b;
    assert(w.status[fresh[i]].channel == number_after(v.next_channel, i as nat));
    assert(w.status[fresh[j]].channel == number_after(v.next_channel, j as nat));
}

proof fn lemma_forgetting_is_consistent(v: BridgeView, queue: Seq<(u64, TxHash)>)
    requires
        is_consistent(v, queue),
        queue.len() > 0,
    ensures
        is_consistent(v.forgotten(queue[0].1), queue.drop_first()),
{
    let hash = queue[0].1;
    let all = queued(queue);
    let rest = queued(queue.drop_first());
    assert(rest =~= all.drop_first());
    assert(all[0] == hash);
    assert forall|h: TxHash| #[trigger] rest.contains(h) <==> all.contains(h) && h != hash by {
        if rest.contains(h) {
            let i = choose|i: int| 0 <= i < rest.len() && rest[i] == h;
            assert(all[i + 1] == h);
        }
        if all.contains(h) && h != hash {
            let i = choose|i: int| 0 <= i < all.len() && all[i] == h;
            assert(rest[i - 1] == h);
        }
    }
    assert(all.contains(hash));
    assert(v.status.contains_key(hash));
    assert forall|i: int, j: int| 0 <= i < rest.len() && 0 <= j < rest.len() && i != j implies rest[i]
        != rest[j] by {
        assert(all[i + 1] != all[j + 1]);
    }
}

/// Forgetting the transactions that are watched for too long keeps what is known consistent.
pub proof fn lemma_cleanup_is_consistent(v: BridgeView, queue: Seq<(u64, TxHash)>, now: u64)
    requires
        is_consistent(v, queue),
    ensures
        is_consistent(
            evicted(v, queue, now).0.without_idle_senders(),
            evicted(v, queue, now).1,
        ),
    decreases queue.len(),
{
    if queue.len() > 0 && is_expired(queue[0].0, now) {
        lemma_forgetting_is_consistent(v, queue);
        lemma_cleanup_is_consistent(v.forgotten(queue[0].1), queue.drop_first(), now);
    } else {
        let w = v.without_idle_senders();
        assert forall|h: TxHash| #[trigger] w.senders.contains_key(h) implies w.hashes.contains_key(
            w.senders[h],
        ) && w.hashes[w.senders[h]].contains(h) by {
            assert(v.hashes[v.senders[h]].contains(h));
        }
    }
}

/// Where transactions are queued in the order of time, a cleanup forgets exactly those that are
/// watched for too long.
pub proof fn lemma_cleanup_forgets_what_expired(
    v: BridgeView,
    queue: Seq<(u64, TxHash)>,
    now: u64,
    i: int,
)
    requires
        is_consistent(v, queue),
        forall|i: int, j: int|
            0 <= i <= j < queue.len() ==> (#[trigger] queue[i]).0 <= (#[trigger] queue[j]).0,
        0 <= i < queue.len(),
    ensures
        evicted(v, queue, now).0.status.contains_key(queue[i].1) <==> !is_expired(
            queue[i].0,
            now,
        ),
    decreases queue.len(),
{
    assert(queued(queue)[i] == queue[i].1);
    assert(queued(queue).contains(queue[i].1));
    assert(queue[0].0 <= queue[i].0);
    if is_expired(queue[0].0, now) {
        lemma_forgetting_is_consistent(v, queue);
        let w = v.forgotten(queue[0].1);
        let rest = queue.drop_first();
        assert forall|i: int, j: int| 0 <= i <= j < rest.len() implies (#[trigger] rest[i]).0
            <= (#[trigger] rest[j]).0 by {
            assert(queue[i + 1].0 <= queue[j + 1].0);
        }
        if i == 0 {
            assert(!w.status.contains_key(queue[0].1));
            lemma_evicted_stay_forgotten(w, rest, now, queue[0].1);
        } else {
            lemma_cleanup_forgets_what_expired(w, rest, now, i - 1);
            assert(rest[i - 1] == queue[i]);
        }
    }
}

proof fn lemma_evicted_stay_forgotten(
    v: BridgeView,
    queue: Seq<(u64, TxHash)>,
    now: u64,
    hash: TxHash,
)
    requires
        !v.status.contains_key(hash),
    ensures
        !evicted(v, queue, now).0.status.contains_key(hash),
    decreases queue.len(),
{
    if queue.len() > 0 && is_expired(queue[0].0, now) {
        lemma_evicted_stay_forgotten(v.forgotten(queue[0].1), queue.drop_first(), now, hash);
    }
}

/// After some events, a transaction has the status that the last event of it gives, whatever it was
/// before: it is in the pool, committed, or dropped or evicted with the reason of the event.
pub proof fn lemma_last_event_gives_the_status(
    v: BridgeView,
    queue: Seq<(u64, TxHash)>,
    events: Seq<EthTxPoolEvent>,
    now: u64,
    i: int,
)
    requires
        0 <= i < events.len(),
        forall|j: int| i < j < events.len() ==> (#[trigger] events[j]).tx_hash != events[i].tx_hash,
    ensures
        ({
            let w = after_events(v, queue, events, now).0;
            let hash = events[i].tx_hash;
            &&& w.status.contains_key(hash)
            &&& match events[i].action {
                EthTxPoolEventType::Insert { .. } => w.status[hash].status is Pooled,
                EthTxPoolEventType::Commit => w.status[hash].status is Committed,
                EthTxPoolEventType::Drop { reason } => w.status[hash].status == TxStatus::Dropped {
                    reason,
                },
                EthTxPoolEventType::Evict { reason } => w.status[hash].status
                    == TxStatus::Evicted { reason },
            }
        }),
    decreases events.len(),
{
    if i < events.len() - 1 {
        let before = events.drop_last();
        assert(before[i] == events[i]);
        assert forall|j: int| i < j < before.len() implies (#[trigger] before[j]).tx_hash
            != before[i].tx_hash by {
            assert(events[j].tx_hash != events[i].tx_hash);
        }
        lemma_last_event_gives_the_status(v, queue, before, now, i);
        assert(events[events.len() - 1].tx_hash != events[i].tx_hash);
    }
}

/// The status of the transaction of the last event is the one that this event gives.
pub proof fn lemma_event_replaces_the_status(
    v: BridgeView,
    queue: Seq<(u64, TxHash)>,
    events: Seq<EthTxPoolEvent>,
    now: u64,
)
    requires
        events.len() > 0,
    ensures
        after_events(v, queue, events, now).0.status.contains_key(events.last().tx_hash),
        after_events(v, queue, events, now).0.status[events.last().tx_hash].status
            == status_of_event(events.last().action),
{
}

/// What an event is called is what becomes of its transaction.
pub proof fn lemma_status_says_what_happened(action: EthTxPoolEventType)
    ensures
        status_of_event(action) is Pooled <==> action is Insert,
        status_of_event(action) is Committed <==> action is Commit,
        action is Drop ==> status_of_event(action) == (TxStatus::Dropped {
            reason: action->Drop_reason,
        }),
        action is Evict ==> status_of_event(action) == (TxStatus::Evicted {
            reason: action->Evict_reason,
        }),
{
}

/// Events leave the transactions alone that none of them is about: their status, their watchers and
/// their sender stay.
pub proof fn lemma_events_leave_others_alone(
    v: BridgeView,
    queue: Seq<(u64, TxHash)>,
    events: Seq<EthTxPoolEvent>,
    now: u64,
    hash: TxHash,
)
    requires
        forall|j: int| 0 <= j < events.len() ==> (#[trigger] events[j]).tx_hash != hash,
    ensures
        ({
            let w = after_events(v, queue, events, now).0;
            &&& w.status.contains_key(hash) == v.status.contains_key(hash)
            &&& v.status.contains_key(hash) ==> w.status[hash] == v.status[hash]
            &&& w.senders.contains_key(hash) == v.senders.contains_key(hash)
            &&& v.senders.contains_key(hash) ==> w.senders[hash] == v.senders[hash]
            &&& forall|a: Address|
                v.hashes.contains_key(a) ==> (#[trigger] w.hashes[a].contains(hash)
                    == v.hashes[a].contains(hash))
        }),
        forall|a: Address| #[trigger]
            v.hashes.contains_key(a) ==> after_events(v, queue, events, now).0.hashes.contains_key(a),
    decreases events.len(),
{
    if events.len() > 0 {
        let before = events.drop_last();
        assert forall|j: int| 0 <= j < before.len() implies (#[trigger] before[j]).tx_hash != hash by {
            assert(events[j].tx_hash != hash);
        }
        lemma_events_leave_others_alone(v, queue, before, now, hash);
        assert(events[events.len() - 1].tx_hash != hash);
        let u = after_events(v, queue, before, now).0;
        let w = after_events(v, queue, events, now).0;
        assert forall|a: Address| v.hashes.contains_key(a) implies (#[trigger] w.hashes[a].contains(hash)
            == v.hashes[a].contains(hash)) by {
            assert(u.hashes.contains_key(a));
            assert(u.hashes[a].contains(hash) == v.hashes[a].contains(hash));
        }
    }
}

/// An event tells those who watch its transaction: they stay on their channel and find a version that
/// they did not see. A transaction that nobody watched gets the channel that is next.
pub proof fn lemma_event_tells_watchers(
    v: BridgeView,
    queue: Seq<(u64, TxHash)>,
    event: EthTxPoolEvent,
    now: u64,
)
    ensures
        ({
            let (w, q) = after_event(v, queue, event, now);
            let e = w.status[event.tx_hash];
            if v.status.contains_key(event.tx_hash) {
                let d = v.status[event.tx_hash];
                &&& e.channel == d.channel
                &&& e.version != d.version
                &&& d.version < u64::MAX ==> e.version == d.version + 1
                &&& w.next_channel == v.next_channel
                &&& q == queue
            } else {
                &&& e.channel == v.next_channel
                &&& e.version == 0
                &&& w.next_channel != v.next_channel
                &&& v.next_channel < u64::MAX ==> w.next_channel == v.next_channel + 1
                &&& q.len() == queue.len() + 1
                &&& q.drop_last() == queue
                &&& q.last() == (now, event.tx_hash)
            }
        }),
{
    let (w, q) = after_event(v, queue, event, now);
    if !v.status.contains_key(event.tx_hash) {
        assert(q.drop_last() =~= queue);
    }
}

/// A transaction that was inserted into the pool is known to be one of its sender's; other events say
/// nothing of senders.
pub proof fn lemma_inserted_transaction_has_its_sender(
    v: BridgeView,
    queue: Seq<(u64, TxHash)>,
    event: EthTxPoolEvent,
    now: u64,
)
    ensures
        ({
            let w = after_event(v, queue, event, now).0;
            match event.action {
                EthTxPoolEventType::Insert { address, .. } => {
                    &&& w.senders.contains_key(event.tx_hash)
                    &&& w.senders[event.tx_hash] == address
                    &&& w.hashes.contains_key(address)
                    &&& w.hashes[address].contains(event.tx_hash)
                    &&& forall|h: TxHash| #[trigger]
                        w.hashes[address].contains(h) ==> h == event.tx_hash || (
                        v.hashes.contains_key(address) && v.hashes[address].contains(h))
                    &&& forall|h: TxHash|
                        v.hashes.contains_key(address) && v.hashes[address].contains(h)
                            ==> #[trigger] w.hashes[address].contains(h)
                    &&& forall|a: Address|
                        a != address ==> (#[trigger] w.hashes.contains_key(a)
                            == v.hashes.contains_key(a)) && (v.hashes.contains_key(a) ==> w.hashes[a]
                            == v.hashes[a])
                },
                _ => w.senders == v.senders && w.hashes == v.hashes,
            }
        }),
{
}

/// A transaction that is forgotten leaves nothing behind, and takes nothing else with it.
pub proof fn lemma_forgetting_takes_one(v: BridgeView, hash: TxHash)
    requires
        v.status.contains_key(hash),
    ensures
        ({
            let w = v.forgotten(hash);
            &&& !w.status.contains_key(hash)
            &&& !w.senders.contains_key(hash)
            &&& v.senders.contains_key(hash) && v.hashes.contains_key(v.senders[hash])
                ==> !w.hashes[v.senders[hash]].contains(hash)
            &&& w.next_channel == v.next_channel
            &&& w.hashes.dom() == v.hashes.dom()
            &&& forall|h: TxHash|
                h != hash ==> {
                    &&& #[trigger] w.status.contains_key(h) == v.status.contains_key(h)
                    &&& v.status.contains_key(h) ==> w.status[h] == v.status[h]
                }
            &&& forall|h: TxHash|
                h != hash ==> {
                    &&& #[trigger] w.senders.contains_key(h) == v.senders.contains_key(h)
                    &&& v.senders.contains_key(h) ==> w.senders[h] == v.senders[h]
                }
            &&& forall|a: Address, h: TxHash|
                h != hash && v.hashes.contains_key(a) ==> #[trigger] w.hashes[a].contains(h)
                    == v.hashes[a].contains(h)
        }),
{
    let w = v.forgotten(hash);
    assert(w.hashes.dom() =~= v.hashes.dom());
}

/// Only senders without a transaction are forgotten for being idle, and all of them are.
pub proof fn lemma_idle_senders_have_no_transaction(v: BridgeView, a: Address)
    requires
        v.hashes.contains_key(a),
    ensures
        v.without_idle_senders().hashes.contains_key(a) <==> exists|h: TxHash| #[trigger]
            v.hashes[a].contains(h),
        v.without_idle_senders().hashes.contains_key(a) ==> v.without_idle_senders().hashes[a]
            == v.hashes[a],
        v.without_idle_senders().status == v.status,
        v.without_idle_senders().senders == v.senders,
        v.without_idle_senders().next_channel == v.next_channel,
{
    if forall|h: TxHash| !v.hashes[a].contains(h) {
        assert(v.hashes[a] =~= Set::<TxHash>::empty());
    }
}

/// A transaction is watched for 15 minutes, and no longer.
pub proof fn lemma_transactions_expire_after_15_minutes(since: u64, now: u64)
    ensures
        is_expired(since, now) <==> now >= since + 15 * 60 * 1_000_000_000,
{
}

/// A cleanup takes transactions from the front of the queue, all of them watched for too long, and
/// leaves the others as they are.
pub proof fn lemma_cleanup_leaves_the_others(
    v: BridgeView,
    queue: Seq<(u64, TxHash)>,
    now: u64,
    hash: TxHash,
)
    requires
        is_consistent(v, queue),
    ensures
        ({
            let (w, rest) = evicted(v, queue, now);
            &&& rest.len() <= queue.len()
            &&& rest == queue.skip(queue.len() - rest.len())
            &&& forall|i: int|
                0 <= i < queue.len() - rest.len() ==> is_expired((#[trigger] queue[i]).0, now)
            &&& rest.len() > 0 ==> !is_expired(rest[0].0, now)
            &&& w.status.contains_key(hash) ==> v.status.contains_key(hash) && w.status[hash]
                == v.status[hash]
            &&& w.next_channel == v.next_channel
        }),
    decreases queue.len(),
{
    if queue.len() > 0 && is_expired(queue[0].0, now) {
        lemma_forgetting_is_consistent(v, queue);
        let next = queue.drop_first();
        lemma_cleanup_leaves_the_others(v.forgotten(queue[0].1), next, now, hash);
        let rest = evicted(v, queue, now).1;
        assert(queue.skip(queue.len() - rest.len()) =~= next.skip(next.len() - rest.len()));
        assert forall|i: int| 0 <= i < queue.len() - rest.len() implies is_expired(
            (#[trigger] queue[i]).0,
            now,
        ) by {
            if i > 0 {
                assert(next[i - 1] == queue[i]);
            }
        }
    } else {
        assert(queue.skip(0) =~= queue);
    }
}

/// After a snapshot, a transaction is watched exactly if the pool holds it, and is then in the pool.
/// Those who watched it before stay on their channel and are not told.
pub proof fn lemma_snapshot_is_the_pool(
    v: BridgeView,
    txs: Set<TxHash>,
    w: BridgeView,
    hash: TxHash,
)
    requires
        follows_snapshot(v, txs, w),
    ensures
        w.status.contains_key(hash) <==> txs.contains(hash),
        txs.contains(hash) ==> w.status[hash].status is Pooled,
        txs.contains(hash) && v.status.contains_key(hash) ==> w.status[hash].channel
            == v.status[hash].channel && w.status[hash].version == v.status[hash].version,
        txs.contains(hash) && !v.status.contains_key(hash) ==> w.status[hash].version == 0,
        txs.contains(hash) && v.senders.contains_key(hash) ==> w.senders.contains_key(hash)
            && w.senders[hash] == v.senders[hash],
        v.status.contains_key(hash) && !txs.contains(hash) ==> !w.senders.contains_key(hash),
{
    assert(w.status.dom().contains(hash) <==> txs.contains(hash));
    assert(w.senders.contains_key(hash) <==> v.senders.contains_key(hash) && !is_gone(v, txs, hash));
}

/// Channels and versions count up by one, and start again from zero after the last number.
pub proof fn lemma_numbers_count_up(n: u64, k: nat)
    ensures
        n < u64::MAX ==> next_number(n) == n + 1,
        n == u64::MAX ==> next_number(n) == 0,
        number_after(n, 0) == n,
        number_after(n, k + 1) == next_number(number_after(n, k)),
{
}

/// A transaction that a user sent and that is new is watched from now on, with nothing known of it;
/// what is known of the others stays.
pub proof fn lemma_new_transaction_is_unknown(v: BridgeView, hash: TxHash)
    requires
        !v.status.contains_key(hash),
    ensures
        ({
            let w = v.watched(hash, TxStatus::Unknown);
            &&& w.status.contains_key(hash)
            &&& w.status[hash].status is Unknown
            &&& w.status[hash].channel == v.next_channel
            &&& w.status[hash].version == 0
            &&& w.next_channel != v.next_channel
            &&& w.senders == v.senders
            &&& w.hashes == v.hashes
            &&& forall|h: TxHash|
                h != hash ==> {
                    &&& #[trigger] w.status.contains_key(h) == v.status.contains_key(h)
                    &&& v.status.contains_key(h) ==> w.status[h] == v.status[h]
                }
        }),
{
}

/// After a snapshot, every transaction that the pool holds waits once to be forgotten, from now on, and
/// no other one does.
pub proof fn lemma_snapshot_restarts_the_clock(
    queue: Seq<(u64, TxHash)>,
    txs: Set<TxHash>,
    now: u64,
    hash: TxHash,
)
    requires
        starts_anew(queue, txs, now),
    ensures
        txs.contains(hash) <==> exists|i: int|
            0 <= i < queue.len() && #[trigger] queue[i] == (now, hash),
        forall|i: int, j: int|
            0 <= i < j < queue.len() ==> (#[trigger] queue[i]).1 != (#[trigger] queue[j]).1,
        forall|i: int| 0 <= i < queue.len() ==> (#[trigger] queue[i]).0 == now,
{
    let all = queued(queue);
    assert(all.contains(hash) <==> txs.contains(hash));
    if txs.contains(hash) {
        let i = choose|i: int| 0 <= i < all.len() && all[i] == hash;
        assert(queue[i] == (now, hash));
    }
    if exists|i: int| 0 <= i < queue.len() && #[trigger] queue[i] == (now, hash) {
        let i = choose|i: int| 0 <= i < queue.len() && #[trigger] queue[i] == (now, hash);
        assert(all[i] == hash);
    }
    assert forall|i: int, j: int| 0 <= i < j < queue.len() implies (#[trigger] queue[i]).1 != (
    #[trigger] queue[j]).1 by {
        assert(all[i] != all[j]);
    }
}

/// A snapshot takes from senders the transactions that the pool does not hold any more, and no others.
pub proof fn lemma_snapshot_takes_from_senders_what_is_gone(
    v: BridgeView,
    txs: Set<TxHash>,
    w: BridgeView,
    a: Address,
    hash: TxHash,
)
    requires
        follows_snapshot(v, txs, w),
        v.hashes.contains_key(a),
    ensures
        w.hashes.contains_key(a),
        txs.contains(hash) || !v.status.contains_key(hash) ==> w.hashes[a].contains(hash)
            == v.hashes[a].contains(hash),
        v.status.contains_key(hash) && !txs.contains(hash) && v.senders.contains_key(hash)
            && v.senders[hash] == a ==> !w.hashes[a].contains(hash),
{
    assert(w.hashes.dom().contains(a));
    assert(w.hashes[a].contains(hash) <==> v.hashes[a].contains(hash) && !(is_gone(v, txs, hash)
        && v.senders.contains_key(hash) && v.senders[hash] == a));
}

} // verus!
