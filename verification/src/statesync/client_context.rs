//! A client's way to a target: what it has of each prefix, and when it is done.

use vstd::prelude::*;

use crate::header::{header_hash, BlockHeader, HeaderView};
use crate::keymap::KeyMap;
use crate::primitives::{Address, B256, INVALID_BLOCK_NUM};
use crate::seqs::{lemma_push_contains, lemma_push_distinct, lemma_take_excludes, lemma_take_step};
use crate::statesync::protocol::{
    account_bytes, answers, decoded_account, handle_upsert, header_view,
    lemma_account_replaces_earlier, lemma_account_round_trip, parsed, upserts_view, AccountDeltaView, ProtocolView, Received, SyncProtocolState, COMMIT_INTERVAL,
};
use crate::statesync::types::{SyncDone, SyncUpsertType, Upsert};
use crate::statesync::{
    ApplyOp, BatchView, StateSyncApplier, StateSyncApplierDb, StateSyncBatch, UpsertStatus,
};
use crate::types::EthAccount;
use crate::validation::compute_block_hash;

verus! {

/// How many prefixes the state is divided into.
pub const NUM_PREFIXES: usize = 256;

/// A client's session.
pub struct StateSyncClientContext<D: StateSyncApplierDb> {
    pub db: D,
    pub protocol: SyncProtocolState,
    /// For each prefix, the block up to which it is complete and the target when it became so.
    pub progress: Vec<(u64, u64)>,
    pub target: Option<BlockHeader>,
    /// The version that commits are written for.
    pub current: u64,
    /// Prefixes that have to be requested.
    pub pending_requests: Vec<u64>,
}

impl ProtocolView {
    /// What is left once everything received is committed.
    pub open spec fn committed(self) -> ProtocolView {
        ProtocolView {
            deltas: Map::empty(),
            code: Map::empty(),
            needs_commit: false,
            ..self
        }
    }

    /// No upsert waits.
    pub open spec fn unhurried(self) -> ProtocolView {
        ProtocolView { pending_retry: Seq::empty(), ..self }
    }

    /// No account is changed while storage of it is kept aside.
    pub open spec fn disjoint(self) -> bool {
        forall|a: Address| #[trigger]
            self.buffered.contains_key(a) ==> !self.deltas.contains_key(a)
    }

    /// What holds between upserts.
    pub open spec fn settled(self) -> bool {
        &&& self.headers.len() == 256
        &&& self.pending_retry.len() == 0
        &&& self.disjoint()
    }
}

/// The account that is written for an address, if one is.
pub open spec fn written_account(v: ProtocolView, a: Address) -> Option<Option<EthAccount>> {
    if !v.deltas.contains_key(a) {
        None
    } else {
        match v.deltas[a] {
            None => Some(None),
            Some(delta) => match delta.account {
                Some(acct) => Some(Some(acct)),
                None => None,
            },
        }
    }
}

/// Whether a slot is written, and with what.
pub open spec fn writes_slot(v: ProtocolView, a: Address, key: B256, value: B256) -> bool {
    &&& v.deltas.contains_key(a)
    &&& v.deltas[a] is Some
    &&& v.deltas[a]->0.storage.contains_key(key)
    &&& v.deltas[a]->0.storage[key] == value
}

/// Whether a batch holds exactly what was received: every change once, in some order.
pub open spec fn holds_received(b: BatchView, v: ProtocolView) -> bool {
    &&& b.accounts.no_duplicates()
    &&& forall|e: (Address, Option<EthAccount>)| #[trigger]
        b.accounts.contains(e) <==> written_account(v, e.0) == Some(e.1)
    &&& b.storage.no_duplicates()
    &&& forall|e: (Address, B256, B256)| #[trigger]
        b.storage.contains(e) <==> writes_slot(v, e.0, e.1, e.2)
    &&& b.code.no_duplicates()
    &&& forall|e: (B256, Seq<u8>)| #[trigger]
        b.code.contains(e) <==> v.code.contains_key(e.0) && v.code[e.0] == e.1
}

/// Whether one commit was written for `version`, of what `v` received, on the way from `db` to
/// `db_after`.
pub open spec fn one_commit<D: StateSyncApplierDb>(
    db: D,
    db_after: D,
    v: ProtocolView,
    version: u64,
) -> bool {
    exists|b: BatchView|
        #![trigger holds_received(b, v)]
        {
            &&& holds_received(b, v)
            &&& db.applies(ApplyOp::Batch { updates: b, version }, &db_after)
            &&& db_after.applied() == db.applied().push(ApplyOp::Batch { updates: b, version })
        }
}

/// Adds the slots of one account to a batch.
fn push_slots(
    out: &mut Vec<(Address, B256, B256)>,
    addr: Address,
    storage: &KeyMap<B256, B256>,
    Ghost(v): Ghost<ProtocolView>,
)
    requires
        v.deltas.contains_key(addr),
        v.deltas[addr] is Some,
        v.deltas[addr]->0.storage == storage@,
        old(out)@.no_duplicates(),
        forall|e: (Address, B256, B256)| #[trigger] old(out)@.contains(e) ==> e.0 != addr,
    ensures
        final(out)@.no_duplicates(),
        forall|e: (Address, B256, B256)| #[trigger]
            final(out)@.contains(e) <==> old(out)@.contains(e) || (e.0 == addr && writes_slot(
                v,
                e.0,
                e.1,
                e.2,
            )),
{
    let keys = storage.keys();
    let mut i: usize = 0;
    while i < keys.len()
        invariant
            i <= keys@.len(),
            keys@.no_duplicates(),
            keys@.to_set() == storage@.dom(),
            v.deltas.contains_key(addr),
            v.deltas[addr] is Some,
            v.deltas[addr]->0.storage == storage@,
            out@.no_duplicates(),
            forall|e: (Address, B256, B256)| #[trigger] old(out)@.contains(e) ==> e.0 != addr,
            forall|e: (Address, B256, B256)| #[trigger]
                out@.contains(e) <==> old(out)@.contains(e) || (e.0 == addr && keys@.take(
                    i as int,
                ).contains(e.1) && writes_slot(v, e.0, e.1, e.2)),
        decreases keys@.len() - i,
    {
        let key = keys[i];
        proof {
            assert(keys@.to_set().contains(key));
            lemma_take_step(keys@, i as int);
            lemma_take_excludes(keys@, i as int);
        }
        if let Some(value) = storage.get(&key) {
            let e = (addr, key, *value);
            proof {
                lemma_push_contains(out@, e);
                lemma_push_distinct(out@, e);
            }
            out.push(e);
        }
        i = i + 1;
    }
    proof {
        assert(keys@.take(i as int) =~= keys@);
        assert forall|e: (Address, B256, B256)| #[trigger] out@.contains(e) <==> old(out)@.contains(e)
            || (e.0 == addr && writes_slot(v, e.0, e.1, e.2)) by {
            assert(keys@.to_set().contains(e.1) <==> keys@.contains(e.1));
        }
    }
}

/// The code of a batch.
fn list_code(code: &mut KeyMap<B256, Vec<u8>>) -> (r: Vec<(B256, Vec<u8>)>)
    ensures
        final(code)@ == Map::<B256, Vec<u8>>::empty(),
        ({
            let listed = r@.map_values(|c: (B256, Vec<u8>)| (c.0, c.1@));
            &&& listed.no_duplicates()
            &&& forall|e: (B256, Seq<u8>)| #[trigger]
                listed.contains(e) <==> old(code)@.contains_key(e.0) && old(code)@[e.0]@ == e.1
        }),
{
    let ghost f = |c: (B256, Vec<u8>)| (c.0, c.1@);
    let mut r: Vec<(B256, Vec<u8>)> = Vec::new();
    let keys = code.keys();
    let mut i: usize = 0;
    assert(r@.map_values(f) =~= Seq::empty());
    while i < keys.len()
        invariant
            f == (|c: (B256, Vec<u8>)| (c.0, c.1@)),
            i <= keys@.len(),
            keys@.no_duplicates(),
            keys@.to_set() == old(code)@.dom(),
            r@.map_values(f).no_duplicates(),
            forall|h: B256| #[trigger]
                code@.contains_key(h) <==> old(code)@.contains_key(h) && !keys@.take(
                    i as int,
                ).contains(h),
            forall|h: B256| code@.contains_key(h) ==> #[trigger] code@[h] == old(code)@[h],
            forall|e: (B256, Seq<u8>)| #[trigger]
                r@.map_values(f).contains(e) <==> keys@.take(i as int).contains(e.0)
                    && old(code)@.contains_key(e.0) && old(code)@[e.0]@ == e.1,
        decreases keys@.len() - i,
    {
        let key = keys[i];
        proof {
            assert(keys@.to_set().contains(key));
            lemma_take_step(keys@, i as int);
            lemma_take_excludes(keys@, i as int);
        }
        if let Some(data) = code.remove(&key) {
            proof {
                let e = (key, data@);
                lemma_push_contains(r@.map_values(f), e);
                lemma_push_distinct(r@.map_values(f), e);
                assert(r@.push((key, data)).map_values(f) =~= r@.map_values(f).push(e));
            }
            r.push((key, data));
        }
        i = i + 1;
    }
    proof {
        assert(keys@.take(i as int) =~= keys@);
        assert forall|h: B256| keys@.contains(h) <==> old(code)@.contains_key(h) by {
            assert(keys@.to_set().contains(h) <==> keys@.contains(h));
        }
        assert(code@ =~= Map::<B256, Vec<u8>>::empty());
    }
    r
}

impl SyncProtocolState {
    /// Hands out everything that was received, to be committed.
    pub fn drain(&mut self) -> (r: StateSyncBatch)
        ensures
            holds_received(r@, old(self)@),
            final(self)@ == old(self)@.committed(),
    {
        let ghost v = self@;
        let mut accounts: Vec<(Address, Option<EthAccount>)> = Vec::new();
        let mut storage: Vec<(Address, B256, B256)> = Vec::new();
        let addrs = self.deltas.keys();
        let mut i: usize = 0;
        while i < addrs.len()
            invariant
                i <= addrs@.len(),
                v == self@,
                addrs@.no_duplicates(),
                addrs@.to_set() == self.deltas@.dom(),
                accounts@.no_duplicates(),
                storage@.no_duplicates(),
                forall|e: (Address, Option<EthAccount>)| #[trigger]
                    accounts@.contains(e) <==> addrs@.take(i as int).contains(e.0)
                        && written_account(v, e.0) == Some(e.1),
                forall|e: (Address, B256, B256)| #[trigger]
                    storage@.contains(e) <==> addrs@.take(i as int).contains(e.0) && writes_slot(
                        v,
                        e.0,
                        e.1,
                        e.2,
                    ),
            decreases addrs@.len() - i,
        {
            let addr = addrs[i];
            proof {
                assert(addrs@.to_set().contains(addr));
                lemma_take_step(addrs@, i as int);
                lemma_take_excludes(addrs@, i as int);
            }
            if let Some(delta_opt) = self.deltas.get(&addr) {
                let account = match delta_opt {
                    Some(delta) => match delta.account {
                        Some(acct) => Some(Some(acct)),
                        None => None,
                    },
                    None => Some(None),
                };
                assert(account == written_account(v, addr));
                if let Some(a) = account {
                    let e = (addr, a);
                    proof {
                        lemma_push_contains(accounts@, e);
                        lemma_push_distinct(accounts@, e);
                    }
                    accounts.push(e);
                }
                if let Some(delta) = delta_opt {
                    push_slots(&mut storage, addr, &delta.storage, Ghost(v));
                }
            }
            i = i + 1;
        }
        proof {
            assert(addrs@.take(i as int) =~= addrs@);
            assert forall|a: Address| addrs@.contains(a) <==> v.deltas.contains_key(a) by {
                assert(addrs@.to_set().contains(a) <==> addrs@.contains(a));
            }
        }
        self.deltas.clear();
        let code = list_code(&mut self.code);
        self.clear_commit_flag();
        assert(self@ =~= v.committed());
        StateSyncBatch { accounts, storage, code }
    }
}

/// Whether `to` is what `from` becomes when `retries` are taken one after the other, with what `db`
/// has of their accounts.
pub open spec fn retried<D: StateSyncApplierDb>(
    db: D,
    from: ProtocolView,
    retries: Seq<(SyncUpsertType, Seq<u8>)>,
    to: ProtocolView,
) -> bool
    decreases retries.len(),
{
    if retries.len() == 0 {
        to == from
    } else {
        let (kind, data) = retries.last();
        exists|mid: ProtocolView, in_db: Option<EthAccount>, stored: B256|
            #![trigger mid.upsert(kind, data, in_db, stored)]
            {
                &&& retried(db, from, retries.drop_last(), mid)
                &&& answers(&db, kind, data, in_db, stored)
                &&& mid.upsert(kind, data, in_db, stored) == (UpsertStatus::Applied, to)
            }
    }
}

/// Whether `after` and `db_after` are what an upsert leaves that led to `p`: when it is time to
/// commit, what was received is written, the upserts that waited for it are taken, and what they
/// make due is written too.
pub open spec fn absorbed<D: StateSyncApplierDb>(
    p: ProtocolView,
    db: D,
    version: u64,
    after: ProtocolView,
    db_after: D,
) -> bool {
    if !p.should_commit() {
        after == p && db_after == db
    } else {
        exists|q: ProtocolView, mid: D|
            #![trigger retried(mid, p.committed().unhurried(), p.pending_retry, q)]
            {
                &&& one_commit(db, mid, p, version)
                &&& retried(mid, p.committed().unhurried(), p.pending_retry, q)
                &&& if q.should_commit() {
                    one_commit(mid, db_after, q, version) && after == q.committed()
                } else {
                    db_after == mid && after == q
                }
            }
    }
}

/// Whether an upsert, answered with `r`, leads from `before` to `after`: what the database has of
/// its account and of its slot decides, and an upsert that contradicts it changes nothing.
pub open spec fn upserted<D: StateSyncApplierDb>(
    before: ProtocolView,
    db: D,
    version: u64,
    upsert: (SyncUpsertType, Seq<u8>),
    after: ProtocolView,
    db_after: D,
    r: UpsertStatus,
) -> bool {
    exists|in_db: Option<EthAccount>, stored: B256|
        #![trigger before.upsert(upsert.0, upsert.1, in_db, stored)]
        {
            let (status, p) = before.upsert(upsert.0, upsert.1, in_db, stored);
            &&& answers(&db, upsert.0, upsert.1, in_db, stored)
            &&& r == status
            &&& if status is Contradiction {
                after == before && db_after == db
            } else {
                absorbed(p, db, version, after, db_after)
            }
        }
}

/// Whether all of some upserts are taken, one after the other, on the way from `before` to `after`.
pub open spec fn took<D: StateSyncApplierDb>(
    before: ProtocolView,
    db: D,
    version: u64,
    upserts: Seq<(SyncUpsertType, Seq<u8>)>,
    after: ProtocolView,
    db_after: D,
) -> bool
    decreases upserts.len(),
{
    if upserts.len() == 0 {
        after == before && db_after == db
    } else {
        exists|mid: ProtocolView, mid_db: D|
            #![trigger upserted(mid, mid_db, version, upserts.last(), after, db_after, UpsertStatus::Applied)]
            took(before, db, version, upserts.drop_last(), mid, mid_db) && upserted(
                mid,
                mid_db,
                version,
                upserts.last(),
                after,
                db_after,
                UpsertStatus::Applied,
            )
    }
}

/// Whether some upserts are taken up to one that is not.
pub open spec fn took_until<D: StateSyncApplierDb>(
    before: ProtocolView,
    db: D,
    version: u64,
    upserts: Seq<(SyncUpsertType, Seq<u8>)>,
    after: ProtocolView,
    db_after: D,
) -> bool {
    exists|i: int, mid: ProtocolView, mid_db: D, r: UpsertStatus|
        #![trigger took(before, db, version, upserts.take(i), mid, mid_db), upserted(mid, mid_db, version, upserts[i], after, db_after, r)]
        {
            &&& 0 <= i < upserts.len()
            &&& took(before, db, version, upserts.take(i), mid, mid_db)
            &&& upserted(mid, mid_db, version, upserts[i], after, db_after, r)
            &&& !(r is Applied)
        }
}

/// Whether some upserts are taken up to one that cannot be counted any more.
pub open spec fn took_until_full<D: StateSyncApplierDb>(
    before: ProtocolView,
    db: D,
    version: u64,
    upserts: Seq<(SyncUpsertType, Seq<u8>)>,
    after: ProtocolView,
    db_after: D,
) -> bool {
    &&& after.n_upserts >= u64::MAX - 1
    &&& exists|i: int|
        0 <= i < upserts.len() && took(
            before,
            db,
            version,
            #[trigger] upserts.take(i),
            after,
            db_after,
        )
}

/// Whether an upsert that waited is one of an account of which no storage is kept aside.
pub open spec fn can_retry(v: ProtocolView, upsert: (SyncUpsertType, Seq<u8>)) -> bool {
    parsed(upsert.0, upsert.1) matches Some(Received::Account(addr, _))
        && !v.buffered.contains_key(addr)
}

/// What an upsert can change of the upserts that wait, and of what is kept aside.
pub proof fn lemma_upsert_keeps_order(
    v: ProtocolView,
    upsert_type: SyncUpsertType,
    data: Seq<u8>,
    in_db: Option<EthAccount>,
    stored: B256,
)
    requires
        v.headers.len() == 256,
    ensures
        ({
            let w = v.upsert(upsert_type, data, in_db, stored).1;
            &&& w.headers.len() == v.headers.len()
            &&& w.n_upserts == v.n_upserts || w.n_upserts == (v.n_upserts + 1) as u64
            &&& w.pending_retry == v.pending_retry || (w.needs_commit && w.pending_retry.len()
                == v.pending_retry.len() + 1 && can_retry(w, w.pending_retry.last()))
            &&& v.deltas == Map::<Address, Option<AccountDeltaView>>::empty() ==> w.pending_retry
                == v.pending_retry
            &&& v.disjoint() ==> w.disjoint() || w.needs_commit
        }),
{
    let w = v.upsert(upsert_type, data, in_db, stored).1;
    if let Some(Received::Account(addr, Some(acct))) = parsed(upsert_type, data) {
        lemma_account_round_trip(addr, acct);
    }
    if v.disjoint() && !w.needs_commit {
        assert forall|a: Address| #[trigger] w.buffered.contains_key(a) implies !w.deltas.contains_key(
            a,
        ) by {
            assert(v.buffered.contains_key(a) ==> !v.deltas.contains_key(a));
        }
    }
}

/// An account that is deleted and created again starts anew: the deletion is written first, and
/// what is left to be written is the new account, with nothing of its old storage. (Where the count
/// of upserts makes a commit due in between, the new account is written too.)
pub proof fn lemma_account_created_again_starts_empty<D: StateSyncApplierDb>(
    before: ProtocolView,
    db: D,
    version: u64,
    addr: Address,
    acct: EthAccount,
    data: Seq<u8>,
    after: ProtocolView,
    db_after: D,
    r: UpsertStatus,
)
    requires
        before.settled(),
        before.deltas.contains_key(addr),
        before.deltas[addr] is None,
        decoded_account(data) == Some((addr, acct)),
        data.len() >= 92,
        before.n_upserts < u64::MAX - 1,
        (before.n_upserts + 1) % COMMIT_INTERVAL as int != 0,
        (before.n_upserts + 2) % COMMIT_INTERVAL as int != 0,
        upserted(before, db, version, (SyncUpsertType::Account, data), after, db_after, r),
    ensures
        r is Applied,
        exists|p: ProtocolView| #[trigger]
            one_commit(db, db_after, p, version) && p.deltas == before.deltas && written_account(
                p,
                addr,
            ) == Some(None::<EthAccount>),
        after.deltas == Map::<Address, Option<AccountDeltaView>>::empty().insert(
            addr,
            Some(AccountDeltaView { account: Some(acct), storage: Map::empty() }),
        ),
        after.buffered == before.buffered,
        after.pending_retry.len() == 0,
        !after.needs_commit,
{
    let kind = SyncUpsertType::Account;
    let (in_db, stored) = choose|in_db: Option<EthAccount>, stored: B256|
        #![trigger before.upsert(kind, data, in_db, stored)]
        {
            let (status, p) = before.upsert(kind, data, in_db, stored);
            &&& r == status
            &&& if status is Contradiction {
                after == before && db_after == db
            } else {
                absorbed(p, db, version, after, db_after)
            }
        };
    let p = before.upsert(kind, data, in_db, stored).1;
    assert(!before.buffered.contains_key(addr));
    let retry = (kind, account_bytes(addr, acct));
    assert(p.pending_retry =~= seq![retry]);
    let (q, mid) = choose|q: ProtocolView, mid: D|
        #![trigger retried(mid, p.committed().unhurried(), p.pending_retry, q)]
        {
            &&& one_commit(db, mid, p, version)
            &&& retried(mid, p.committed().unhurried(), p.pending_retry, q)
            &&& if q.should_commit() {
                one_commit(mid, db_after, q, version) && after == q.committed()
            } else {
                db_after == mid && after == q
            }
        };
    let from = p.committed().unhurried();
    let (start, in_db2, stored2) = choose|start: ProtocolView, in_db: Option<EthAccount>, stored: B256|
        #![trigger start.upsert(retry.0, retry.1, in_db, stored)]
        retried(mid, from, p.pending_retry.drop_last(), start) && start.upsert(
            retry.0,
            retry.1,
            in_db,
            stored,
        ) == (UpsertStatus::Applied, q);
    assert(p.pending_retry.drop_last().len() == 0);
    assert(start == from);
    lemma_account_round_trip(addr, acct);
    assert(parsed(retry.0, retry.1) == Some(Received::Account(addr, Some(acct))));
}

/// The prefixes that have to be requested when all are.
pub open spec fn all_prefixes() -> Seq<u64> {
    Seq::new(256, |i: int| i as u64)
}

/// The number of the target; `INVALID_BLOCK_NUM` if there is none.
pub open spec fn target_number(target: Option<BlockHeader>) -> u64 {
    match target {
        Some(t) => t.number,
        None => INVALID_BLOCK_NUM,
    }
}

/// Whether every prefix is complete up to the target.
pub open spec fn at_target(progress: Seq<(u64, u64)>, target: Option<BlockHeader>) -> bool {
    &&& target_number(target) != INVALID_BLOCK_NUM
    &&& forall|i: int| 0 <= i < progress.len() ==> (#[trigger] progress[i]).0 == target->0.number
}

/// Whether the headers that were received, going back from block `number`, are each the parent of
/// the one before, for at most `left` headers and as far as there are headers.
pub open spec fn headers_linked(
    headers: Seq<Option<HeaderView>>,
    number: u64,
    parent_hash: B256,
    left: nat,
) -> bool
    decreases left,
{
    if left == 0 || number == 0 {
        true
    } else {
        match headers[(number - 1) as int % 256] {
            Some(h) => header_hash(h) == parent_hash && headers_linked(
                headers,
                (number - 1) as u64,
                h.parent_hash,
                (left - 1) as nat,
            ),
            None => true,
        }
    }
}

/// Whether `after` is what a session becomes with a new target: every prefix has to be requested,
/// unless the target is the block that the database is complete up to.
pub open spec fn targeted<D: StateSyncApplierDb>(
    before: StateSyncClientContext<D>,
    target: HeaderView,
    after: StateSyncClientContext<D>,
) -> bool {
    &&& after.target is Some
    &&& after.target->0@ == target
    &&& exists|latest: u64|
        call_ensures(D::get_latest_version, (&before.db,), latest) && after.pending_requests@
            == before.pending_requests@ + if target.number == latest {
            Seq::empty()
        } else {
            all_prefixes()
        }
    &&& after.db == before.db
    &&& after.protocol == before.protocol
    &&& after.progress == before.progress
    &&& after.current == before.current
}

/// Whether `after` is what a session becomes when a prefix is complete up to a block: it is
/// requested again, unless that is the target, and what was received is written once all prefixes
/// are there.
pub open spec fn advanced<D: StateSyncApplierDb>(
    before: StateSyncClientContext<D>,
    done: SyncDone,
    after: StateSyncClientContext<D>,
) -> bool {
    &&& after.target == before.target
    &&& after.current == before.current
    &&& if done.prefix >= 256 {
        after == before
    } else {
        let number = target_number(before.target);
        let old_target = if before.target is Some {
            number
        } else {
            0
        };
        &&& after.progress@ == before.progress@.update(done.prefix as int, (done.n, old_target))
        &&& after.pending_requests@ == if done.n != number {
            before.pending_requests@.push(done.prefix)
        } else {
            before.pending_requests@
        }
        &&& if at_target(after.progress@, before.target) {
            &&& one_commit(before.db, after.db, before.protocol@, before.current)
            &&& after.protocol@ == before.protocol@.committed()
        } else {
            after.db == before.db && after.protocol@ == before.protocol@
        }
    }
}

/// Whether a session can end, where `code_complete` tells whether the database has all code and
/// `state_root` is the root of its state: there is a target, nothing is kept aside, the headers lead
/// back from the target, and the state is that of the target.
pub open spec fn can_close<D: StateSyncApplierDb>(
    ctx: StateSyncClientContext<D>,
    code_complete: bool,
    state_root: B256,
) -> bool {
    &&& ctx.target is Some
    &&& ctx.protocol@.buffered == Map::<Address, Map<B256, B256>>::empty()
    &&& code_complete
    &&& headers_linked(
        ctx.protocol@.headers,
        ctx.target->0.number,
        ctx.target->0.parent_hash,
        256,
    )
    &&& state_root == ctx.target->0.state_root
}

/// Whether a database answers that it has all code of the received accounts, or not, and that
/// `state_root` is the root of its state.
pub open spec fn state_answers<D: StateSyncApplierDb>(
    ctx: StateSyncClientContext<D>,
    code_complete: bool,
    state_root: B256,
) -> bool {
    &&& call_ensures(D::state_root, (&ctx.db,), state_root)
    &&& if code_complete {
        forall|h: B256| #[trigger]
            ctx.protocol@.seen_code.contains(h) ==> call_ensures(
                D::code_exists,
                (&ctx.db, &h),
                true,
            )
    } else {
        exists|h: B256| #[trigger]
            ctx.protocol@.seen_code.contains(h) && call_ensures(
                D::code_exists,
                (&ctx.db, &h),
                false,
            )
    }
}

/// Whether `r` is the answer to the wish to end a session, and `after` is what is left of it: the
/// database is told to finalize the target if what it answers allows it, and `r` is what it answers
/// to that.
pub open spec fn closed_with<D: StateSyncApplierDb>(
    before: StateSyncClientContext<D>,
    after: StateSyncClientContext<D>,
    r: bool,
) -> bool {
    &&& after.protocol == before.protocol
    &&& after.progress == before.progress
    &&& after.target == before.target
    &&& after.current == before.current
    &&& after.pending_requests == before.pending_requests
    &&& if before.target is None {
        !r && after.db == before.db
    } else {
        exists|code_complete: bool, state_root: B256| #[trigger]
            state_answers(before, code_complete, state_root) && if can_close(
                before,
                code_complete,
                state_root,
            ) {
                let op = ApplyOp::Finalize { target: before.target->0.number, answer: r };
                &&& before.db.applies(op, &after.db)
                &&& after.db.applied() == before.db.applied().push(op)
            } else {
                !r && after.db == before.db
            }
    }
}

/// The hash of a header, whether or not one is there.
fn hash_header(h: &Option<BlockHeader>) -> (r: Option<(B256, B256)>)
    ensures
        match *h {
            Some(h) => r == Some((header_hash(h@), h.parent_hash)),
            None => r is None,
        },
{
    match h {
        Some(h) => Some((compute_block_hash(h), h.parent_hash)),
        None => None,
    }
}

impl<D: StateSyncApplierDb> StateSyncClientContext<D> {
    /// What holds between calls.
    pub open spec fn is_settled(&self) -> bool {
        self.protocol@.settled() && self.progress@.len() == 256
    }

    /// A session on a database that is complete up to block `latest`; `INVALID_BLOCK_NUM` stands
    /// for one that has nothing.
    pub fn with_latest(db: D, latest: u64) -> (r: Self)
        ensures
            r.db == db,
            r.protocol@ == ProtocolView::empty(),
            r.progress@ == Seq::new(256, |i: int| (latest, latest)),
            r.target is None,
            r.current == if latest == INVALID_BLOCK_NUM {
                0
            } else {
                latest + 1
            },
            r.pending_requests@ == Seq::<u64>::empty(),
            r.wf(),
    {
        let mut progress: Vec<(u64, u64)> = Vec::new();
        while progress.len() < NUM_PREFIXES
            invariant
                progress@.len() <= NUM_PREFIXES,
                forall|i: int| 0 <= i < progress@.len() ==> progress@[i] == (latest, latest),
            decreases NUM_PREFIXES - progress@.len(),
        {
            progress.push((latest, latest));
        }
        assert(progress@ =~= Seq::new(256, |i: int| (latest, latest)));
        StateSyncClientContext {
            db,
            protocol: SyncProtocolState::new(),
            progress,
            target: None,
            current: if latest == INVALID_BLOCK_NUM {
                0
            } else {
                latest + 1
            },
            pending_requests: Vec::new(),
        }
    }

    /// A session on a database.
    pub fn new(db: D) -> (r: Self)
        ensures
            r.db == db,
            r.protocol@ == ProtocolView::empty(),
            exists|latest: u64|
                call_ensures(D::get_latest_version, (&db,), latest) && r.progress@ == Seq::new(
                    256,
                    |i: int| (latest, latest),
                ),
            r.target is None,
            r.current == if r.progress@[0].0 == INVALID_BLOCK_NUM {
                0
            } else {
                r.progress@[0].0 + 1
            },
            r.pending_requests@ == Seq::<u64>::empty(),
            r.wf(),
    {
        let latest = db.get_latest_version();
        Self::with_latest(db, latest)
    }

    /// Writes what was received to the database.
    pub fn commit(&mut self)
        ensures
            one_commit(
                old(self).db,
                final(self).db,
                old(self).protocol@,
                old(self).current,
            ),
            final(self).protocol@ == old(self).protocol@.committed(),
            final(self).progress == old(self).progress,
            final(self).target == old(self).target,
            final(self).current == old(self).current,
            final(self).pending_requests == old(self).pending_requests,
    {
        let batch = self.protocol.drain();
        proof {
            assert(holds_received(batch@, old(self).protocol@));
        }
        self.db.apply_batch(batch, self.current);
    }

    /// The prefixes that have to be requested; they count as requested from here on.
    pub fn take_pending_requests(&mut self) -> (r: Vec<u64>)
        ensures
            r@ == old(self).pending_requests@,
            final(self).pending_requests@ == Seq::<u64>::empty(),
            final(self).db == old(self).db,
            final(self).protocol == old(self).protocol,
            final(self).progress == old(self).progress,
            final(self).target == old(self).target,
            final(self).current == old(self).current,
    {
        let mut r: Vec<u64> = Vec::new();
        std::mem::swap(&mut r, &mut self.pending_requests);
        r
    }

    /// Sets the target, where the database is complete up to block `latest`: every prefix has to
    /// be requested, unless the target is that block.
    pub fn retarget(&mut self, target_header: &BlockHeader, latest: u64)
        requires
            target_header.number != INVALID_BLOCK_NUM,
            old(self).target is Some ==> target_header.number >= old(self).target->0.number,
        ensures
            final(self).target is Some,
            final(self).target->0@ == target_header@,
            final(self).pending_requests@ == old(self).pending_requests@ + if target_header.number
                == latest {
                Seq::empty()
            } else {
                all_prefixes()
            },
            final(self).db == old(self).db,
            final(self).protocol == old(self).protocol,
            final(self).progress == old(self).progress,
            final(self).current == old(self).current,
    {
        self.target = Some(target_header.copy());
        if target_header.number == latest {
            assert(self.pending_requests@ =~= old(self).pending_requests@ + Seq::empty());
            return;
        }
        let mut i: u64 = 0;
        while i < 256
            invariant
                i <= 256,
                self.target is Some,
                self.target->0@ == target_header@,
                self.db == old(self).db,
                self.protocol == old(self).protocol,
                self.progress == old(self).progress,
                self.current == old(self).current,
                self.pending_requests@ == old(self).pending_requests@ + all_prefixes().take(
                    i as int,
                ),
            decreases 256 - i,
        {
            self.pending_requests.push(i);
            assert(self.pending_requests@ =~= old(self).pending_requests@ + all_prefixes().take(
                i + 1,
            ));
            i = i + 1;
        }
        assert(all_prefixes().take(256) =~= all_prefixes());
    }

    /// Takes the upserts that waited for a commit.
    fn retry(&mut self)
        requires
            old(self).protocol@.headers.len() == 256,
            old(self).protocol@.pending_retry.len() <= 1,
            forall|i: int|
                0 <= i < old(self).protocol@.pending_retry.len() ==> can_retry(
                    old(self).protocol@,
                    #[trigger] old(self).protocol@.pending_retry[i],
                ),
            old(self).protocol@.deltas == Map::<Address, Option<AccountDeltaView>>::empty(),
            old(self).protocol@.disjoint(),
            old(self).protocol@.n_upserts < u64::MAX,
        ensures
            final(self).db == old(self).db,
            final(self).progress == old(self).progress,
            final(self).target == old(self).target,
            final(self).current == old(self).current,
            final(self).pending_requests == old(self).pending_requests,
            retried(
                old(self).db,
                old(self).protocol@.unhurried(),
                old(self).protocol@.pending_retry,
                final(self).protocol@,
            ),
            final(self).protocol@.headers.len() == 256,
            final(self).protocol@.pending_retry.len() == 0,
            final(self).protocol@.disjoint() || final(self).protocol@.needs_commit,
    {
        let ghost p = self.protocol@;
        let mut retries: Vec<Upsert> = Vec::new();
        std::mem::swap(&mut retries, &mut self.protocol.pending_retry);
        let ghost from = self.protocol@;
        proof {
            assert(upserts_view(retries@) == p.pending_retry);
            assert(from =~= p.unhurried());
            assert(retried(self.db, from, p.pending_retry.take(0), from));
        }
        let mut i: usize = 0;
        while i < retries.len()
            invariant
                retries@.len() <= 1,
                i <= retries@.len(),
                upserts_view(retries@) == p.pending_retry,
                i == 0 ==> self.protocol@ == from,
                forall|j: int|
                    0 <= j < p.pending_retry.len() ==> can_retry(
                        from,
                        #[trigger] p.pending_retry[j],
                    ),
                from.deltas == Map::<Address, Option<AccountDeltaView>>::empty(),
                from.n_upserts < u64::MAX,
                from.headers.len() == 256,
                from.pending_retry.len() == 0,
                from.disjoint(),
                retried(self.db, from, p.pending_retry.take(i as int), self.protocol@),
                self.protocol@.headers.len() == 256,
                self.protocol@.pending_retry.len() == 0,
                self.protocol@.disjoint() || self.protocol@.needs_commit,
                self.db == old(self).db,
                self.progress == old(self).progress,
                self.target == old(self).target,
                self.current == old(self).current,
                self.pending_requests == old(self).pending_requests,
            decreases retries@.len() - i,
        {
            let ghost mid = self.protocol@;
            let status = handle_upsert(
                &mut self.protocol,
                retries[i].0,
                retries[i].1.as_slice(),
                &self.db,
            );
            proof {
                let taken = p.pending_retry.take(i + 1);
                assert(taken.drop_last() =~= p.pending_retry.take(i as int));
                assert(taken.last() == (retries@[i as int].0, retries@[i as int].1@));
                let (in_db, stored) = choose|in_db: Option<EthAccount>, stored: B256|
                    (status, self.protocol@) == #[trigger] mid.upsert(
                        retries@[i as int].0,
                        retries@[i as int].1@,
                        in_db,
                        stored,
                    ) && answers(
                        &self.db,
                        retries@[i as int].0,
                        retries@[i as int].1@,
                        in_db,
                        stored,
                    );
                assert(can_retry(from, p.pending_retry[i as int]));
                lemma_upsert_keeps_order(
                    mid,
                    retries@[i as int].0,
                    retries@[i as int].1@,
                    in_db,
                    stored,
                );
                assert(mid.upsert(taken.last().0, taken.last().1, in_db, stored) == (
                    UpsertStatus::Applied,
                    self.protocol@,
                ));
                assert(retried(self.db, from, taken, self.protocol@));
            }
            i = i + 1;
        }
        proof {
            assert(p.pending_retry.take(i as int) =~= p.pending_retry);
        }
    }

    fn all_code_exists(&self) -> (r: bool)
        ensures
            if r {
                forall|h: B256| #[trigger]
                    self.protocol@.seen_code.contains(h) ==> call_ensures(
                        D::code_exists,
                        (&self.db, &h),
                        true,
                    )
            } else {
                exists|h: B256| #[trigger]
                    self.protocol@.seen_code.contains(h) && call_ensures(
                        D::code_exists,
                        (&self.db, &h),
                        false,
                    )
            },
    {
        let hashes = self.protocol.seen_code.keys();
        let mut i: usize = 0;
        while i < hashes.len()
            invariant
                i <= hashes@.len(),
                hashes@.to_set() == self.protocol@.seen_code,
                forall|j: int|
                    0 <= j < i ==> call_ensures(
                        D::code_exists,
                        (&self.db, &#[trigger] hashes@[j]),
                        true,
                    ),
            decreases hashes@.len() - i,
        {
            let h = hashes[i];
            assert(hashes@.to_set().contains(h));
            if !self.db.code_exists(&h) {
                return false;
            }
            i = i + 1;
        }
        proof {
            assert forall|h: B256| #[trigger] self.protocol@.seen_code.contains(h) implies call_ensures(
                D::code_exists,
                (&self.db, &h),
                true,
            ) by {
                assert(hashes@.to_set().contains(h));
                let j = choose|j: int| 0 <= j < hashes@.len() && hashes@[j] == h;
                assert(hashes@[j] == h);
            }
        }
        true
    }

    /// Whether the headers that were received lead back from the target.
    pub fn headers_match(&self) -> (r: bool)
        requires
            self.wf(),
            self.target is Some,
        ensures
            r == headers_linked(
                self.protocol@.headers,
                self.target->0.number,
                self.target->0.parent_hash,
                256,
            ),
    {
        match &self.target {
            Some(target) => {
                let mut number = target.number;
                let mut expected = target.parent_hash;
                let mut left: u64 = 256;
                while left > 0 && number > 0
                    invariant
                        left <= 256,
                        self.protocol@.headers.len() == 256,
                        self.target is Some,
                        headers_linked(self.protocol@.headers, number, expected, left as nat)
                            == headers_linked(
                            self.protocol@.headers,
                            self.target->0.number,
                            self.target->0.parent_hash,
                            256,
                        ),
                    decreases left,
                {
                    let idx = ((number - 1) % 256) as usize;
                    assert(self.protocol@.headers[idx as int] == header_view(
                        self.protocol.headers@[idx as int],
                    ));
                    match hash_header(&self.protocol.headers[idx]) {
                        Some((hash, parent)) => {
                            if hash != expected {
                                return false;
                            }
                            expected = parent;
                        },
                        None => {
                            return true;
                        },
                    }
                    number = number - 1;
                    left = left - 1;
                }
                true
            },
            None => false,
        }
    }

    /// Whether the session can end, where `code_complete` tells whether the database has all code
    /// and `state_root` is the root of its state.
    pub fn accepts_state(&self, code_complete: bool, state_root: B256) -> (r: bool)
        requires
            self.wf(),
            self.target is Some,
        ensures
            r == can_close(*self, code_complete, state_root),
    {
        let nothing_aside = self.protocol.buffered.is_empty();
        proof {
            if nothing_aside {
                assert(self.protocol@.buffered =~= Map::<Address, Map<B256, B256>>::empty());
            } else {
                assert(self.protocol.buffered@.dom() =~= self.protocol@.buffered.dom());
            }
        }
        if !nothing_aside || !code_complete || !self.headers_match() {
            return false;
        }
        match &self.target {
            Some(target) => state_root == target.state_root,
            None => false,
        }
    }
}

impl<D: StateSyncApplierDb> StateSyncApplier for StateSyncClientContext<D> {
    open spec fn wf(&self) -> bool {
        self.is_settled()
    }

    open spec fn has_room(&self) -> bool {
        self.protocol.n_upserts < u64::MAX - 1
    }

    open spec fn can_target(&self, target_header: BlockHeader) -> bool {
        &&& target_header.number != INVALID_BLOCK_NUM
        &&& self.target is Some ==> target_header.number >= self.target->0.number
    }

    open spec fn can_be_done(&self, done: SyncDone) -> bool {
        &&& done.success
        &&& done.prefix < 256 ==> {
            let progress = self.progress@[done.prefix as int].0;
            done.n > progress || progress == INVALID_BLOCK_NUM
        }
    }

    open spec fn ready_to_finalize(&self) -> bool {
        self.target is Some ==> {
            &&& self.target->0.number != INVALID_BLOCK_NUM
            &&& self.protocol@.deltas == Map::<Address, Option<AccountDeltaView>>::empty()
        }
    }

    fn apply_upsert(&mut self, prefix: u64, upsert_type: SyncUpsertType, data: &[u8]) -> (r:
        UpsertStatus)
        ensures
            upserted(
                old(self).protocol@,
                old(self).db,
                old(self).current,
                (upsert_type, data@),
                final(self).protocol@,
                final(self).db,
                r,
            ),
            final(self).progress == old(self).progress,
            final(self).target == old(self).target,
            final(self).current == old(self).current,
            final(self).pending_requests == old(self).pending_requests,
    {
        let ghost before = self.protocol@;
        let status = handle_upsert(&mut self.protocol, upsert_type, data, &self.db);
        let ghost p = self.protocol@;
        let ghost (in_db, stored) = choose|in_db: Option<EthAccount>, stored: B256|
            (status, p) == #[trigger] before.upsert(upsert_type, data@, in_db, stored) && answers(
                &old(self).db,
                upsert_type,
                data@,
                in_db,
                stored,
            );
        proof {
            lemma_upsert_keeps_order(before, upsert_type, data@, in_db, stored);
        }
        assert((status, p) == before.upsert(upsert_type, data@, in_db, stored));
        if let UpsertStatus::Contradiction = status {
            return status;
        }
        if !self.protocol.should_commit() {
            return status;
        }
        self.commit();
        let ghost mid = self.db;
        self.retry();
        let ghost q = self.protocol@;
        if self.protocol.should_commit() {
            self.commit();
        }
        proof {
            assert(one_commit(old(self).db, mid, p, self.current));
            assert(retried(mid, p.committed().unhurried(), p.pending_retry, q));
            assert(absorbed(p, old(self).db, self.current, self.protocol@, self.db));
        }
        status
    }

    fn set_target(&mut self, target_header: &BlockHeader)
        ensures
            targeted(*old(self), target_header@, *final(self)),
    {
        let latest = self.db.get_latest_version();
        self.retarget(target_header, latest);
    }

    fn handle_done(&mut self, done: SyncDone)
        ensures
            advanced(*old(self), done, *final(self)),
    {
        if done.prefix >= 256 {
            return;
        }
        let idx = done.prefix as usize;
        let (old_target, number) = match &self.target {
            Some(t) => (t.number, t.number),
            None => (0, INVALID_BLOCK_NUM),
        };
        self.progress.set(idx, (done.n, old_target));
        if done.n != number {
            self.pending_requests.push(done.prefix);
        }
        if self.has_reached_target() {
            self.commit();
        }
    }

    fn has_reached_target(&self) -> (r: bool)
        ensures
            r == at_target(self.progress@, self.target),
    {
        let number = match &self.target {
            Some(t) => t.number,
            None => INVALID_BLOCK_NUM,
        };
        if number == INVALID_BLOCK_NUM {
            return false;
        }
        let mut i: usize = 0;
        while i < self.progress.len()
            invariant
                i <= self.progress@.len(),
                number == target_number(self.target),
                number != INVALID_BLOCK_NUM,
                forall|j: int| 0 <= j < i ==> (#[trigger] self.progress@[j]).0 == number,
            decreases self.progress@.len() - i,
        {
            if self.progress[i].0 != number {
                assert(self.progress@[i as int].0 != number);
                return false;
            }
            i = i + 1;
        }
        true
    }

    fn finalize(&mut self) -> (r: bool)
        ensures
            closed_with(*old(self), *final(self), r),
    {
        let number = match &self.target {
            Some(t) => t.number,
            None => {
                return false;
            },
        };
        let code_complete = self.all_code_exists();
        let state_root = self.db.state_root();
        assert(state_answers(*old(self), code_complete, state_root));
        if !self.accepts_state(code_complete, state_root) {
            return false;
        }
        self.db.finalize_statesync(number)
    }
}

/// How taking some upserts ended.
#[derive(Clone, Copy, Debug, PartialEq, Eq, Structural)]
pub enum UpsertsOutcome {
    /// All were taken.
    Applied,
    /// One was not taken.
    Refused,
    /// No more upserts can be counted.
    Full,
}

impl<D: StateSyncApplierDb> StateSyncClientContext<D> {
    /// Takes the upserts of a response, up to the first that is not taken.
    pub fn apply_upserts(&mut self, prefix: u64, upserts: &Vec<Upsert>) -> (r: UpsertsOutcome)
        requires
            old(self).wf(),
        ensures
            final(self).wf(),
            match r {
                UpsertsOutcome::Applied => took(
                    old(self).protocol@,
                    old(self).db,
                    old(self).current,
                    upserts_view(upserts@),
                    final(self).protocol@,
                    final(self).db,
                ),
                UpsertsOutcome::Refused => took_until(
                    old(self).protocol@,
                    old(self).db,
                    old(self).current,
                    upserts_view(upserts@),
                    final(self).protocol@,
                    final(self).db,
                ),
                UpsertsOutcome::Full => took_until_full(
                    old(self).protocol@,
                    old(self).db,
                    old(self).current,
                    upserts_view(upserts@),
                    final(self).protocol@,
                    final(self).db,
                ),
            },
            final(self).progress == old(self).progress,
            final(self).target == old(self).target,
            final(self).current == old(self).current,
            final(self).pending_requests == old(self).pending_requests,
    {
        let ghost all = upserts_view(upserts@);
        let ghost v = self.protocol@;
        let ghost db = self.db;
        let mut i: usize = 0;
        assert(took(v, db, self.current, all.take(0), v, db));
        while i < upserts.len()
            invariant
                i <= upserts@.len(),
                self.wf(),
                all == upserts_view(upserts@),
                v == old(self).protocol@,
                db == old(self).db,
                took(v, db, self.current, all.take(i as int), self.protocol@, self.db),
                self.progress == old(self).progress,
                self.target == old(self).target,
                self.current == old(self).current,
                self.pending_requests == old(self).pending_requests,
            decreases upserts@.len() - i,
        {
            if self.protocol.n_upserts >= u64::MAX - 1 {
                return UpsertsOutcome::Full;
            }
            let ghost mid = self.protocol@;
            let ghost mid_db = self.db;
            let status = self.apply_upsert(prefix, upserts[i].0, upserts[i].1.as_slice());
            proof {
                assert(all[i as int] == (upserts@[i as int].0, upserts@[i as int].1@));
                assert(upserted(
                    mid,
                    mid_db,
                    self.current,
                    all[i as int],
                    self.protocol@,
                    self.db,
                    status,
                ));
                assert(all.take(i + 1).drop_last() =~= all.take(i as int));
            }
            match status {
                UpsertStatus::Applied => {
                    assert(took(v, db, self.current, all.take(i + 1).drop_last(), mid, mid_db));
                    assert(upserted(
                        mid,
                        mid_db,
                        self.current,
                        all.take(i + 1).last(),
                        self.protocol@,
                        self.db,
                        UpsertStatus::Applied,
                    ));
                    assert(took(v, db, self.current, all.take(i + 1), self.protocol@, self.db));
                },
                _ => {
                    assert(took_until(v, db, self.current, all, self.protocol@, self.db));
                    return UpsertsOutcome::Refused;
                },
            }
            i = i + 1;
        }
        assert(all.take(i as int) =~= all);
        UpsertsOutcome::Applied
    }
}

/// A client that only takes the upserts of responses.
pub struct RustStateSyncClient<D: StateSyncApplierDb> {
    pub applier: StateSyncClientContext<D>,
}

impl<D: StateSyncApplierDb> RustStateSyncClient<D> {
    /// A client on a session.
    pub fn new(applier: StateSyncClientContext<D>) -> (r: Self)
        ensures
            r.applier == applier,
    {
        RustStateSyncClient { applier }
    }

    /// Takes the upserts of a response for `prefix`; tells whether all were taken.
    pub fn handle_response(&mut self, prefix: u64, response: &Vec<Upsert>) -> (r: bool)
        requires
            old(self).applier.wf(),
        ensures
            final(self).applier.wf(),
            r ==> took(
                old(self).applier.protocol@,
                old(self).applier.db,
                old(self).applier.current,
                upserts_view(response@),
                final(self).applier.protocol@,
                final(self).applier.db,
            ),
            !r ==> took_until_full(
                old(self).applier.protocol@,
                old(self).applier.db,
                old(self).applier.current,
                upserts_view(response@),
                final(self).applier.protocol@,
                final(self).applier.db,
            ) || took_until(
                old(self).applier.protocol@,
                old(self).applier.db,
                old(self).applier.current,
                upserts_view(response@),
                final(self).applier.protocol@,
                final(self).applier.db,
            ),
            final(self).applier.progress == old(self).applier.progress,
            final(self).applier.target == old(self).applier.target,
            final(self).applier.current == old(self).applier.current,
            final(self).applier.pending_requests == old(self).applier.pending_requests,
    {
        match self.applier.apply_upserts(prefix, response) {
            UpsertsOutcome::Applied => true,
            _ => false,
        }
    }

    /// Whether every prefix is complete up to the target.
    pub fn has_reached_target(&self) -> (r: bool)
        requires
            self.applier.wf(),
        ensures
            r == at_target(self.applier.progress@, self.applier.target),
    {
        self.applier.has_reached_target()
    }

    /// Ends the session.
    pub fn finalize(&mut self) -> (r: bool)
        requires
            old(self).applier.wf(),
            old(self).applier.ready_to_finalize(),
        ensures
            final(self).applier.wf(),
            closed_with(old(self).applier, final(self).applier, r),
    {
        self.applier.finalize()
    }
}

/// What is written of an account is what was received of it last: the account that came last, that it
/// was deleted, and each slot with the value that came last for it. Nothing else is written.
pub proof fn lemma_batch_holds_what_came_last(b: BatchView, v: ProtocolView, a: Address)
    requires
        holds_received(b, v),
    ensures
        !v.deltas.contains_key(a) ==> {
            &&& forall|x: Option<EthAccount>| !#[trigger] b.accounts.contains((a, x))
            &&& forall|k: B256, x: B256| !#[trigger] b.storage.contains((a, k, x))
        },
        v.deltas.contains_key(a) && v.deltas[a] is None ==> {
            &&& b.accounts.contains((a, None::<EthAccount>))
            &&& forall|acct: EthAccount| !#[trigger] b.accounts.contains((a, Some(acct)))
            &&& forall|k: B256, x: B256| !#[trigger] b.storage.contains((a, k, x))
        },
        v.deltas.contains_key(a) && v.deltas[a] is Some ==> {
            let d = v.deltas[a]->0;
            &&& !b.accounts.contains((a, None::<EthAccount>))
            &&& d.account is Some ==> b.accounts.contains((a, d.account))
            &&& forall|x: Option<EthAccount>| #[trigger]
                b.accounts.contains((a, x)) ==> x == d.account
            &&& forall|k: B256|
                d.storage.contains_key(k) ==> #[trigger] b.storage.contains((a, k, d.storage[k]))
            &&& forall|k: B256, x: B256| #[trigger]
                b.storage.contains((a, k, x)) ==> d.storage.contains_key(k) && d.storage[k] == x
        },
        forall|h: B256| #[trigger]
            v.code.contains_key(h) ==> b.code.contains((h, v.code[h])),
        forall|h: B256, c: Seq<u8>| #[trigger]
            b.code.contains((h, c)) ==> v.code.contains_key(h) && v.code[h] == c,
{
    assert forall|h: B256| #[trigger] v.code.contains_key(h) implies b.code.contains(
        (h, v.code[h]),
    ) by {
        assert(b.code.contains((h, v.code[h])) <==> v.code.contains_key(h));
    }
    if v.deltas.contains_key(a) && v.deltas[a] is Some {
        let d = v.deltas[a]->0;
        assert(b.accounts.contains((a, d.account)) <==> written_account(v, a) == Some(d.account));
        assert(b.accounts.contains((a, None::<EthAccount>)) <==> written_account(v, a) == Some(
            None::<EthAccount>,
        ));
        assert forall|k: B256| d.storage.contains_key(k) implies #[trigger] b.storage.contains(
            (a, k, d.storage[k]),
        ) by {
            assert(writes_slot(v, a, k, d.storage[k]));
        }
    }
}

/// Of two accounts that are received for one address, with no commit in between, the later one is
/// written.
pub proof fn lemma_later_account_is_written(
    v: ProtocolView,
    addr: Address,
    first: Seq<u8>,
    earlier: EthAccount,
    second: Seq<u8>,
    later: EthAccount,
    in_db: Option<EthAccount>,
    stored: B256,
    b: BatchView,
)
    requires
        decoded_account(first) == Some((addr, earlier)),
        decoded_account(second) == Some((addr, later)),
        v.agrees(addr, in_db is Some),
        v.deltas.contains_key(addr) ==> v.deltas[addr] is Some,
        holds_received(
            b,
            v.upsert(SyncUpsertType::Account, first, in_db, stored).1.upsert(
                SyncUpsertType::Account,
                second,
                in_db,
                stored,
            ).1,
        ),
    ensures
        b.accounts.contains((addr, Some(later))),
        forall|x: Option<EthAccount>| #[trigger] b.accounts.contains((addr, x)) ==> x == Some(later),
{
    let w = v.upsert(SyncUpsertType::Account, first, in_db, stored).1;
    lemma_account_replaces_earlier(v, first, addr, earlier, in_db, stored);
    lemma_account_replaces_earlier(w, second, addr, later, in_db, stored);
    let x = w.upsert(SyncUpsertType::Account, second, in_db, stored).1;
    lemma_batch_holds_what_came_last(b, x, addr);
}

/// A session that takes an account either keeps it to be written, or has it written already.
pub proof fn lemma_taken_account_is_kept_or_written<D: StateSyncApplierDb>(
    before: ProtocolView,
    db: D,
    version: u64,
    data: Seq<u8>,
    addr: Address,
    acct: EthAccount,
    after: ProtocolView,
    db_after: D,
    r: UpsertStatus,
)
    requires
        before.settled(),
        decoded_account(data) == Some((addr, acct)),
        before.deltas.contains_key(addr) ==> before.deltas[addr] is Some,
        upserted(before, db, version, (SyncUpsertType::Account, data), after, db_after, r),
        r is Applied,
    ensures
        ({
            ||| {
                &&& db_after == db
                &&& after.deltas.contains_key(addr)
                &&& after.deltas[addr] is Some
                &&& (after.deltas[addr]->0).account == Some(acct)
            }
            ||| exists|b: BatchView, mid: D|
                {
                    &&& #[trigger] db.applies(ApplyOp::Batch { updates: b, version }, &mid)
                    &&& b.accounts.contains((addr, Some(acct)))
                    &&& forall|x: Option<EthAccount>| #[trigger]
                        b.accounts.contains((addr, x)) ==> x == Some(acct)
                }
        }),
{
    let kind = SyncUpsertType::Account;
    let (in_db, stored) = choose|in_db: Option<EthAccount>, stored: B256|
        #![trigger before.upsert(kind, data, in_db, stored)]
        {
            let (status, p) = before.upsert(kind, data, in_db, stored);
            &&& r == status
            &&& if status is Contradiction {
                after == before && db_after == db
            } else {
                absorbed(p, db, version, after, db_after)
            }
        };
    let p = before.upsert(kind, data, in_db, stored).1;
    lemma_account_replaces_earlier(before, data, addr, acct, in_db, stored);
    if p.should_commit() {
        let (q, mid) = choose|q: ProtocolView, mid: D|
            #![trigger retried(mid, p.committed().unhurried(), p.pending_retry, q)]
            one_commit(db, mid, p, version) && retried(
                mid,
                p.committed().unhurried(),
                p.pending_retry,
                q,
            );
        let b = choose|b: BatchView|
            #![trigger holds_received(b, p)]
            {
                &&& holds_received(b, p)
                &&& db.applies(ApplyOp::Batch { updates: b, version }, &mid)
            };
        lemma_batch_holds_what_came_last(b, p, addr);
        assert(db.applies(ApplyOp::Batch { updates: b, version }, &mid));
    }
}

/// Once everything is committed, nothing is left to be written, and no commit is due; what is kept
/// aside, the headers, the code that is looked for and the count of upserts stay.
pub proof fn lemma_commit_leaves_nothing_to_write(v: ProtocolView)
    ensures
        ({
            let w = v.committed();
            &&& forall|a: Address| !#[trigger] w.deltas.contains_key(a)
            &&& forall|h: B256| !#[trigger] w.code.contains_key(h)
            &&& !w.needs_commit
            &&& w.buffered == v.buffered
            &&& w.headers == v.headers
            &&& w.seen_code == v.seen_code
            &&& w.n_upserts == v.n_upserts
            &&& w.pending_retry == v.pending_retry
            &&& w.unhurried().pending_retry.len() == 0
            &&& w.unhurried().buffered == v.buffered
            &&& w.unhurried().n_upserts == v.n_upserts
        }),
{
}

/// A new target has every prefix requested, once and in order, unless the database is complete up to
/// it.
pub proof fn lemma_target_has_every_prefix_requested<D: StateSyncApplierDb>(
    before: StateSyncClientContext<D>,
    target: HeaderView,
    after: StateSyncClientContext<D>,
)
    requires
        targeted(before, target, after),
        before.pending_requests@.len() == 0,
    ensures
        after.target is Some,
        after.target->0@ == target,
        after.progress == before.progress,
        after.protocol == before.protocol,
        after.db == before.db,
        ({
            ||| {
                &&& after.pending_requests@.len() == 0
                &&& call_ensures(D::get_latest_version, (&before.db,), target.number)
            }
            ||| {
                &&& after.pending_requests@.len() == 256
                &&& forall|i: int| 0 <= i < 256 ==> #[trigger] after.pending_requests@[i] == i
                &&& exists|latest: u64|
                    latest != target.number && #[trigger] call_ensures(
                        D::get_latest_version,
                        (&before.db,),
                        latest,
                    )
            }
        }),
{
    let latest = choose|latest: u64|
        call_ensures(D::get_latest_version, (&before.db,), latest) && after.pending_requests@
            == before.pending_requests@ + if target.number == latest {
            Seq::empty()
        } else {
            all_prefixes()
        };
    assert(call_ensures(D::get_latest_version, (&before.db,), latest));
}

/// A prefix that is complete up to a block is known to be, and only this prefix; it is requested again
/// exactly if that block is not the target.
pub proof fn lemma_complete_prefix_is_noted<D: StateSyncApplierDb>(
    before: StateSyncClientContext<D>,
    done: SyncDone,
    after: StateSyncClientContext<D>,
    i: int,
)
    requires
        advanced(before, done, after),
        before.progress@.len() == 256,
        done.prefix < 256,
        0 <= i < 256,
        before.target is Some,
    ensures
        after.progress@.len() == 256,
        after.progress@[done.prefix as int] == (done.n, before.target->0.number),
        i != done.prefix ==> after.progress@[i] == before.progress@[i],
        done.n == before.target->0.number ==> after.pending_requests@ == before.pending_requests@,
        done.n != before.target->0.number ==> after.pending_requests@.len()
            == before.pending_requests@.len() + 1 && after.pending_requests@.last() == done.prefix
            && after.pending_requests@.drop_last() == before.pending_requests@,
        after.target == before.target,
{
    if done.n != before.target->0.number {
        assert(after.pending_requests@.drop_last() =~= before.pending_requests@);
    }
}

/// The target is reached exactly once every prefix is complete up to it; what was received until then
/// is written at that moment.
pub proof fn lemma_target_is_reached_by_all_prefixes<D: StateSyncApplierDb>(
    before: StateSyncClientContext<D>,
    done: SyncDone,
    after: StateSyncClientContext<D>,
)
    requires
        advanced(before, done, after),
        before.progress@.len() == 256,
        done.prefix < 256,
        before.target is Some,
        before.target->0.number != u64::MAX,
    ensures
        (forall|i: int|
            0 <= i < 256 ==> (#[trigger] after.progress@[i]).0 == before.target->0.number) ==> {
            &&& at_target(after.progress@, after.target)
            &&& forall|a: Address| !#[trigger] after.protocol@.deltas.contains_key(a)
            &&& exists|b: BatchView| #[trigger]
                holds_received(b, before.protocol@) && before.db.applies(
                    ApplyOp::Batch { updates: b, version: before.current },
                    &after.db,
                )
        },
        (exists|i: int|
            0 <= i < 256 && (#[trigger] after.progress@[i]).0 != before.target->0.number) ==> {
            &&& !at_target(after.progress@, after.target)
            &&& after.db == before.db
            &&& after.protocol@ == before.protocol@
        },
{
    if forall|i: int| 0 <= i < 256 ==> (#[trigger] after.progress@[i]).0 == before.target->0.number {
        assert(at_target(after.progress@, before.target));
        let b = choose|b: BatchView|
            #![trigger holds_received(b, before.protocol@)]
            {
                &&& holds_received(b, before.protocol@)
                &&& before.db.applies(
                    ApplyOp::Batch { updates: b, version: before.current },
                    &after.db,
                )
            };
        assert(holds_received(b, before.protocol@));
    }
}

/// Where the headers lead back from the target, each one that is there, as far as there are headers
/// without a gap and at most 256 of them, has the hash that the block after it names as its parent.
pub proof fn lemma_headers_lead_back(
    headers: Seq<Option<HeaderView>>,
    number: u64,
    parent_hash: B256,
    left: nat,
    k: int,
)
    requires
        headers.len() == 256,
        headers_linked(headers, number, parent_hash, left),
        0 <= k < left,
        k < number,
        forall|j: int| 0 <= j <= k ==> headers[#[trigger] (number - 1 - j) % 256] is Some,
    ensures
        k == 0 ==> header_hash(headers[(number - 1) % 256]->0) == parent_hash,
        k > 0 ==> header_hash(headers[(number - 1 - k) % 256]->0) == (headers[(number - k)
            % 256]->0).parent_hash,
    decreases k,
{
    assert(headers[(number - 1 - 0) % 256] is Some);
    if k > 0 {
        let h = headers[(number - 1) % 256]->0;
        assert forall|j: int| 0 <= j <= k - 1 implies headers[#[trigger] ((number - 1) as u64 - 1
            - j) % 256] is Some by {
            assert(headers[(number - 1 - (j + 1)) % 256] is Some);
        }
        lemma_headers_lead_back(headers, (number - 1) as u64, h.parent_hash, (left - 1) as nat, k - 1);
    }
}

/// Headers that do not lead back are noticed: a header that is there for the block before the target,
/// with another hash than the target names as its parent, is refused.
pub proof fn lemma_wrong_parent_is_noticed(
    headers: Seq<Option<HeaderView>>,
    number: u64,
    parent_hash: B256,
    left: nat,
)
    requires
        headers.len() == 256,
        left > 0,
        number > 0,
        headers[(number - 1) % 256] is Some,
    ensures
        header_hash(headers[(number - 1) % 256]->0) != parent_hash ==> !headers_linked(
            headers,
            number,
            parent_hash,
            left,
        ),
        header_hash(headers[(number - 1) % 256]->0) == parent_hash ==> headers_linked(
            headers,
            number,
            parent_hash,
            left,
        ) == headers_linked(
            headers,
            (number - 1) as u64,
            (headers[(number - 1) % 256]->0).parent_hash,
            (left - 1) as nat,
        ),
{
}

/// A session ends well only if there is a target, no storage is kept aside, the database has the code
/// of all accounts that were received, the headers lead back from the target, and the root of its
/// state is that of the target; the database is then told to finalize the target.
pub proof fn lemma_session_ends_only_with_the_state_of_its_target<D: StateSyncApplierDb>(
    before: StateSyncClientContext<D>,
    after: StateSyncClientContext<D>,
)
    requires
        closed_with(before, after, true),
    ensures
        before.target is Some,
        call_ensures(D::state_root, (&before.db,), before.target->0.state_root),
        forall|a: Address| !#[trigger] before.protocol@.buffered.contains_key(a),
        forall|h: B256| #[trigger]
            before.protocol@.seen_code.contains(h) ==> call_ensures(
                D::code_exists,
                (&before.db, &h),
                true,
            ),
        headers_linked(
            before.protocol@.headers,
            before.target->0.number,
            before.target->0.parent_hash,
            256,
        ),
        before.db.applies(
            ApplyOp::Finalize { target: before.target->0.number, answer: true },
            &after.db,
        ),
        after.target == before.target,
{
    let (code_complete, state_root) = choose|code_complete: bool, state_root: B256| #[trigger]
        state_answers(before, code_complete, state_root) && if can_close(
            before,
            code_complete,
            state_root,
        ) {
            before.db.applies(
                ApplyOp::Finalize { target: before.target->0.number, answer: true },
                &after.db,
            )
        } else {
            false
        };
    assert(state_answers(before, code_complete, state_root));
}

/// A session whose database has the state of the target, with all code, whose headers lead back and
/// which keeps nothing aside, can end.
pub proof fn lemma_complete_session_can_end<D: StateSyncApplierDb>(
    ctx: StateSyncClientContext<D>,
    code_complete: bool,
    state_root: B256,
)
    ensures
        can_close(ctx, code_complete, state_root) <==> {
            &&& ctx.target is Some
            &&& state_root == ctx.target->0.state_root
            &&& code_complete
            &&& forall|a: Address| !#[trigger] ctx.protocol@.buffered.contains_key(a)
            &&& headers_linked(
                ctx.protocol@.headers,
                ctx.target->0.number,
                ctx.target->0.parent_hash,
                256,
            )
        },
{
    let buffered = ctx.protocol@.buffered;
    if forall|a: Address| !#[trigger] buffered.contains_key(a) {
        assert(buffered =~= Map::<Address, Map<B256, B256>>::empty());
    }
}

/// Of some upserts that are taken each one is, in its turn: those before it lead to where it is taken.
pub proof fn lemma_each_upsert_is_taken<D: StateSyncApplierDb>(
    before: ProtocolView,
    db: D,
    version: u64,
    upserts: Seq<(SyncUpsertType, Seq<u8>)>,
    after: ProtocolView,
    db_after: D,
    i: int,
)
    requires
        took(before, db, version, upserts, after, db_after),
        0 <= i < upserts.len(),
    ensures
        exists|p: ProtocolView, p_db: D, q: ProtocolView, q_db: D|
            {
                &&& took(before, db, version, upserts.take(i), p, p_db)
                &&& #[trigger] upserted(
                    p,
                    p_db,
                    version,
                    upserts[i],
                    q,
                    q_db,
                    UpsertStatus::Applied,
                )
                &&& i == 0 ==> p == before && p_db == db
                &&& i == upserts.len() - 1 ==> q == after && q_db == db_after
            },
    decreases upserts.len(),
{
    let rest = upserts.drop_last();
    let (mid, mid_db) = choose|mid: ProtocolView, mid_db: D|
        #![trigger upserted(mid, mid_db, version, upserts.last(), after, db_after, UpsertStatus::Applied)]
        took(before, db, version, rest, mid, mid_db) && upserted(
            mid,
            mid_db,
            version,
            upserts.last(),
            after,
            db_after,
            UpsertStatus::Applied,
        );
    if i == upserts.len() - 1 {
        assert(upserts.take(i) =~= rest);
        assert(upserted(
            mid,
            mid_db,
            version,
            upserts[i],
            after,
            db_after,
            UpsertStatus::Applied,
        ));
    } else {
        lemma_each_upsert_is_taken(before, db, version, rest, mid, mid_db, i);
        assert(rest.take(i) =~= upserts.take(i));
        assert(rest[i] == upserts[i]);
    }
}

} // verus!
