//! A node's way to the state of a block: from target to target, response by response.

use std::collections::VecDeque;

use vstd::prelude::*;

use crate::header::BlockHeader;
use crate::primitives::{Address, SeqNum, INVALID_BLOCK_NUM};
use crate::statesync::client_context::{
    advanced, at_target, closed_with, lemma_complete_prefix_is_noted,
    lemma_target_has_every_prefix_requested, targeted, took, took_until, took_until_full,
    StateSyncClientContext, UpsertsOutcome,
};
use crate::statesync::protocol::{
    build_sync_request, lemma_request_goes_on_where_it_stopped, next_request, upserts_view,
    AccountDeltaView,
};
use crate::statesync::types::{NetworkRequest, StateSyncRequest, SyncDone, Upsert};
use crate::statesync::{StateSyncApplier, StateSyncApplierDb};

verus! {

/// How many prefixes progress is spread over.
pub const PROGRESS_PREFIXES: u64 = 256;

/// How many bytes a prefix has.
pub const PREFIX_BYTES: u8 = 1;

/// How far below the target most of the state is expected to be complete.
pub const UNTIL_GUESS: u64 = 10_000;

/// How far a node is, as an estimate: blocks are counted for every prefix.
#[derive(Clone, Copy, Debug, PartialEq, Eq, Structural)]
pub struct Progress {
    pub start_target: Option<SeqNum>,
    pub end_target: Option<SeqNum>,
    pub min_until_guess: Option<SeqNum>,
    pub current_progress: Option<u64>,
}

impl Progress {
    /// Nothing is known.
    pub open spec fn spec_new() -> Progress {
        Progress {
            start_target: None,
            end_target: None,
            min_until_guess: None,
            current_progress: None,
        }
    }

    /// Nothing is known.
    pub fn new() -> (r: Self)
        ensures
            r == Self::spec_new(),
    {
        Progress {
            start_target: None,
            end_target: None,
            min_until_guess: None,
            current_progress: None,
        }
    }

    /// The target is block `number`. The first target fixes the guess.
    pub open spec fn with_target(self, number: u64) -> Progress {
        Progress {
            end_target: Some(SeqNum(number)),
            min_until_guess: match self.min_until_guess {
                Some(guess) => Some(guess),
                None => Some(
                    SeqNum(
                        if number > UNTIL_GUESS {
                            (number - UNTIL_GUESS) as u64
                        } else {
                            0
                        },
                    ),
                ),
            },
            ..self
        }
    }

    /// The target is block `number`.
    pub fn update_target(&mut self, number: u64)
        ensures
            *final(self) == old(self).with_target(number),
    {
        self.end_target = Some(SeqNum(number));
        if self.min_until_guess.is_none() {
            let guess: u64 = if number > UNTIL_GUESS {
                number - UNTIL_GUESS
            } else {
                0
            };
            self.min_until_guess = Some(SeqNum(guess));
        }
    }

    /// The block that the way to the target started at, once a request was handled.
    pub open spec fn start(self, request: StateSyncRequest) -> u64 {
        match self.start_target {
            Some(start) => start.0,
            None => request.from,
        }
    }

    /// What was counted before a request was handled.
    pub open spec fn base(self, request: StateSyncRequest) -> int {
        match self.current_progress {
            Some(p) => p as int,
            None => request.from * PROGRESS_PREFIXES,
        }
    }

    /// How much a handled request counts for: nothing, if it ends below the guess; and all blocks
    /// since the start, if it is the first that does not.
    pub open spec fn gain(self, request: StateSyncRequest) -> int {
        let guess = (self.min_until_guess->0).0;
        if request.until < guess {
            0
        } else if request.from <= guess {
            request.until - self.start(request)
        } else {
            request.until - request.from
        }
    }

    /// Whether a handled request can be counted.
    pub open spec fn can_count(self, request: StateSyncRequest) -> bool {
        &&& self.end_target == Some(SeqNum(request.target))
        &&& self.min_until_guess is Some
        &&& self.base(request) <= u64::MAX
        &&& self.gain(request) >= 0
        &&& self.base(request) + self.gain(request) <= u64::MAX
    }

    /// A request was handled.
    pub open spec fn counted(self, request: StateSyncRequest) -> Progress {
        Progress {
            start_target: Some(SeqNum(self.start(request))),
            current_progress: Some((self.base(request) + self.gain(request)) as u64),
            ..self
        }
    }

    /// Counts a handled request; tells whether it could be counted.
    pub fn update_handled_request(&mut self, request: &StateSyncRequest) -> (r: bool)
        ensures
            r == old(self).can_count(*request),
            *final(self) == if r {
                old(self).counted(*request)
            } else {
                *old(self)
            },
    {
        match self.end_target {
            Some(end) => if end.0 != request.target {
                return false;
            },
            None => {
                return false;
            },
        }
        let guess = match self.min_until_guess {
            Some(guess) => guess.0,
            None => {
                return false;
            },
        };
        let start = match self.start_target {
            Some(start) => start.0,
            None => request.from,
        };
        let base: u64 = match self.current_progress {
            Some(p) => p,
            None => {
                if request.from > u64::MAX / PROGRESS_PREFIXES {
                    return false;
                }
                request.from * PROGRESS_PREFIXES
            },
        };
        let gain: u64 = if request.until >= guess {
            let adjusted_from = if request.from <= guess {
                start
            } else {
                request.from
            };
            if adjusted_from > request.until {
                return false;
            }
            request.until - adjusted_from
        } else {
            0
        };
        if gain > u64::MAX - base {
            return false;
        }
        self.start_target = Some(SeqNum(start));
        self.current_progress = Some(base + gain);
        true
    }

    /// The target was reached.
    pub open spec fn reached(self, number: u64) -> Progress {
        Progress { start_target: Some(SeqNum(number)), current_progress: None, ..self }
    }

    /// The target, block `number`, was reached.
    pub fn update_reached_target(&mut self, number: u64)
        requires
            old(self).end_target == Some(SeqNum(number)),
        ensures
            *final(self) == old(self).reached(number),
    {
        self.start_target = Some(SeqNum(number));
        self.current_progress = None;
    }

    /// Whether there can be an estimate: the way does not end before it starts.
    pub open spec fn spec_is_sound(&self) -> bool {
        self.start_target is Some && self.end_target is Some ==> (self.end_target->0).0
            >= (self.start_target->0).0
    }

    /// Whether there can be an estimate.
    pub fn is_sound(&self) -> (r: bool)
        ensures
            r == self.spec_is_sound(),
    {
        match (self.start_target, self.end_target) {
            (Some(start), Some(end)) => end.0 >= start.0,
            _ => true,
        }
    }

    /// How far the node is, once there is a target and a request was handled.
    pub open spec fn spec_estimate(&self) -> Option<SeqNum> {
        match (self.start_target, self.end_target) {
            (Some(start), Some(end)) => if start == end {
                Some(end)
            } else {
                match self.current_progress {
                    Some(p) => Some(SeqNum((p / PROGRESS_PREFIXES) as u64)),
                    None => None,
                }
            },
            _ => None,
        }
    }

    /// How far the node is.
    pub fn estimate(&self) -> (r: Option<SeqNum>)
        requires
            self.spec_is_sound(),
        ensures
            r == self.spec_estimate(),
    {
        match (self.start_target, self.end_target) {
            (Some(start), Some(end)) => {
                if start.0 == end.0 {
                    return Some(end);
                }
                match self.current_progress {
                    Some(p) => Some(SeqNum(p / PROGRESS_PREFIXES)),
                    None => None,
                }
            },
            _ => None,
        }
    }
}

/// A server's answer to a request, or a part of it: `response_n` is zero in all parts but the last.
/// `version` is the version of the protocol that the server speaks.
#[derive(Clone, Debug)]
pub struct StateSyncResponse {
    pub version: u32,
    pub nonce: u64,
    pub response_index: u32,
    pub request: NetworkRequest,
    pub response: Vec<Upsert>,
    pub response_n: u64,
}

/// What a node tells the rest of the system; `P` names a peer.
pub enum SyncRequest<P> {
    /// Send a request to a peer.
    Request(P, NetworkRequest),
    /// The state is that of this block.
    DoneSync(BlockHeader),
    /// Tell a peer that a response of it was taken.
    Completion(P, u64),
}

/// Why a response cannot be handled.
#[derive(Clone, Copy, Debug, PartialEq, Eq, Structural)]
pub enum SyncFault {
    /// There is no target that it could lead to.
    NoTarget,
    /// An upsert cannot be taken.
    UpsertFailed,
    /// No more upserts can be counted.
    Full,
    /// It ends no further than what is there already.
    NotAdvancing,
    /// It cannot be counted as progress.
    NotCountable,
    /// The target is reached, and there are changes that were not written.
    Uncommitted,
    /// The state is not that of the target.
    StateMismatch,
}

/// How handling a response ended.
#[derive(Clone, Copy, Debug, PartialEq, Eq, Structural)]
pub enum StepEnd {
    /// The target is not reached yet.
    Going,
    /// The target was reached.
    Reached,
    Fault(SyncFault),
}

/// What came of some responses: requests to be made, and how it ended.
pub struct ResponseOutcome {
    pub queued: Vec<StateSyncRequest>,
    pub end: StepEnd,
}

/// A node's way to the state of a block.
pub struct RustStateSync<D: StateSyncApplierDb, P> {
    pub ctx: StateSyncClientContext<D>,
    pub current_target: Option<BlockHeader>,
    pub next_target: Option<BlockHeader>,
    pub progress: Progress,
    pub pending_events: VecDeque<SyncRequest<P>>,
}

/// The requests for some prefixes, each from where it is complete.
pub open spec fn requests_for(prefixes: Seq<u64>, progress: Seq<(u64, u64)>, target: u64) -> Seq<
    StateSyncRequest,
> {
    prefixes.map_values(
        |p: u64|
            next_request(
                p,
                PREFIX_BYTES,
                target,
                progress[p as int].0,
                progress[p as int].1,
            ),
    )
}

/// Whether `after` is a session whose prefixes were requested.
pub open spec fn all_requested<D: StateSyncApplierDb>(
    before: StateSyncClientContext<D>,
    after: StateSyncClientContext<D>,
) -> bool {
    &&& after.db == before.db
    &&& after.protocol == before.protocol
    &&& after.progress == before.progress
    &&& after.target == before.target
    &&& after.current == before.current
    &&& after.pending_requests@ == Seq::<u64>::empty()
}

/// Requests every prefix that has to be requested.
fn request_pending<D: StateSyncApplierDb>(
    ctx: &mut StateSyncClientContext<D>,
    target: u64,
    queued: &mut Vec<StateSyncRequest>,
)
    requires
        old(ctx).progress@.len() == 256,
        forall|i: int|
            0 <= i < old(ctx).pending_requests@.len() ==> old(ctx).pending_requests@[i] < 256,
        target * 99 <= u64::MAX,
    ensures
        all_requested(*old(ctx), *final(ctx)),
        final(queued)@ == old(queued)@ + requests_for(
            old(ctx).pending_requests@,
            old(ctx).progress@,
            target,
        ),
{
    let pending = ctx.take_pending_requests();
    let ghost all = requests_for(pending@, ctx.progress@, target);
    let ghost before = queued@;
    let mut i: usize = 0;
    assert(queued@ =~= before + all.take(0));
    while i < pending.len()
        invariant
            i <= pending@.len(),
            ctx.progress@.len() == 256,
            forall|i: int| 0 <= i < pending@.len() ==> pending@[i] < 256,
            target * 99 <= u64::MAX,
            all == requests_for(pending@, ctx.progress@, target),
            queued@ == before + all.take(i as int),
        decreases pending@.len() - i,
    {
        let prefix = pending[i];
        let (progress, old_target) = ctx.progress[prefix as usize];
        queued.push(build_sync_request(prefix, PREFIX_BYTES, target, progress, old_target));
        assert(queued@ =~= before + all.take(i + 1));
        i = i + 1;
    }
    assert(all.take(i as int) =~= all);
}

impl<D: StateSyncApplierDb, P> RustStateSync<D, P> {
    /// What holds between calls.
    pub open spec fn wf(&self) -> bool {
        &&& self.ctx.is_settled()
        &&& self.ctx.pending_requests@ == Seq::<u64>::empty()
        &&& self.current_target is Some ==> {
            let number = self.current_target->0.number;
            &&& number * 99 <= u64::MAX
            &&& self.ctx.target is Some
            &&& self.ctx.target->0@ == self.current_target->0@
            &&& self.progress.end_target == Some(SeqNum(number))
            &&& self.progress.min_until_guess is Some
        }
        &&& self.next_target is Some ==> {
            &&& self.current_target is Some
            &&& self.next_target->0.number > self.current_target->0.number
            &&& self.next_target->0.number * 99 <= u64::MAX
        }
    }

    /// A node without a target.
    pub fn new(ctx: StateSyncClientContext<D>) -> (r: Self)
        requires
            ctx.is_settled(),
            ctx.pending_requests@ == Seq::<u64>::empty(),
        ensures
            r.ctx == ctx,
            r.current_target is None,
            r.next_target is None,
            r.progress == Progress::spec_new(),
            r.pending_events@ == Seq::<SyncRequest<P>>::empty(),
            r.wf(),
    {
        RustStateSync {
            ctx,
            current_target: None,
            next_target: None,
            progress: Progress::new(),
            pending_events: VecDeque::new(),
        }
    }

    /// Whether `t` and `q` are what becomes of `s`, and what is requested, with a target.
    pub open spec fn takes_target(s: Self, target: BlockHeader, t: Self, q: Seq<StateSyncRequest>) -> bool {
        if s.current_target is Some {
            t == RustStateSync { next_target: Some(target), ..s } && q.len() == 0
        } else {
            &&& exists|mid: StateSyncClientContext<D>| #[trigger]
                targeted(s.ctx, target@, mid) && all_requested(mid, t.ctx) && q == requests_for(
                    mid.pending_requests@,
                    mid.progress@,
                    target.number,
                )
            &&& t.current_target == Some(target)
            &&& t.next_target == s.next_target
            &&& t.progress == s.progress.with_target(target.number)
            &&& t.pending_events == s.pending_events
        }
    }

    /// Takes a target: at once, if there is none, and otherwise once the current one is reached.
    /// The result is what has to be requested.
    pub fn update_target(&mut self, target: BlockHeader) -> (r: Vec<StateSyncRequest>)
        requires
            old(self).wf(),
            target.number * 99 <= u64::MAX,
            old(self).current_target is Some ==> old(self).current_target->0.number < target.number,
            old(self).current_target is None && old(self).ctx.target is Some ==> old(
                self,
            ).ctx.target->0.number <= target.number,
        ensures
            final(self).wf(),
            Self::takes_target(*old(self), target, *final(self), r@),
    {
        let mut queued: Vec<StateSyncRequest> = Vec::new();
        if self.current_target.is_some() {
            self.next_target = Some(target);
            return queued;
        }
        self.ctx.set_target(&target);
        let ghost mid = self.ctx;
        self.progress.update_target(target.number);
        assert(targeted(old(self).ctx, target@, mid));
        request_pending(&mut self.ctx, target.number, &mut queued);
        assert(queued@ =~= requests_for(mid.pending_requests@, mid.progress@, target.number));
        self.current_target = Some(target);
        queued
    }

    /// How far the node is.
    pub fn progress_estimate(&self) -> (r: Option<SeqNum>)
        requires
            self.progress.spec_is_sound(),
        ensures
            r == self.progress.spec_estimate(),
    {
        self.progress.estimate()
    }

    /// What the rest of the system is told next.
    pub fn next_event(&mut self) -> (r: Option<SyncRequest<P>>)
        ensures
            final(self).ctx == old(self).ctx,
            final(self).current_target == old(self).current_target,
            final(self).next_target == old(self).next_target,
            final(self).progress == old(self).progress,
            if old(self).pending_events@.len() == 0 {
                r is None && final(self).pending_events@ == old(self).pending_events@
            } else {
                r == Some(old(self).pending_events@[0]) && final(self).pending_events@ == old(
                    self,
                ).pending_events@.drop_first()
            },
    {
        let r = self.pending_events.pop_front();
        proof {
            if old(self).pending_events@.len() > 0 {
                assert(self.pending_events@ =~= old(self).pending_events@.drop_first());
            }
        }
        r
    }
}

impl<D: StateSyncApplierDb, P: Copy> RustStateSync<D, P> {
    /// Whether two sessions are equally far on their way to the same target.
    pub open spec fn same_way(
        a: StateSyncClientContext<D>,
        b: StateSyncClientContext<D>,
    ) -> bool {
        &&& b.progress == a.progress
        &&& b.target == a.target
        &&& b.current == a.current
        &&& b.pending_requests == a.pending_requests
    }

    /// Whether `t` is what `s` becomes when all upserts of a response are taken.
    pub open spec fn takes_upserts(s: Self, response: StateSyncResponse, t: Self) -> bool {
        &&& Self::differs_in_session(s, t)
        &&& Self::same_way(s.ctx, t.ctx)
        &&& took(
            s.ctx.protocol@,
            s.ctx.db,
            s.ctx.current,
            upserts_view(response.response@),
            t.ctx.protocol@,
            t.ctx.db,
        )
    }

    /// What the end of a response says of its prefix.
    pub open spec fn done_of(response: StateSyncResponse) -> SyncDone {
        SyncDone { success: true, prefix: response.request.body.prefix, n: response.response_n }
    }

    /// Whether `t` and `q` are what becomes of `s`, and what is requested, when the upserts of a
    /// response are taken: its sender is told, and if the response is the last of its request, its
    /// prefix is complete up to a block.
    pub open spec fn takes_end(
        s: Self,
        from: P,
        response: StateSyncResponse,
        t: Self,
        q: Seq<StateSyncRequest>,
    ) -> bool {
        &&& t.current_target == s.current_target
        &&& t.next_target == s.next_target
        &&& t.pending_events@ == s.pending_events@.push(
            SyncRequest::Completion(from, response.nonce),
        )
        &&& if response.response_n == 0 {
            t.ctx == s.ctx && t.progress == s.progress && q.len() == 0
        } else {
            &&& t.progress == s.progress.counted(response.request.body)
            &&& exists|mid: StateSyncClientContext<D>| #[trigger]
                advanced(s.ctx, Self::done_of(response), mid) && all_requested(mid, t.ctx) && q
                    == requests_for(
                    mid.pending_requests@,
                    mid.progress@,
                    s.current_target->0.number,
                )
        }
    }

    /// Whether `t` and `q` are what becomes of `s`, and what is requested, when its target is
    /// reached: it goes on to the next target, or is done.
    pub open spec fn takes_arrival(s: Self, t: Self, q: Seq<StateSyncRequest>) -> bool {
        exists|closed: StateSyncClientContext<D>| #[trigger]
            closed_with(s.ctx, closed, true) && match s.next_target {
                Some(next) => {
                    &&& exists|mid: StateSyncClientContext<D>| #[trigger]
                        targeted(closed, next@, mid) && all_requested(mid, t.ctx) && q
                            == requests_for(mid.pending_requests@, mid.progress@, next.number)
                    &&& t.progress == s.progress.with_target(next.number)
                    &&& t.current_target == Some(next)
                    &&& t.next_target is None
                    &&& t.pending_events == s.pending_events
                },
                None => {
                    &&& t.ctx == closed
                    &&& t.progress == s.progress.reached(s.current_target->0.number)
                    &&& t.current_target is None
                    &&& t.next_target is None
                    &&& t.pending_events@ == s.pending_events@.push(
                        SyncRequest::DoneSync(s.current_target->0),
                    )
                    &&& q.len() == 0
                },
            }
    }

    /// Whether a response can say that its prefix is complete up to a block: further than before.
    pub open spec fn advances(s: Self, response: StateSyncResponse) -> bool {
        response.request.body.prefix < 256 ==> {
            let progress = s.ctx.progress@[response.request.body.prefix as int].0;
            response.response_n > progress || progress == INVALID_BLOCK_NUM
        }
    }

    /// Whether `t` is `s` up to what it received, wrote and still has to request.
    pub open spec fn differs_in_session(s: Self, t: Self) -> bool {
        t == RustStateSync { ctx: t.ctx, ..s }
    }

    /// Whether `t` is `s` with its sender told that its response was taken.
    pub open spec fn acknowledges(s: Self, from: P, response: StateSyncResponse, t: Self) -> bool {
        &&& t.current_target == s.current_target
        &&& t.next_target == s.next_target
        &&& t.progress == s.progress
        &&& t.pending_events@ == s.pending_events@.push(
            SyncRequest::Completion(from, response.nonce),
        )
    }

    /// Whether handling a response leads from `s` to `t`, requests `q` and ends with `end`. Its
    /// upserts lead to `taken`, unless one of them is not taken, and its end leads from there to
    /// `ended`, where `q_end` is requested, unless it says nothing new. Then `s` goes on, unless its
    /// target is reached.
    pub open spec fn handles_by(
        s: Self,
        from: P,
        response: StateSyncResponse,
        taken: Self,
        ended: Self,
        q_end: Seq<StateSyncRequest>,
        t: Self,
        q: Seq<StateSyncRequest>,
        end: StepEnd,
    ) -> bool {
        &&& Self::takes_upserts(s, response, taken)
        &&& match end {
            StepEnd::Fault(SyncFault::NotAdvancing) => {
                &&& response.response_n != 0
                &&& !Self::advances(s, response)
                &&& Self::acknowledges(taken, from, response, t)
                &&& t.ctx == taken.ctx
                &&& q.len() == 0
            },
            StepEnd::Fault(SyncFault::NotCountable) => {
                &&& response.response_n != 0
                &&& Self::advances(s, response)
                &&& !s.progress.can_count(response.request.body)
                &&& Self::acknowledges(taken, from, response, t)
                &&& advanced(taken.ctx, Self::done_of(response), t.ctx)
                &&& q.len() == 0
            },
            _ => {
                &&& response.response_n != 0 ==> Self::advances(s, response)
                    && s.progress.can_count(response.request.body)
                &&& Self::takes_end(taken, from, response, ended, q_end)
                &&& if !at_target(ended.ctx.progress@, ended.ctx.target) {
                    end is Going && t == ended && q == q_end
                } else if ended.ctx.protocol@.deltas != Map::<
                    Address,
                    Option<AccountDeltaView>,
                >::empty() {
                    end == StepEnd::Fault(SyncFault::Uncommitted) && t == ended && q == q_end
                } else {
                    match end {
                        StepEnd::Reached => exists|q_next: Seq<StateSyncRequest>| #[trigger]
                            Self::takes_arrival(ended, t, q_next) && q == q_end + q_next,
                        StepEnd::Fault(SyncFault::StateMismatch) => {
                            &&& closed_with(ended.ctx, t.ctx, false)
                            &&& Self::differs_in_session(ended, t)
                            &&& q == q_end
                        },
                        _ => false,
                    }
                }
            },
        }
    }

    /// Whether handling a response leads from `s` to `t`, requests `q` and ends with `end`.
    pub open spec fn handles(
        s: Self,
        from: P,
        response: StateSyncResponse,
        t: Self,
        q: Seq<StateSyncRequest>,
        end: StepEnd,
    ) -> bool {
        if s.current_target is None {
            end == StepEnd::Fault(SyncFault::NoTarget) && t == s && q.len() == 0
        } else {
            match end {
                StepEnd::Fault(SyncFault::NoTarget) => false,
                StepEnd::Fault(SyncFault::UpsertFailed) => {
                    &&& Self::differs_in_session(s, t)
                    &&& Self::same_way(s.ctx, t.ctx)
                    &&& took_until(
                        s.ctx.protocol@,
                        s.ctx.db,
                        s.ctx.current,
                        upserts_view(response.response@),
                        t.ctx.protocol@,
                        t.ctx.db,
                    )
                    &&& q.len() == 0
                },
                StepEnd::Fault(SyncFault::Full) => {
                    &&& Self::differs_in_session(s, t)
                    &&& Self::same_way(s.ctx, t.ctx)
                    &&& took_until_full(
                        s.ctx.protocol@,
                        s.ctx.db,
                        s.ctx.current,
                        upserts_view(response.response@),
                        t.ctx.protocol@,
                        t.ctx.db,
                    )
                    &&& q.len() == 0
                },
                _ => exists|taken: Self, ended: Self, q_end: Seq<StateSyncRequest>| #[trigger]
                    Self::handles_by(s, from, response, taken, ended, q_end, t, q, end),
            }
        }
    }

    fn take_end(&mut self, from: P, response: &StateSyncResponse, queued: &mut Vec<StateSyncRequest>)
        -> (r: Option<SyncFault>)
        requires
            old(self).wf(),
            old(self).current_target is Some,
            old(queued)@.len() == 0,
        ensures
            match r {
                None => {
                    &&& final(self).wf()
                    &&& Self::takes_end(*old(self), from, *response, *final(self), final(queued)@)
                    &&& response.response_n != 0 ==> Self::advances(*old(self), *response) && old(
                        self,
                    ).progress.can_count(response.request.body)
                },
                Some(SyncFault::NotAdvancing) => {
                    &&& response.response_n != 0
                    &&& !Self::advances(*old(self), *response)
                    &&& Self::acknowledges(*old(self), from, *response, *final(self))
                    &&& final(self).ctx == old(self).ctx
                    &&& final(queued)@.len() == 0
                },
                Some(SyncFault::NotCountable) => {
                    &&& response.response_n != 0
                    &&& Self::advances(*old(self), *response)
                    &&& !old(self).progress.can_count(response.request.body)
                    &&& Self::acknowledges(*old(self), from, *response, *final(self))
                    &&& advanced(old(self).ctx, Self::done_of(*response), final(self).ctx)
                    &&& final(queued)@.len() == 0
                },
                Some(_) => false,
            },
    {
        self.pending_events.push_back(SyncRequest::Completion(from, response.nonce));
        if response.response_n == 0 {
            return None;
        }
        if response.request.body.prefix < 256 {
            let progress = self.ctx.progress[response.request.body.prefix as usize].0;
            if response.response_n <= progress && progress != INVALID_BLOCK_NUM {
                return Some(SyncFault::NotAdvancing);
            }
        }
        let done = SyncDone {
            success: true,
            prefix: response.request.body.prefix,
            n: response.response_n,
        };
        self.ctx.handle_done(done);
        let ghost mid = self.ctx;
        assert(advanced(old(self).ctx, Self::done_of(*response), mid));
        if !self.progress.update_handled_request(&response.request.body) {
            return Some(SyncFault::NotCountable);
        }
        let number: u64 = match &self.current_target {
            Some(target) => target.number,
            None => 0,
        };
        request_pending(&mut self.ctx, number, queued);
        assert(queued@ =~= requests_for(mid.pending_requests@, mid.progress@, number));
        None
    }

    fn take_arrival(&mut self, queued: &mut Vec<StateSyncRequest>) -> (r: bool)
        requires
            old(self).wf(),
            old(self).current_target is Some,
            old(self).ctx.protocol@.deltas == Map::<Address, Option<AccountDeltaView>>::empty(),
        ensures
            r ==> {
                &&& final(self).wf()
                &&& exists|q: Seq<StateSyncRequest>| #[trigger]
                    Self::takes_arrival(*old(self), *final(self), q) && final(queued)@ == old(
                        queued,
                    )@ + q
            },
            !r ==> {
                &&& closed_with(old(self).ctx, final(self).ctx, false)
                &&& Self::differs_in_session(*old(self), *final(self))
                &&& final(queued)@ == old(queued)@
            },
    {
        if !self.ctx.finalize() {
            return false;
        }
        let ghost closed = self.ctx;
        assert(closed_with(old(self).ctx, closed, true));
        let mut current: Option<BlockHeader> = None;
        std::mem::swap(&mut current, &mut self.current_target);
        let mut next: Option<BlockHeader> = None;
        std::mem::swap(&mut next, &mut self.next_target);
        match next {
            Some(target) => {
                self.ctx.set_target(&target);
                let ghost mid = self.ctx;
                assert(targeted(closed, target@, mid));
                self.progress.update_target(target.number);
                let ghost q = requests_for(mid.pending_requests@, mid.progress@, target.number);
                request_pending(&mut self.ctx, target.number, queued);
                self.current_target = Some(target);
                assert(Self::takes_arrival(*old(self), *self, q));
            },
            None => {
                if let Some(target) = current {
                    self.progress.update_reached_target(target.number);
                    self.pending_events.push_back(SyncRequest::DoneSync(target));
                    let ghost q = Seq::<StateSyncRequest>::empty();
                    assert(Self::takes_arrival(*old(self), *self, q));
                    assert(queued@ =~= old(queued)@ + q);
                }
            },
        }
        true
    }

    /// Handles one response that a request waited for.
    pub fn handle_one(&mut self, from: P, response: &StateSyncResponse) -> (r: ResponseOutcome)
        requires
            old(self).wf(),
        ensures
            !(r.end is Fault) ==> final(self).wf(),
            Self::handles(*old(self), from, *response, *final(self), r.queued@, r.end),
    {
        let mut queued: Vec<StateSyncRequest> = Vec::new();
        if self.current_target.is_none() {
            return ResponseOutcome { queued, end: StepEnd::Fault(SyncFault::NoTarget) };
        }
        match self.ctx.apply_upserts(response.request.body.prefix, &response.response) {
            UpsertsOutcome::Applied => {},
            UpsertsOutcome::Refused => {
                return ResponseOutcome { queued, end: StepEnd::Fault(SyncFault::UpsertFailed) };
            },
            UpsertsOutcome::Full => {
                return ResponseOutcome { queued, end: StepEnd::Fault(SyncFault::Full) };
            },
        }
        let ghost taken = *self;
        assert(Self::takes_upserts(*old(self), *response, taken));
        if let Some(fault) = self.take_end(from, response, &mut queued) {
            let end = StepEnd::Fault(fault);
            assert(Self::handles_by(
                *old(self),
                from,
                *response,
                taken,
                taken,
                Seq::empty(),
                *self,
                queued@,
                end,
            ));
            return ResponseOutcome { queued, end };
        }
        let ghost ended = *self;
        let ghost q_end = queued@;
        assert(Self::takes_end(taken, from, *response, ended, q_end));
        let end = if !self.ctx.has_reached_target() {
            StepEnd::Going
        } else if !self.ctx.protocol.deltas.is_empty() {
            assert(self.ctx.protocol.deltas@.dom() =~= self.ctx.protocol@.deltas.dom());
            StepEnd::Fault(SyncFault::Uncommitted)
        } else {
            assert(self.ctx.protocol@.deltas =~= Map::empty());
            if self.take_arrival(&mut queued) {
                StepEnd::Reached
            } else {
                StepEnd::Fault(SyncFault::StateMismatch)
            }
        };
        assert(Self::handles_by(
            *old(self),
            from,
            *response,
            taken,
            ended,
            q_end,
            *self,
            queued@,
            end,
        ));
        ResponseOutcome { queued, end }
    }
}

impl<D: StateSyncApplierDb, P: Copy> RustStateSync<D, P> {
    /// Whether handling some responses in order, up to the first that does not end with `Going`,
    /// leads from `s` to `t`, requests `q` and ends with `end`.
    pub open spec fn handles_all(
        s: Self,
        from: P,
        responses: Seq<StateSyncResponse>,
        t: Self,
        q: Seq<StateSyncRequest>,
        end: StepEnd,
    ) -> bool
        decreases responses.len(),
    {
        if responses.len() == 0 {
            t == s && q.len() == 0 && end is Going
        } else {
            let last = responses.last();
            exists|mid: Self, q_mid: Seq<StateSyncRequest>, mid_end: StepEnd, q_last: Seq<StateSyncRequest>|
                #![trigger Self::continues(mid, q_mid, mid_end, q_last)]
                {
                    &&& Self::continues(mid, q_mid, mid_end, q_last)
                    &&& Self::handles_all(s, from, responses.drop_last(), mid, q_mid, mid_end)
                    &&& if mid_end is Going {
                        Self::handles(mid, from, last, t, q_last, end) && q == q_mid + q_last
                    } else {
                        t == mid && q == q_mid && end == mid_end
                    }
                }
        }
    }

    /// Holds of every way to go on.
    pub open spec fn continues(
        mid: Self,
        q_mid: Seq<StateSyncRequest>,
        mid_end: StepEnd,
        q_last: Seq<StateSyncRequest>,
    ) -> bool {
        true
    }

    proof fn lemma_rest_is_skipped(
        s: Self,
        from: P,
        responses: Seq<StateSyncResponse>,
        i: int,
        t: Self,
        q: Seq<StateSyncRequest>,
        end: StepEnd,
    )
        requires
            0 <= i <= responses.len(),
            Self::handles_all(s, from, responses.take(i), t, q, end),
            !(end is Going),
        ensures
            Self::handles_all(s, from, responses, t, q, end),
        decreases responses.len() - i,
    {
        if i < responses.len() {
            let more = responses.take(i + 1);
            assert(more.drop_last() =~= responses.take(i));
            assert(Self::continues(t, q, end, Seq::empty()));
            assert(Self::handles_all(s, from, more, t, q, end));
            Self::lemma_rest_is_skipped(s, from, responses, i + 1, t, q, end);
        } else {
            assert(responses.take(i) =~= responses);
        }
    }

    /// Handles the responses that requests waited for, in order, until the target is reached.
    pub fn handle_response(&mut self, from: P, responses: &Vec<StateSyncResponse>) -> (r:
        ResponseOutcome)
        requires
            old(self).wf(),
        ensures
            !(r.end is Fault) ==> final(self).wf(),
            Self::handles_all(*old(self), from, responses@, *final(self), r.queued@, r.end),
    {
        let mut queued: Vec<StateSyncRequest> = Vec::new();
        let mut i: usize = 0;
        while i < responses.len()
            invariant
                i <= responses@.len(),
                self.wf(),
                Self::handles_all(
                    *old(self),
                    from,
                    responses@.take(i as int),
                    *self,
                    queued@,
                    StepEnd::Going,
                ),
            decreases responses@.len() - i,
        {
            let ghost mid = *self;
            let ghost q_mid = queued@;
            let mut step = self.handle_one(from, &responses[i]);
            let ghost q_last = step.queued@;
            let end = step.end;
            queued.append(&mut step.queued);
            proof {
                let more = responses@.take(i + 1);
                assert(more.drop_last() =~= responses@.take(i as int));
                assert(Self::continues(mid, q_mid, StepEnd::Going, q_last));
                assert(queued@ =~= q_mid + q_last);
                assert(Self::handles_all(*old(self), from, more, *self, queued@, end));
            }
            match end {
                StepEnd::Going => {},
                _ => {
                    proof {
                        Self::lemma_rest_is_skipped(
                            *old(self),
                            from,
                            responses@,
                            i + 1,
                            *self,
                            queued@,
                            end,
                        );
                    }
                    return ResponseOutcome { queued, end };
                },
            }
            i = i + 1;
        }
        assert(responses@.take(i as int) =~= responses@);
        ResponseOutcome { queued, end: StepEnd::Going }
    }
}

/// Whether a response is looked at: its sender is trusted and speaks a version that this node
/// understands.
pub fn accepts_response(trusted: bool, compatible: bool) -> (r: bool)
    ensures
        r == (trusted && compatible),
{
    trusted && compatible
}

/// What is done with the timer that wakes a waiting node.
#[derive(Clone, Copy, Debug, PartialEq, Eq, Structural)]
pub enum TimerPlan {
    /// There is none.
    Clear,
    /// It stays.
    Keep,
    /// It is moved.
    Reset(u64),
    /// It is started.
    Start(u64),
}

/// What is done with the timer, which is set to `current`, so that it goes off at `wanted`.
pub fn plan_timer(current: Option<u64>, wanted: Option<u64>) -> (r: TimerPlan)
    ensures
        r == match (current, wanted) {
            (_, None) => TimerPlan::Clear,
            (None, Some(t)) => TimerPlan::Start(t),
            (Some(c), Some(t)) => if c == t {
                TimerPlan::Keep
            } else {
                TimerPlan::Reset(t)
            },
        },
{
    match (current, wanted) {
        (_, None) => TimerPlan::Clear,
        (None, Some(t)) => TimerPlan::Start(t),
        (Some(c), Some(t)) => if c == t {
            TimerPlan::Keep
        } else {
            TimerPlan::Reset(t)
        },
    }
}

/// A node that reached its target estimates that it is there.
pub proof fn lemma_reached_target_is_the_estimate(p: Progress, number: u64)
    requires
        p.end_target == Some(SeqNum(number)),
    ensures
        p.reached(number).spec_is_sound(),
        p.reached(number).spec_estimate() == Some(SeqNum(number)),
{
}

/// Handling a request never takes progress back.
pub proof fn lemma_progress_never_falls(p: Progress, request: StateSyncRequest)
    requires
        p.can_count(request),
    ensures
        p.counted(request).current_progress is Some,
        p.current_progress is Some ==> p.counted(request).current_progress->0
            >= p.current_progress->0,
        p.counted(request).end_target == p.end_target,
{
}

/// A target counts as reached only when the database has the state root of the target.
pub proof fn lemma_reached_only_with_its_state<D: StateSyncApplierDb, P: Copy>(
    s: RustStateSync<D, P>,
    from: P,
    response: StateSyncResponse,
    t: RustStateSync<D, P>,
    q: Seq<StateSyncRequest>,
)
    requires
        s.wf(),
        RustStateSync::handles(s, from, response, t, q, StepEnd::Reached),
    ensures
        s.current_target is Some,
        exists|db: D| #[trigger]
            call_ensures(D::state_root, (&db,), s.current_target->0.state_root),
{
    let (taken, ended, q_end) = choose|
        taken: RustStateSync<D, P>,
        ended: RustStateSync<D, P>,
        q_end: Seq<StateSyncRequest>,
    | #[trigger]
        RustStateSync::handles_by(
            s,
            from,
            response,
            taken,
            ended,
            q_end,
            t,
            q,
            StepEnd::Reached,
        );
    let q_next = choose|q_next: Seq<StateSyncRequest>| #[trigger]
        RustStateSync::takes_arrival(ended, t, q_next) && q == q_end + q_next;
    let closed = choose|closed: StateSyncClientContext<D>| #[trigger]
        closed_with(ended.ctx, closed, true);
    assert(ended.ctx.target == s.ctx.target);
    assert(s.ctx.target->0@.state_root == s.current_target->0@.state_root);
    assert(call_ensures(D::state_root, (&ended.ctx.db,), s.current_target->0.state_root));
}

/// A response that brings nothing and completes nothing is taken: its sender is told, and a node
/// that is not at its target stays where it is.
pub proof fn lemma_empty_response_changes_nothing<D: StateSyncApplierDb, P: Copy>(
    s: RustStateSync<D, P>,
    from: P,
    response: StateSyncResponse,
    t: RustStateSync<D, P>,
    q: Seq<StateSyncRequest>,
    end: StepEnd,
)
    requires
        s.current_target is Some,
        !at_target(s.ctx.progress@, s.ctx.target),
        response.response@.len() == 0,
        response.response_n == 0,
        RustStateSync::handles(s, from, response, t, q, end),
    ensures
        end is Going,
        q.len() == 0,
        RustStateSync::acknowledges(s, from, response, t),
        RustStateSync::<D, P>::same_way(s.ctx, t.ctx),
        t.ctx.protocol@ == s.ctx.protocol@,
        t.ctx.db == s.ctx.db,
{
    assert(upserts_view(response.response@).len() == 0);
    let (taken, ended, q_end) = choose|
        taken: RustStateSync<D, P>,
        ended: RustStateSync<D, P>,
        q_end: Seq<StateSyncRequest>,
    | #[trigger]
        RustStateSync::handles_by(s, from, response, taken, ended, q_end, t, q, end);
    assert(RustStateSync::takes_upserts(s, response, taken));
}

/// A node that gets a target while it has one keeps it for later, and asks for nothing.
pub proof fn lemma_next_target_waits<D: StateSyncApplierDb, P: Copy>(
    s: RustStateSync<D, P>,
    target: BlockHeader,
    t: RustStateSync<D, P>,
    q: Seq<StateSyncRequest>,
)
    requires
        s.current_target is Some,
        RustStateSync::takes_target(s, target, t, q),
    ensures
        q.len() == 0,
        t.next_target == Some(target),
        t.current_target == s.current_target,
        t.ctx == s.ctx,
        t.progress == s.progress,
        t.pending_events == s.pending_events,
{
}

/// Each prefix that has to be requested is, in its turn: the request is for this prefix, on the way to
/// this target, and starts after the block that the prefix is complete up to.
pub proof fn lemma_requests_go_on_from_progress(
    prefixes: Seq<u64>,
    progress: Seq<(u64, u64)>,
    target: u64,
    i: int,
)
    requires
        0 <= i < prefixes.len(),
        progress[prefixes[i] as int].0 < target || progress[prefixes[i] as int].0 == u64::MAX,
        target < u64::MAX,
    ensures
        requests_for(prefixes, progress, target).len() == prefixes.len(),
        ({
            let r = requests_for(prefixes, progress, target)[i];
            let (done, old_target) = progress[prefixes[i] as int];
            &&& r.prefix == prefixes[i]
            &&& r.prefix_bytes == 1
            &&& r.target == target
            &&& r.old_target == old_target
            &&& r.from == if done == u64::MAX {
                0
            } else {
                done + 1
            }
            &&& r.from <= r.until <= target
        }),
{
    lemma_request_goes_on_where_it_stopped(
        prefixes[i],
        PREFIX_BYTES,
        target,
        progress[prefixes[i] as int].0,
        progress[prefixes[i] as int].1,
    );
}

/// A node without a target that gets one asks for all 256 prefixes, each once, unless its database is
/// complete up to the target.
pub proof fn lemma_first_target_asks_for_all_prefixes<D: StateSyncApplierDb, P: Copy>(
    s: RustStateSync<D, P>,
    target: BlockHeader,
    t: RustStateSync<D, P>,
    q: Seq<StateSyncRequest>,
)
    requires
        s.wf(),
        s.current_target is None,
        RustStateSync::takes_target(s, target, t, q),
    ensures
        t.current_target == Some(target),
        t.progress.end_target == Some(SeqNum(target.number)),
        t.ctx.pending_requests@.len() == 0,
        q.len() == 0 || (q.len() == 256 && forall|i: int|
            0 <= i < 256 ==> (#[trigger] q[i]).prefix == i && q[i].target == target.number
                && q[i].old_target == s.ctx.progress@[i].1),
        q.len() == 0 ==> call_ensures(D::get_latest_version, (&s.ctx.db,), target.number),
{
    let mid = choose|mid: StateSyncClientContext<D>| #[trigger]
        targeted(s.ctx, target@, mid) && all_requested(mid, t.ctx) && q == requests_for(
            mid.pending_requests@,
            mid.progress@,
            target.number,
        );
    lemma_target_has_every_prefix_requested(s.ctx, target@, mid);
}

/// A response that is taken is acknowledged to its sender, under its own number, and to no one else;
/// one that is not the last of its request asks for nothing.
pub proof fn lemma_response_is_acknowledged<D: StateSyncApplierDb, P: Copy>(
    s: RustStateSync<D, P>,
    from: P,
    response: StateSyncResponse,
    t: RustStateSync<D, P>,
    q: Seq<StateSyncRequest>,
)
    requires
        RustStateSync::takes_end(s, from, response, t, q),
    ensures
        t.pending_events@.len() == s.pending_events@.len() + 1,
        t.pending_events@.drop_last() == s.pending_events@,
        t.pending_events@.last() is Completion,
        t.pending_events@.last()->Completion_0 == from,
        t.pending_events@.last()->Completion_1 == response.nonce,
        response.response_n == 0 ==> q.len() == 0 && t.ctx == s.ctx && t.progress == s.progress,
        t.current_target == s.current_target,
        t.next_target == s.next_target,
{
    assert(t.pending_events@.drop_last() =~= s.pending_events@);
}

/// The last response to a request completes its prefix up to the block that it names; if that is not
/// the target, what is asked for next is this prefix, from the block after on.
pub proof fn lemma_last_response_completes_its_prefix<D: StateSyncApplierDb, P: Copy>(
    s: RustStateSync<D, P>,
    from: P,
    response: StateSyncResponse,
    t: RustStateSync<D, P>,
    q: Seq<StateSyncRequest>,
    i: int,
)
    requires
        s.wf(),
        s.current_target is Some,
        RustStateSync::takes_end(s, from, response, t, q),
        response.response_n != 0,
        response.response_n <= s.current_target->0.number,
        response.request.body.prefix < 256,
        0 <= i < 256,
    ensures
        t.ctx.progress@[response.request.body.prefix as int].0 == response.response_n,
        i != response.request.body.prefix ==> t.ctx.progress@[i] == s.ctx.progress@[i],
        response.response_n == s.current_target->0.number ==> q.len() == 0,
        response.response_n != s.current_target->0.number ==> {
            &&& q.len() == 1
            &&& q[0].prefix == response.request.body.prefix
            &&& q[0].from == response.response_n + 1
            &&& q[0].target == s.current_target->0.number
            &&& q[0].until <= q[0].target
            &&& q[0].old_target == s.current_target->0.number
        },
{
    let done = RustStateSync::<D, P>::done_of(response);
    let mid = choose|mid: StateSyncClientContext<D>| #[trigger]
        advanced(s.ctx, done, mid) && all_requested(mid, t.ctx) && q == requests_for(
            mid.pending_requests@,
            mid.progress@,
            s.current_target->0.number,
        );
    let target = s.current_target->0.number;
    assert(s.ctx.target->0@.number == s.current_target->0@.number);
    lemma_complete_prefix_is_noted(s.ctx, done, mid, i);
    if response.response_n != target {
        assert(mid.pending_requests@ =~= seq![response.request.body.prefix]);
        lemma_requests_go_on_from_progress(mid.pending_requests@, mid.progress@, target, 0);
    }
}

/// A node that reaches its target and has no other one tells so, once, with the header of the target.
pub proof fn lemma_arrival_is_told<D: StateSyncApplierDb, P: Copy>(
    s: RustStateSync<D, P>,
    t: RustStateSync<D, P>,
    q: Seq<StateSyncRequest>,
)
    requires
        s.current_target is Some,
        RustStateSync::takes_arrival(s, t, q),
    ensures
        s.next_target is None ==> {
            &&& t.current_target is None
            &&& t.pending_events@.len() == s.pending_events@.len() + 1
            &&& t.pending_events@.last() is DoneSync
            &&& t.pending_events@.last()->DoneSync_0 == s.current_target->0
            &&& t.progress.start_target == Some(SeqNum(s.current_target->0.number))
            &&& t.progress.current_progress is None
            &&& q.len() == 0
        },
        s.next_target is Some ==> {
            &&& t.current_target == s.next_target
            &&& t.pending_events == s.pending_events
            &&& t.progress.end_target == Some(SeqNum(s.next_target->0.number))
        },
        t.next_target is None,
{
}

/// The first target fixes where most of the state is expected to be complete: 10000 blocks below it,
/// and not below block 0. Later targets only move the end.
pub proof fn lemma_first_target_fixes_the_guess(p: Progress, number: u64)
    ensures
        ({
            let q = p.with_target(number);
            &&& q.end_target == Some(SeqNum(number))
            &&& q.start_target == p.start_target
            &&& q.current_progress == p.current_progress
            &&& p.min_until_guess is Some ==> q.min_until_guess == p.min_until_guess
            &&& p.min_until_guess is None ==> q.min_until_guess is Some
            &&& p.min_until_guess is None && number >= 10_000 ==> (q.min_until_guess->0).0 + 10_000
                == number
            &&& p.min_until_guess is None && number < 10_000 ==> (q.min_until_guess->0).0 == 0
        }),
{
}

/// A handled request that ends below the guess counts for nothing; one that starts above it counts for
/// its blocks; the one that crosses it counts for all blocks since the start.
pub proof fn lemma_progress_counts_blocks(p: Progress, request: StateSyncRequest)
    requires
        p.can_count(request),
        p.current_progress is Some,
        p.start_target is Some,
    ensures
        ({
            let guess = (p.min_until_guess->0).0;
            let q = p.counted(request);
            let gained = q.current_progress->0 - p.current_progress->0;
            &&& q.start_target == p.start_target
            &&& request.until < guess ==> gained == 0
            &&& request.until >= guess && request.from > guess ==> gained == request.until
                - request.from
            &&& request.until >= guess && request.from <= guess ==> gained == request.until - (
            p.start_target->0).0
        }),
{
}

/// The first request that is handled fixes where the way started: each of the 256 prefixes had the
/// blocks before it.
pub proof fn lemma_first_request_fixes_the_start(p: Progress, request: StateSyncRequest)
    requires
        p.can_count(request),
        p.current_progress is None,
        p.start_target is None,
    ensures
        p.counted(request).start_target == Some(SeqNum(request.from)),
        p.counted(request).current_progress is Some,
        request.until < (p.min_until_guess->0).0 ==> p.counted(request).current_progress->0
            == request.from * 256,
        request.until >= (p.min_until_guess->0).0 ==> p.counted(request).current_progress->0
            == request.from * 256 + (request.until - request.from),
{
}

/// The estimate is the mean over the 256 prefixes, once a request was handled, and there is none
/// before.
pub proof fn lemma_estimate_is_the_mean(p: Progress)
    ensures
        p.start_target is None || p.end_target is None ==> p.spec_estimate() is None,
        p.start_target is Some && p.start_target == p.end_target ==> p.spec_estimate()
            == p.end_target,
        p.start_target is Some && p.end_target is Some && p.start_target != p.end_target ==> {
            &&& p.current_progress is None ==> p.spec_estimate() is None
            &&& p.current_progress is Some ==> p.spec_estimate() is Some && (
            p.spec_estimate()->0).0 * 256 <= p.current_progress->0 < ((p.spec_estimate()->0).0 + 1)
                * 256
        },
{
}

/// A response that completes its prefix goes further than what was there before; one that does not is a
/// fault, and so is one on the way to another target. A node without a target takes no response.
pub proof fn lemma_responses_go_further<D: StateSyncApplierDb, P: Copy>(
    s: RustStateSync<D, P>,
    from: P,
    response: StateSyncResponse,
    t: RustStateSync<D, P>,
    q: Seq<StateSyncRequest>,
    end: StepEnd,
)
    requires
        RustStateSync::handles(s, from, response, t, q, end),
    ensures
        s.current_target is None ==> end == StepEnd::Fault(SyncFault::NoTarget) && t == s && q.len()
            == 0,
        s.current_target is Some ==> end != StepEnd::Fault(SyncFault::NoTarget),
        end == StepEnd::Fault(SyncFault::NotAdvancing) ==> {
            &&& response.response_n != 0
            &&& response.request.body.prefix < 256
            &&& s.ctx.progress@[response.request.body.prefix as int].0 != u64::MAX
            &&& response.response_n <= s.ctx.progress@[response.request.body.prefix as int].0
        },
        (end is Going || end is Reached) && response.response_n != 0 ==> {
            &&& s.progress.end_target == Some(SeqNum(response.request.body.target))
            &&& response.request.body.prefix < 256 ==> response.response_n
                > s.ctx.progress@[response.request.body.prefix as int].0
                || s.ctx.progress@[response.request.body.prefix as int].0 == u64::MAX
        },
{
    if (end is Going || end is Reached) && s.current_target is Some {
        let (taken, ended, q_end) = choose|
            taken: RustStateSync<D, P>,
            ended: RustStateSync<D, P>,
            q_end: Seq<StateSyncRequest>,
        | #[trigger]
            RustStateSync::handles_by(s, from, response, taken, ended, q_end, t, q, end);
        assert(RustStateSync::takes_upserts(s, response, taken));
    }
}

/// A node goes on only as long as a prefix is not complete up to its target.
pub proof fn lemma_node_goes_on_until_all_prefixes_are_complete<D: StateSyncApplierDb, P: Copy>(
    s: RustStateSync<D, P>,
    from: P,
    response: StateSyncResponse,
    t: RustStateSync<D, P>,
    q: Seq<StateSyncRequest>,
)
    requires
        s.wf(),
        RustStateSync::handles(s, from, response, t, q, StepEnd::Going),
    ensures
        s.current_target is Some,
        t.current_target == s.current_target,
        t.ctx.target is Some,
        t.ctx.target->0.number == u64::MAX || exists|i: int|
            0 <= i < t.ctx.progress@.len() && (#[trigger] t.ctx.progress@[i]).0
                != t.ctx.target->0.number,
{
    let (taken, ended, q_end) = choose|
        taken: RustStateSync<D, P>,
        ended: RustStateSync<D, P>,
        q_end: Seq<StateSyncRequest>,
    | #[trigger]
        RustStateSync::handles_by(s, from, response, taken, ended, q_end, t, q, StepEnd::Going);
    assert(t == ended);
    assert(!at_target(t.ctx.progress@, t.ctx.target));
}

/// Every response that is handled while a node goes on is acknowledged to its sender, once and in its
/// turn, under its own number.
pub proof fn lemma_every_response_is_acknowledged<D: StateSyncApplierDb, P: Copy>(
    s: RustStateSync<D, P>,
    from: P,
    responses: Seq<StateSyncResponse>,
    t: RustStateSync<D, P>,
    q: Seq<StateSyncRequest>,
)
    requires
        RustStateSync::handles_all(s, from, responses, t, q, StepEnd::Going),
    ensures
        t.pending_events@.len() == s.pending_events@.len() + responses.len(),
        forall|i: int|
            0 <= i < s.pending_events@.len() ==> #[trigger] t.pending_events@[i]
                == s.pending_events@[i],
        forall|i: int|
            s.pending_events@.len() <= i < t.pending_events@.len() ==> #[trigger] t.pending_events@[i]
                == SyncRequest::Completion(from, responses[i - s.pending_events@.len()].nonce),
    decreases responses.len(),
{
    if responses.len() > 0 {
        let rest = responses.drop_last();
        let (mid, q_mid, mid_end, q_last) = choose|
            mid: RustStateSync<D, P>,
            q_mid: Seq<StateSyncRequest>,
            mid_end: StepEnd,
            q_last: Seq<StateSyncRequest>,
        |
            #![trigger RustStateSync::continues(mid, q_mid, mid_end, q_last)]
            {
                &&& RustStateSync::continues(mid, q_mid, mid_end, q_last)
                &&& RustStateSync::handles_all(s, from, rest, mid, q_mid, mid_end)
                &&& if mid_end is Going {
                    RustStateSync::handles(
                        mid,
                        from,
                        responses.last(),
                        t,
                        q_last,
                        StepEnd::Going,
                    ) && q == q_mid + q_last
                } else {
                    t == mid && q == q_mid && StepEnd::Going == mid_end
                }
            };
        lemma_every_response_is_acknowledged(s, from, rest, mid, q_mid);
        let (taken, ended, q_end) = choose|
            taken: RustStateSync<D, P>,
            ended: RustStateSync<D, P>,
            q_end: Seq<StateSyncRequest>,
        | #[trigger]
            RustStateSync::handles_by(
                mid,
                from,
                responses.last(),
                taken,
                ended,
                q_end,
                t,
                q_last,
                StepEnd::Going,
            );
        assert(t == ended);
        assert(taken.pending_events == mid.pending_events);
        assert(t.pending_events@ == mid.pending_events@.push(
            SyncRequest::Completion(from, responses.last().nonce),
        ));
        let n = s.pending_events@.len();
        assert forall|i: int| n <= i < t.pending_events@.len() implies #[trigger] t.pending_events@[i]
            == SyncRequest::Completion(from, responses[i - n].nonce) by {
            if i < mid.pending_events@.len() {
                assert(mid.pending_events@[i] == SyncRequest::Completion(from, rest[i - n].nonce));
            }
        }
        assert forall|i: int| 0 <= i < n implies #[trigger] t.pending_events@[i]
            == s.pending_events@[i] by {
            assert(mid.pending_events@[i] == s.pending_events@[i]);
        }
    }
}

} // verus!
