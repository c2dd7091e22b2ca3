//! How a server answers a request.

use vstd::prelude::*;

use crate::hashing::{has_prefix, keccak256_bytes, keccak_v256, starts_with};
use crate::primitives::{
    be_bytes, be_digits, lemma_bytes_at, SeqNum, B256, INVALID_BLOCK_NUM,
};
use crate::seqs::lemma_push_contains;
use crate::statesync::deletion_tracker::{DeletionLog, FinalizedDeletions};
use crate::statesync::protocol::{
    encode_bytes32_compact, next_request, parsed, upserts_view, Received,
};
use crate::statesync::types::{Deletion, StateSyncRequest, SyncDone, SyncUpsertType, Upsert};
use crate::statesync::{StateSyncError, StateSyncResult, StateSyncTraversable};
use crate::text::{decimal, decimal_string};

verus! {

/// What is wrong with a request.
pub enum RequestFault {
    PrefixTooLong,
    NoTarget,
    FromAfterUntil,
    UntilAfterTarget,
    OldTargetAfterTarget,
}

/// The first thing that is wrong with a request, if anything is.
pub open spec fn request_fault(r: StateSyncRequest) -> Option<RequestFault> {
    if r.prefix_bytes > 8 {
        Some(RequestFault::PrefixTooLong)
    } else if r.target == INVALID_BLOCK_NUM {
        Some(RequestFault::NoTarget)
    } else if r.from > r.until {
        Some(RequestFault::FromAfterUntil)
    } else if r.until > r.target {
        Some(RequestFault::UntilAfterTarget)
    } else if r.old_target != INVALID_BLOCK_NUM && r.old_target > r.target {
        Some(RequestFault::OldTargetAfterTarget)
    } else {
        None
    }
}

/// What is said of a fault.
pub open spec fn fault_message(f: RequestFault, r: StateSyncRequest) -> Seq<char> {
    match f {
        RequestFault::PrefixTooLong => "prefix_bytes > 8"@,
        RequestFault::NoTarget => "target is INVALID"@,
        RequestFault::FromAfterUntil => "from ("@ + decimal(r.from as nat) + ") > until ("@
            + decimal(r.until as nat) + ")"@,
        RequestFault::UntilAfterTarget => "until ("@ + decimal(r.until as nat) + ") > target ("@
            + decimal(r.target as nat) + ")"@,
        RequestFault::OldTargetAfterTarget => "old_target ("@ + decimal(r.old_target as nat)
            + ") > target ("@ + decimal(r.target as nat) + ")"@,
    }
}

fn exceeds(a: &str, x: u64, b: &str, y: u64) -> (r: String)
    ensures
        r@ == a@ + decimal(x as nat) + b@ + decimal(y as nat) + ")"@,
{
    String::from_str(a).concat(decimal_string(x).as_str()).concat(b).concat(
        decimal_string(y).as_str(),
    ).concat(")")
}

/// Checks a request by itself.
pub fn static_validate_request(request: &StateSyncRequest) -> (r: Result<(), StateSyncError>)
    ensures
        match r {
            Ok(()) => request_fault(*request) is None,
            Err(StateSyncError::InvalidRequest(m)) => {
                &&& request_fault(*request) is Some
                &&& m@ == fault_message(request_fault(*request)->0, *request)
            },
            Err(_) => false,
        },
{
    if request.prefix_bytes > 8 {
        return Err(StateSyncError::InvalidRequest(String::from_str("prefix_bytes > 8")));
    }
    if request.target == INVALID_BLOCK_NUM {
        return Err(StateSyncError::InvalidRequest(String::from_str("target is INVALID")));
    }
    if request.from > request.until {
        return Err(
            StateSyncError::InvalidRequest(
                exceeds("from (", request.from, ") > until (", request.until),
            ),
        );
    }
    if request.until > request.target {
        return Err(
            StateSyncError::InvalidRequest(
                exceeds("until (", request.until, ") > target (", request.target),
            ),
        );
    }
    if request.old_target != INVALID_BLOCK_NUM && request.old_target > request.target {
        return Err(
            StateSyncError::InvalidRequest(
                exceeds("old_target (", request.old_target, ") > target (", request.target),
            ),
        );
    }
    Ok(())
}

/// The first `n_bytes` bytes of the keys under a prefix.
pub fn from_prefix(prefix: u64, n_bytes: usize) -> (r: Vec<u8>)
    ensures
        r@ == be_bytes(prefix as nat, n_bytes as nat),
{
    be_digits(prefix, n_bytes)
}

/// Whether a deletion is under a prefix.
pub open spec fn under_prefix(d: Deletion, prefix: u64, prefix_bytes: u8) -> bool {
    starts_with(keccak_v256(d.address@)@, be_bytes(prefix as nat, prefix_bytes as nat))
}

/// Whether a deletion is under a prefix: the hash of the address starts with it.
pub fn deletion_matches_prefix(deletion: &Deletion, prefix: u64, prefix_bytes: u8) -> (r: bool)
    ensures
        r == under_prefix(*deletion, prefix, prefix_bytes),
{
    let hash = keccak256_bytes(deletion.address.as_slice());
    let bytes = from_prefix(prefix, prefix_bytes as usize);
    has_prefix(hash.as_slice(), bytes.as_slice())
}

/// A deletion as it is sent.
pub open spec fn deletion_upsert(d: Deletion) -> (SyncUpsertType, Seq<u8>) {
    match d.key {
        None => (SyncUpsertType::AccountDelete, d.address@),
        Some(key) => (SyncUpsertType::StorageDelete, d.address@ + key@),
    }
}

/// The deletions of one block that are sent.
pub open spec fn sent_of_block(
    deletions: Seq<Deletion>,
    prefix: u64,
    prefix_bytes: u8,
) -> Seq<(SyncUpsertType, Seq<u8>)>
    decreases deletions.len(),
{
    if deletions.len() == 0 {
        Seq::empty()
    } else {
        let rest = sent_of_block(deletions.drop_last(), prefix, prefix_bytes);
        if under_prefix(deletions.last(), prefix, prefix_bytes) {
            rest.push(deletion_upsert(deletions.last()))
        } else {
            rest
        }
    }
}

/// The first block, from `lo` on and before `hi`, whose deletions are not remembered; `hi` if there
/// is none.
pub open spec fn first_missing(log: DeletionLog, lo: int, hi: int) -> int
    decreases hi - lo,
{
    if lo >= hi || !log.blocks.contains_key(lo as u64) {
        lo
    } else {
        first_missing(log, lo + 1, hi)
    }
}

/// The deletions of the blocks from `lo` up to and without `hi` that are sent.
pub open spec fn sent(
    log: DeletionLog,
    lo: int,
    hi: int,
    prefix: u64,
    prefix_bytes: u8,
) -> Seq<(SyncUpsertType, Seq<u8>)>
    decreases hi - lo,
{
    if lo >= hi {
        Seq::empty()
    } else {
        sent(log, lo, hi - 1, prefix, prefix_bytes) + sent_of_block(
            log.blocks[(hi - 1) as u64],
            prefix,
            prefix_bytes,
        )
    }
}

fn push_deletion(upserts: &mut Vec<Upsert>, d: &Deletion)
    ensures
        upserts_view(final(upserts)@) == upserts_view(old(upserts)@).push(deletion_upsert(*d)),
{
    let mut data = vstd::slice::slice_to_vec(d.address.as_slice());
    match &d.key {
        None => {
            upserts.push((SyncUpsertType::AccountDelete, data));
        },
        Some(key) => {
            let compact = encode_bytes32_compact(key);
            data.extend_from_slice(compact.as_slice());
            assert(data@ =~= d.address@ + key@);
            upserts.push((SyncUpsertType::StorageDelete, data));
        },
    }
    assert(upserts_view(upserts@) =~= upserts_view(old(upserts)@).push(deletion_upsert(*d)));
}

fn push_block(
    upserts: &mut Vec<Upsert>,
    deletions: &Vec<Deletion>,
    prefix: u64,
    prefix_bytes: u8,
)
    ensures
        upserts_view(final(upserts)@) == upserts_view(old(upserts)@) + sent_of_block(
            deletions@,
            prefix,
            prefix_bytes,
        ),
{
    let mut i: usize = 0;
    assert(upserts_view(upserts@) =~= upserts_view(old(upserts)@) + sent_of_block(
        deletions@.take(0),
        prefix,
        prefix_bytes,
    ));
    while i < deletions.len()
        invariant
            i <= deletions@.len(),
            upserts_view(upserts@) == upserts_view(old(upserts)@) + sent_of_block(
                deletions@.take(i as int),
                prefix,
                prefix_bytes,
            ),
        decreases deletions@.len() - i,
    {
        let d = deletions[i];
        proof {
            let more = deletions@.take(i + 1);
            assert(more.drop_last() =~= deletions@.take(i as int));
            assert(more.last() == d);
        }
        if deletion_matches_prefix(&d, prefix, prefix_bytes) {
            push_deletion(upserts, &d);
        }
        assert(upserts_view(upserts@) =~= upserts_view(old(upserts)@) + sent_of_block(
            deletions@.take(i + 1),
            prefix,
            prefix_bytes,
        ));
        i = i + 1;
    }
    assert(deletions@.take(i as int) =~= deletions@);
}

/// Adds the deletions since the old target, up to the first block whose deletions are not
/// remembered. Returns whether there was no such block. A client without an old target needs none.
pub fn send_deletions(
    request: &StateSyncRequest,
    finalized_deletions: &FinalizedDeletions,
    upserts: &mut Vec<Upsert>,
) -> (r: bool)
    requires
        finalized_deletions.wf(),
        request.old_target == INVALID_BLOCK_NUM || request.old_target <= request.target,
    ensures
        request.old_target == INVALID_BLOCK_NUM ==> r && *final(upserts) == *old(upserts),
        request.old_target != INVALID_BLOCK_NUM ==> {
            let log = finalized_deletions.log();
            let stop = first_missing(log, request.old_target + 1, request.target + 1);
            &&& r == (stop == request.target + 1)
            &&& upserts_view(final(upserts)@) == upserts_view(old(upserts)@) + sent(
                log,
                request.old_target + 1,
                stop,
                request.prefix,
                request.prefix_bytes,
            )
        },
{
    if request.old_target == INVALID_BLOCK_NUM {
        return true;
    }
    let ghost log = finalized_deletions.log();
    let ghost lo = request.old_target + 1;
    let ghost hi = request.target + 1;
    let mut block_num: u64 = request.old_target;
    assert(upserts_view(upserts@) =~= upserts_view(old(upserts)@) + sent(
        log,
        lo,
        lo,
        request.prefix,
        request.prefix_bytes,
    ));
    while block_num < request.target
        invariant
            request.old_target <= block_num <= request.target,
            finalized_deletions.wf(),
            log == finalized_deletions.log(),
            lo == request.old_target + 1,
            hi == request.target + 1,
            first_missing(log, lo, hi) == first_missing(log, block_num + 1, hi),
            upserts_view(upserts@) == upserts_view(old(upserts)@) + sent(
                log,
                lo,
                block_num + 1,
                request.prefix,
                request.prefix_bytes,
            ),
        decreases request.target - block_num,
    {
        block_num = block_num + 1;
        match finalized_deletions.for_each(SeqNum(block_num)) {
            Some(deletions) => {
                push_block(upserts, &deletions, request.prefix, request.prefix_bytes);
                assert(upserts_view(upserts@) =~= upserts_view(old(upserts)@) + sent(
                    log,
                    lo,
                    block_num + 1,
                    request.prefix,
                    request.prefix_bytes,
                ));
            },
            None => {
                return false;
            },
        }
    }
    true
}

/// The block whose header is sent along with a prefix: the 256 blocks before the target each go
/// with one prefix.
pub open spec fn header_version(r: StateSyncRequest) -> Option<u64> {
    if r.prefix < 256 && r.target > r.prefix {
        Some((r.target - r.prefix - 1) as u64)
    } else {
        None
    }
}

/// Whether the deletions that a request asks for are all remembered.
pub open spec fn deletions_known(r: StateSyncRequest, log: DeletionLog) -> bool {
    r.old_target == INVALID_BLOCK_NUM || first_missing(log, r.old_target + 1, r.target + 1)
        == r.target + 1
}

/// The deletions that a request asks for.
pub open spec fn deletions_sent(r: StateSyncRequest, log: DeletionLog) -> Seq<
    (SyncUpsertType, Seq<u8>),
> {
    if r.old_target == INVALID_BLOCK_NUM {
        Seq::empty()
    } else {
        sent(log, r.old_target + 1, r.target + 1, r.prefix, r.prefix_bytes)
    }
}

/// The header that is sent.
pub open spec fn header_sent(header: Option<Vec<u8>>) -> Seq<(SyncUpsertType, Seq<u8>)> {
    match header {
        Some(data) => seq![(SyncUpsertType::Header, data@)],
        None => Seq::empty(),
    }
}

/// The first part of an answer: the header that goes with the prefix, if one does, and then the
/// deletions.
pub fn begin_answer(
    request: &StateSyncRequest,
    header: Option<Vec<u8>>,
    finalized_deletions: &FinalizedDeletions,
) -> (r: Result<Vec<Upsert>, StateSyncError>)
    requires
        finalized_deletions.wf(),
        request_fault(*request) is None,
    ensures
        match r {
            Ok(upserts) => {
                &&& deletions_known(*request, finalized_deletions.log())
                &&& upserts_view(upserts@) == header_sent(header) + deletions_sent(
                    *request,
                    finalized_deletions.log(),
                )
            },
            Err(StateSyncError::InternalError(m)) => {
                &&& !deletions_known(*request, finalized_deletions.log())
                &&& m@ == "deletion not found during sync"@
            },
            Err(_) => false,
        },
{
    let mut upserts: Vec<Upsert> = Vec::new();
    let ghost head = header_sent(header);
    if let Some(data) = header {
        upserts.push((SyncUpsertType::Header, data));
    }
    assert(upserts_view(upserts@) =~= head);
    if !send_deletions(request, finalized_deletions, &mut upserts) {
        return Err(
            StateSyncError::InternalError(String::from_str("deletion not found during sync")),
        );
    }
    assert(upserts_view(upserts@) =~= head + deletions_sent(*request, finalized_deletions.log()));
    Ok(upserts)
}

/// A whole answer: its first part, the state, and that the prefix is complete.
pub fn finish_answer(
    request: &StateSyncRequest,
    upserts: Vec<Upsert>,
    state: Vec<Upsert>,
) -> (r: StateSyncResult)
    ensures
        upserts_view(r.upserts@) == upserts_view(upserts@) + upserts_view(state@),
        r.done == (SyncDone { success: true, prefix: request.prefix, n: request.until }),
{
    let mut all = upserts;
    let mut rest = state;
    all.append(&mut rest);
    assert(upserts_view(all@) =~= upserts_view(upserts@) + upserts_view(state@));
    StateSyncResult {
        upserts: all,
        done: SyncDone { success: true, prefix: request.prefix, n: request.until },
    }
}

/// Whether `r` is an answer to a request from what `db` has and from the remembered deletions:
///
/// - a request with a fault is refused with what is said of the fault;
/// - a version that `db` does not have is refused;
/// - a header that goes with the prefix and that `db` does not have, or deletions that are not
///   remembered, are an internal error;
/// - otherwise the header, the deletions and the state are sent, in this order.
pub open spec fn answers_request<T: StateSyncTraversable>(
    r: Result<StateSyncResult, StateSyncError>,
    request: StateSyncRequest,
    db: &T,
    log: DeletionLog,
) -> bool {
    match r {
        Ok(res) => {
            &&& request_fault(request) is None
            &&& call_ensures(T::has_version, (db, request.target), true)
            &&& deletions_known(request, log)
            &&& exists|header: Option<Vec<u8>>, state: (Vec<Upsert>, bool), prefix: Vec<u8>|
                {
                    &&& prefix@ == be_bytes(request.prefix as nat, request.prefix_bytes as nat)
                    &&& match header_version(request) {
                        Some(v) => header is Some && call_ensures(
                            T::read_block_header_at,
                            (db, v),
                            header,
                        ),
                        None => header is None,
                    }
                    &&& #[trigger] call_ensures(
                        T::traverse_state,
                        (db, &prefix, request.from, request.until),
                        state,
                    )
                    &&& upserts_view(res.upserts@) == #[trigger] header_sent(
                        header,
                    ) + deletions_sent(request, log) + upserts_view(
                        state.0@,
                    )
                }
            &&& res.done == (SyncDone {
                success: true,
                prefix: request.prefix,
                n: request.until,
            })
        },
        Err(StateSyncError::InvalidRequest(m)) => {
            &&& request_fault(request) is Some
            &&& m@ == fault_message(request_fault(request)->0, request)
        },
        Err(StateSyncError::VersionNotAvailable(v)) => {
            &&& request_fault(request) is None
            &&& v == request.target
            &&& call_ensures(T::has_version, (db, request.target), false)
        },
        Err(StateSyncError::InternalError(m)) => {
            &&& request_fault(request) is None
            &&& call_ensures(T::has_version, (db, request.target), true)
            &&& {
                ||| {
                    &&& header_version(request) is Some
                    &&& call_ensures(
                        T::read_block_header_at,
                        (db, header_version(request)->0),
                        None,
                    )
                    &&& m@ == "block header not available at version "@ + decimal(
                        header_version(request)->0 as nat,
                    )
                }
                ||| {
                    &&& !deletions_known(request, log)
                    &&& m@ == "deletion not found during sync"@
                }
            }
        },
    }
}

/// Answers a request from what `db` has.
pub fn handle_sync_request<T: StateSyncTraversable>(
    request: &StateSyncRequest,
    db: &T,
    finalized_deletions: &FinalizedDeletions,
) -> (r: Result<StateSyncResult, StateSyncError>)
    requires
        finalized_deletions.wf(),
    ensures
        answers_request(r, *request, db, finalized_deletions.log()),
{
    match static_validate_request(request) {
        Ok(()) => {},
        Err(e) => {
            return Err(e);
        },
    }
    if !db.has_version(request.target) {
        return Err(StateSyncError::VersionNotAvailable(request.target));
    }
    let mut header: Option<Vec<u8>> = None;
    if request.prefix < 256 && request.target > request.prefix {
        let version = request.target - request.prefix - 1;
        match db.read_block_header_at(version) {
            Some(data) => {
                header = Some(data);
            },
            None => {
                return Err(
                    StateSyncError::InternalError(
                        String::from_str("block header not available at version ").concat(
                            decimal_string(version).as_str(),
                        ),
                    ),
                );
            },
        }
    }
    match begin_answer(request, header, finalized_deletions) {
        Ok(upserts) => {
            let prefix_bytes = from_prefix(request.prefix, request.prefix_bytes as usize);
            let state = db.traverse_state(&prefix_bytes, request.from, request.until);
            Ok(finish_answer(request, upserts, state.0))
        },
        Err(e) => Err(e),
    }
}

/// A request that a client makes on its way to a target is one that a server takes.
pub proof fn lemma_next_request_is_valid(
    prefix: u64,
    prefix_bytes: u8,
    target: u64,
    progress: u64,
    old_target: u64,
)
    requires
        prefix_bytes <= 8,
        target != INVALID_BLOCK_NUM,
        progress < target || progress == INVALID_BLOCK_NUM,
        old_target <= target || old_target == INVALID_BLOCK_NUM,
    ensures
        request_fault(next_request(prefix, prefix_bytes, target, progress, old_target)) is None,
{
}

/// A client reads from a deletion that a server sends what was deleted.
pub proof fn lemma_deletion_is_understood(d: Deletion)
    ensures
        parsed(deletion_upsert(d).0, deletion_upsert(d).1) == Some(
            match d.key {
                None => Received::Account(d.address, None),
                Some(key) => Received::Storage(d.address, key, B256::spec_zero()),
            },
        ),
{
    let data = deletion_upsert(d).1;
    assert(data.subrange(0, 20) =~= d.address@);
    lemma_bytes_at(data, 0, d.address);
    if d.key is Some {
        assert(data.subrange(20, 52) =~= d.key->0@);
        lemma_bytes_at(data, 20, d.key->0);
    }
}

/// A request is taken exactly if its prefix has at most 8 bytes, it has a target, it asks for blocks in
/// order and not beyond the target, and what it has was complete up to no later target.
pub proof fn lemma_valid_requests(r: StateSyncRequest)
    ensures
        request_fault(r) is None <==> {
            &&& r.prefix_bytes <= 8
            &&& r.target != u64::MAX
            &&& r.from <= r.until <= r.target
            &&& r.old_target == u64::MAX || r.old_target <= r.target
        },
        request_fault(r) is Some ==> match request_fault(r)->0 {
            RequestFault::PrefixTooLong => r.prefix_bytes > 8,
            RequestFault::NoTarget => r.target == u64::MAX,
            RequestFault::FromAfterUntil => r.from > r.until,
            RequestFault::UntilAfterTarget => r.until > r.target,
            RequestFault::OldTargetAfterTarget => r.old_target > r.target,
        },
        r.prefix_bytes > 8 ==> request_fault(r) == Some(RequestFault::PrefixTooLong),
{
}

/// Among the upserts that are sent for a block are exactly the deletions of the block under the prefix.
pub proof fn lemma_deletions_under_prefix_are_sent(
    deletions: Seq<Deletion>,
    prefix: u64,
    prefix_bytes: u8,
    u: (SyncUpsertType, Seq<u8>),
)
    ensures
        sent_of_block(deletions, prefix, prefix_bytes).contains(u) <==> exists|i: int|
            0 <= i < deletions.len() && deletion_upsert(#[trigger] deletions[i]) == u && starts_with(
                keccak_v256(deletions[i].address@)@,
                be_bytes(prefix as nat, prefix_bytes as nat),
            ),
    decreases deletions.len(),
{
    let sent_here = sent_of_block(deletions, prefix, prefix_bytes);
    if deletions.len() > 0 {
        let before = deletions.drop_last();
        let rest = sent_of_block(before, prefix, prefix_bytes);
        lemma_deletions_under_prefix_are_sent(before, prefix, prefix_bytes, u);
        lemma_push_contains(rest, deletion_upsert(deletions.last()));
        if rest.contains(u) {
            let i = choose|i: int|
                0 <= i < before.len() && deletion_upsert(#[trigger] before[i]) == u && starts_with(
                    keccak_v256(before[i].address@)@,
                    be_bytes(prefix as nat, prefix_bytes as nat),
                );
            assert(deletions[i] == before[i]);
            assert(sent_here.contains(u));
        } else if exists|i: int|
            0 <= i < deletions.len() && deletion_upsert(#[trigger] deletions[i]) == u && starts_with(
                keccak_v256(deletions[i].address@)@,
                be_bytes(prefix as nat, prefix_bytes as nat),
            ) {
            let i = choose|i: int|
                0 <= i < deletions.len() && deletion_upsert(#[trigger] deletions[i]) == u
                    && starts_with(
                    keccak_v256(deletions[i].address@)@,
                    be_bytes(prefix as nat, prefix_bytes as nat),
                );
            if i < before.len() {
                assert(before[i] == deletions[i]);
            }
        } else if sent_here.contains(u) {
            assert(deletions[deletions.len() - 1] == deletions.last());
        }
    }
}

proof fn lemma_first_missing(log: DeletionLog, lo: int, hi: int)
    requires
        lo <= hi,
    ensures
        lo <= first_missing(log, lo, hi) <= hi,
        first_missing(log, lo, hi) == hi <==> forall|b: int|
            lo <= b < hi ==> log.blocks.contains_key(#[trigger] (b as u64)),
    decreases hi - lo,
{
    if lo < hi && log.blocks.contains_key(lo as u64) {
        lemma_first_missing(log, lo + 1, hi);
    } else if lo < hi {
        assert(!log.blocks.contains_key(lo as u64));
    }
}

/// A request can be answered as far as deletions go exactly if those of every block after the old
/// target, up to the target, are remembered; a client that has nothing needs none.
pub proof fn lemma_deletions_of_all_blocks_are_needed(r: StateSyncRequest, log: DeletionLog)
    requires
        request_fault(r) is None,
    ensures
        r.old_target == u64::MAX ==> deletions_known(r, log) && deletions_sent(r, log).len() == 0,
        r.old_target != u64::MAX ==> (deletions_known(r, log) <==> forall|b: u64|
            r.old_target < b <= r.target ==> #[trigger] log.blocks.contains_key(b)),
{
    if r.old_target != u64::MAX {
        lemma_first_missing(log, r.old_target + 1, r.target + 1);
        if deletions_known(r, log) {
            assert forall|b: u64| r.old_target < b <= r.target implies #[trigger] log.blocks.contains_key(
                b,
            ) by {
                assert(log.blocks.contains_key(b as int as u64));
            }
        }
        if forall|b: u64| r.old_target < b <= r.target ==> #[trigger] log.blocks.contains_key(b) {
            assert forall|b: int| r.old_target + 1 <= b < r.target + 1 implies log.blocks.contains_key(
                #[trigger] (b as u64),
            ) by {}
        }
    }
}

proof fn lemma_sent(
    log: DeletionLog,
    lo: int,
    hi: int,
    prefix: u64,
    prefix_bytes: u8,
    b: int,
    u: (SyncUpsertType, Seq<u8>),
)
    requires
        lo <= b < hi,
        sent_of_block(log.blocks[b as u64], prefix, prefix_bytes).contains(u),
    ensures
        sent(log, lo, hi, prefix, prefix_bytes).contains(u),
    decreases hi - lo,
{
    let before = sent(log, lo, hi - 1, prefix, prefix_bytes);
    let last = sent_of_block(log.blocks[(hi - 1) as u64], prefix, prefix_bytes);
    if b == hi - 1 {
        let i = choose|i: int| 0 <= i < last.len() && last[i] == u;
        assert((before + last)[before.len() + i] == u);
    } else {
        lemma_sent(log, lo, hi - 1, prefix, prefix_bytes, b, u);
        let i = choose|i: int| 0 <= i < before.len() && before[i] == u;
        assert((before + last)[i] == u);
    }
}

/// Every deletion of a block after the old target, up to the target, that is under the prefix is sent,
/// in a form from which a client reads what was deleted.
pub proof fn lemma_every_deletion_is_sent(
    r: StateSyncRequest,
    log: DeletionLog,
    b: u64,
    i: int,
) -> (u: (SyncUpsertType, Seq<u8>))
    requires
        request_fault(r) is None,
        r.old_target != u64::MAX,
        r.old_target < b <= r.target,
        0 <= i < log.blocks[b].len(),
        starts_with(
            keccak_v256(log.blocks[b][i].address@)@,
            be_bytes(r.prefix as nat, r.prefix_bytes as nat),
        ),
    ensures
        deletions_sent(r, log).contains(u),
        parsed(u.0, u.1) == Some(
            match log.blocks[b][i].key {
                None => Received::Account(log.blocks[b][i].address, None),
                Some(key) => Received::Storage(
                    log.blocks[b][i].address,
                    key,
                    B256::spec_zero(),
                ),
            },
        ),
{
    let deletions = log.blocks[b];
    let u = deletion_upsert(deletions[i]);
    lemma_deletion_is_understood(deletions[i]);
    lemma_deletions_under_prefix_are_sent(deletions, r.prefix, r.prefix_bytes, u);
    assert(deletion_upsert(deletions[i]) == u);
    assert(sent_of_block(log.blocks[b as int as u64], r.prefix, r.prefix_bytes).contains(u));
    lemma_sent(log, r.old_target + 1, r.target + 1, r.prefix, r.prefix_bytes, b as int, u);
    u
}

/// The headers of the 256 blocks before the target go with the 256 prefixes: each block with one, and
/// no prefix with a block that is not among them.
pub proof fn lemma_each_header_goes_with_one_prefix(r: StateSyncRequest, b: u64)
    ensures
        header_version(r) is Some <==> r.prefix < 256 && r.prefix < r.target,
        header_version(r) is Some ==> header_version(r)->0 + r.prefix + 1 == r.target,
        b < r.target && r.target - b <= 256 ==> (header_version(r) == Some(b) <==> r.prefix
            == r.target - b - 1),
{
}

/// An answer is complete up to the last block that was asked for, and says so of the prefix that was
/// asked for; the header that goes with the prefix comes first.
pub proof fn lemma_answer_is_what_was_asked_for<T: StateSyncTraversable>(
    res: StateSyncResult,
    request: StateSyncRequest,
    db: &T,
    log: DeletionLog,
)
    requires
        answers_request(
            Ok::<StateSyncResult, StateSyncError>(res),
            request,
            db,
            log,
        ),
    ensures
        res.done.success,
        res.done.prefix == request.prefix,
        res.done.n == request.until,
        request.prefix < 256 && request.prefix < request.target ==> {
            &&& res.upserts@.len() > 0
            &&& res.upserts@[0].0 is Header
            &&& exists|header: Vec<u8>| #[trigger]
                call_ensures(
                    T::read_block_header_at,
                    (db, (request.target - request.prefix - 1) as u64),
                    Some(header),
                ) && res.upserts@[0].1@ == header@
        },
        exists|state: (Vec<Upsert>, bool), prefix: Vec<u8>|
            {
                &&& #[trigger] call_ensures(
                    T::traverse_state,
                    (db, &prefix, request.from, request.until),
                    state,
                )
                &&& prefix@ == be_bytes(request.prefix as nat, request.prefix_bytes as nat)
                &&& state.0@.len() <= res.upserts@.len()
                &&& upserts_view(res.upserts@).skip(res.upserts@.len() - state.0@.len())
                    == upserts_view(state.0@)
            },
{
    let (header, state, prefix) = choose|
        header: Option<Vec<u8>>,
        state: (Vec<Upsert>, bool),
        prefix: Vec<u8>,
    |
        {
            &&& prefix@ == be_bytes(request.prefix as nat, request.prefix_bytes as nat)
            &&& match header_version(request) {
                Some(v) => header is Some && call_ensures(
                    T::read_block_header_at,
                    (db, v),
                    header,
                ),
                None => header is None,
            }
            &&& #[trigger] call_ensures(
                T::traverse_state,
                (db, &prefix, request.from, request.until),
                state,
            )
            &&& upserts_view(res.upserts@) == #[trigger] header_sent(header) + deletions_sent(
                request,
                log,
            ) + upserts_view(state.0@)
        };
    let all = upserts_view(res.upserts@);
    let shown = upserts_view(state.0@);
    assert(all.len() == res.upserts@.len());
    assert(shown.len() == state.0@.len());
    assert(all.skip(all.len() - shown.len()) =~= shown);
    assert(call_ensures(
        T::traverse_state,
        (db, &prefix, request.from, request.until),
        state,
    ));
    if request.prefix < 256 && request.prefix < request.target {
        let v = (request.target - request.prefix - 1) as u64;
        assert(header_version(request) == Some(v));
        assert(all[0] == header_sent(header)[0]);
        assert(all[0] == (res.upserts@[0].0, res.upserts@[0].1@));
        assert(call_ensures(T::read_block_header_at, (db, v), Some(header->0)));
    }
}

proof fn lemma_sent_comes_from_a_block(
    log: DeletionLog,
    lo: int,
    hi: int,
    prefix: u64,
    prefix_bytes: u8,
    u: (SyncUpsertType, Seq<u8>),
) -> (b: int)
    requires
        sent(log, lo, hi, prefix, prefix_bytes).contains(u),
    ensures
        lo <= b < hi,
        sent_of_block(log.blocks[b as u64], prefix, prefix_bytes).contains(u),
    decreases hi - lo,
{
    let all = sent(log, lo, hi, prefix, prefix_bytes);
    let before = sent(log, lo, hi - 1, prefix, prefix_bytes);
    let last = sent_of_block(log.blocks[(hi - 1) as u64], prefix, prefix_bytes);
    let i = choose|i: int| 0 <= i < all.len() && all[i] == u;
    if i < before.len() {
        assert(before[i] == u);
        lemma_sent_comes_from_a_block(log, lo, hi - 1, prefix, prefix_bytes, u)
    } else {
        assert(last[i - before.len()] == u);
        hi - 1
    }
}

/// Nothing is sent as deleted that was not deleted, under the prefix, in a block after the old target
/// and up to the target.
pub proof fn lemma_only_deletions_are_sent(
    r: StateSyncRequest,
    log: DeletionLog,
    u: (SyncUpsertType, Seq<u8>),
) -> (at: (u64, int))
    requires
        request_fault(r) is None,
        deletions_sent(r, log).contains(u),
    ensures
        r.old_target != u64::MAX,
        r.old_target < at.0 <= r.target,
        0 <= at.1 < log.blocks[at.0].len(),
        starts_with(
            keccak_v256(log.blocks[at.0][at.1].address@)@,
            be_bytes(r.prefix as nat, r.prefix_bytes as nat),
        ),
        parsed(u.0, u.1) == Some(
            match log.blocks[at.0][at.1].key {
                None => Received::Account(log.blocks[at.0][at.1].address, None),
                Some(key) => Received::Storage(
                    log.blocks[at.0][at.1].address,
                    key,
                    B256::spec_zero(),
                ),
            },
        ),
{
    let b = lemma_sent_comes_from_a_block(
        log,
        r.old_target + 1,
        r.target + 1,
        r.prefix,
        r.prefix_bytes,
        u,
    );
    let deletions = log.blocks[b as u64];
    lemma_deletions_under_prefix_are_sent(deletions, r.prefix, r.prefix_bytes, u);
    let i = choose|i: int|
        0 <= i < deletions.len() && deletion_upsert(#[trigger] deletions[i]) == u && starts_with(
            keccak_v256(deletions[i].address@)@,
            be_bytes(r.prefix as nat, r.prefix_bytes as nat),
        );
    lemma_deletion_is_understood(deletions[i]);
    (b as u64, i)
}

/// A request is refused for its version only if the target is not there, and the target is what is named.
pub proof fn lemma_missing_target_is_named<T: StateSyncTraversable>(
    version: u64,
    request: StateSyncRequest,
    db: &T,
    log: DeletionLog,
)
    requires
        answers_request(
            Err::<StateSyncResult, StateSyncError>(StateSyncError::VersionNotAvailable(version)),
            request,
            db,
            log,
        ),
    ensures
        version == request.target,
        call_ensures(T::has_version, (db, request.target), false),
{
}

} // verus!
