//! Answering peers from within the node.

use vstd::prelude::*;

use crate::statesync::session::StateSyncResponse;
use crate::statesync::types::NetworkRequest;
use crate::statesync::version::STATESYNC_VERSION;
use crate::statesync::{StateSyncError, StateSyncProvider, StateSyncResult};

verus! {

/// What peers send.
pub enum StateSyncNetworkMessage {
    Request(NetworkRequest),
    Response(StateSyncResponse),
    Completion(u64),
    Other,
}

/// What a message is answered with.
pub enum ServerAction {
    /// This is sent back.
    Answer(StateSyncResponse),
    /// Nothing is sent, because the request cannot be answered.
    Failed(StateSyncError),
    /// Nothing has to be done.
    Nothing,
    /// The message is not one that a server gets.
    Unexpected,
}

/// Whether `r` is the answer to a request that the provider answered with `result`.
pub open spec fn answer_of(
    request: NetworkRequest,
    result: Result<StateSyncResult, StateSyncError>,
    r: ServerAction,
) -> bool {
    match (result, r) {
        (Ok(ok), ServerAction::Answer(response)) => response == (StateSyncResponse {
            version: STATESYNC_VERSION,
            nonce: 0,
            response_index: 0,
            request,
            response: ok.upserts,
            response_n: ok.done.n,
        }),
        (Err(e), ServerAction::Failed(f)) => f == e,
        _ => false,
    }
}

/// The answer to a request that the provider answered with `result`: all upserts in one response,
/// which tells the version of the protocol that this node speaks.
pub fn build_answer(
    request: NetworkRequest,
    result: Result<StateSyncResult, StateSyncError>,
) -> (r: ServerAction)
    ensures
        answer_of(request, result, r),
{
    match result {
        Ok(ok) => ServerAction::Answer(
            StateSyncResponse {
                version: STATESYNC_VERSION,
                nonce: 0,
                response_index: 0,
                request,
                response: ok.upserts,
                response_n: ok.done.n,
            },
        ),
        Err(e) => ServerAction::Failed(e),
    }
}

/// What a message is answered with. Completions need nothing, since answers are not batched.
pub fn serve_message<S: StateSyncProvider>(provider: &S, message: StateSyncNetworkMessage) -> (r:
    ServerAction)
    requires
        provider.wf(),
    ensures
        match message {
            StateSyncNetworkMessage::Request(request) => exists|result: Result<
                StateSyncResult,
                StateSyncError,
            >| #[trigger]
                call_ensures(S::handle_sync_request, (provider, &request.body), result) && answer_of(
                    request,
                    result,
                    r,
                ),
            StateSyncNetworkMessage::Completion(_) => r is Nothing,
            _ => r is Unexpected,
        },
{
    match message {
        StateSyncNetworkMessage::Request(request) => {
            let result = provider.handle_sync_request(&request.body);
            build_answer(request, result)
        },
        StateSyncNetworkMessage::Completion(_) => ServerAction::Nothing,
        _ => ServerAction::Unexpected,
    }
}

/// A request that can be answered is answered with all upserts of the answer, in one response that
/// names the request and tells up to which block its prefix is complete; one that cannot is not
/// answered, and the error is the one that stood in the way.
pub proof fn lemma_answer_carries_the_whole_result(
    request: NetworkRequest,
    result: Result<StateSyncResult, StateSyncError>,
    r: ServerAction,
)
    requires
        answer_of(request, result, r),
    ensures
        result is Ok ==> {
            &&& r is Answer
            &&& r->Answer_0.request == request
            &&& r->Answer_0.response == result->Ok_0.upserts
            &&& r->Answer_0.response_n == result->Ok_0.done.n
            &&& r->Answer_0.version == 1
            &&& r->Answer_0.response_index == 0
            &&& r->Answer_0.nonce == 0
        },
        result is Err ==> r is Failed && r->Failed_0 == result->Err_0,
{
}

} // verus!
