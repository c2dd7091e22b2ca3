//! What an RPC server is made of, from how it is configured.

use vstd::prelude::*;

verus! {

/// How many chain states are remembered for users.
pub const CHAIN_STATE_BUFFER_LEN: usize = 1024;

/// How many seconds pass between two reports of metrics.
pub const METRICS_INTERVAL_SECS: u64 = 5;

/// A pool of workers that calls are executed by.
#[derive(Clone, Copy, Debug, PartialEq, Eq, Structural)]
pub struct PoolConfig {
    pub num_threads: u32,
    pub num_fibers: u32,
    pub timeout_sec: u32,
    pub queue_limit: u32,
}

/// How a server is configured, as far as it decides what the server is made of.
#[derive(Clone, Copy, Debug)]
pub struct RpcConfig {
    /// Whether there is a path to the state.
    pub has_triedb_path: bool,
    pub has_s3_bucket: bool,
    pub has_region: bool,
    pub has_archive_url: bool,
    pub has_archive_api_key: bool,
    pub has_mongo_db_name: bool,
    pub has_mongo_url: bool,
    pub has_otel_endpoint: bool,
    pub has_comparison_endpoint: bool,
    pub ws_enabled: bool,
    pub eth_call_executor_threads: u32,
    pub eth_call_executor_fibers: u32,
    pub eth_call_executor_queuing_timeout: u32,
    pub eth_call_max_concurrent_requests: u32,
    pub eth_call_high_executor_threads: u32,
    pub eth_call_high_executor_fibers: u32,
    pub eth_call_high_executor_queuing_timeout: u32,
    pub eth_call_high_max_concurrent_requests: u32,
    pub eth_trace_block_executor_threads: u32,
    pub eth_trace_block_executor_fibers: u32,
    pub eth_trace_block_executor_queuing_timeout: u32,
    pub eth_trace_block_max_concurrent_requests: u32,
    pub eth_trace_tx_executor_fibers: u32,
}

/// The pools of workers of a server.
#[derive(Clone, Copy, Debug, PartialEq, Eq, Structural)]
pub struct EthCallPools {
    pub low: PoolConfig,
    pub high: PoolConfig,
    pub block: PoolConfig,
    pub tx_exec_num_fibers: u32,
}

/// What a server is made of.
#[derive(Clone, Copy, Debug, PartialEq, Eq, Structural)]
pub struct ServerPlan {
    /// Whether the archive in the cloud is opened.
    pub open_aws: bool,
    /// Whether the archive in the document store is opened.
    pub open_mongo: bool,
    /// The pools that calls are executed by, if there is state to execute them on.
    pub eth_call: Option<EthCallPools>,
    /// How many requests are executed at the same time at most.
    pub concurrent_requests: u32,
    pub report_metrics: bool,
    /// Whether users are told of blocks.
    pub serve_events: bool,
    /// Whether users expect to be told of blocks and cannot be.
    pub events_missing: bool,
    /// Whether the states of the chain are remembered for users.
    pub buffer_chain_state: bool,
    /// Whether there is a chain whose state users can ask for.
    pub chain_state: bool,
    pub compare_responses: bool,
    /// Whether users are told of blocks over web sockets.
    pub serve_websocket: bool,
}

impl RpcConfig {
    /// What a server that is configured like this is made of, where `has_events` tells whether the
    /// engine tells it of blocks.
    pub open spec fn spec_plan(&self, has_events: bool) -> ServerPlan {
        ServerPlan {
            open_aws: self.has_s3_bucket && self.has_region && self.has_archive_url
                && self.has_archive_api_key,
            open_mongo: self.has_mongo_db_name && self.has_mongo_url,
            eth_call: if self.has_triedb_path {
                Some(
                    EthCallPools {
                        low: PoolConfig {
                            num_threads: self.eth_call_executor_threads,
                            num_fibers: self.eth_call_executor_fibers,
                            timeout_sec: self.eth_call_executor_queuing_timeout,
                            queue_limit: self.eth_call_max_concurrent_requests,
                        },
                        high: PoolConfig {
                            num_threads: self.eth_call_high_executor_threads,
                            num_fibers: self.eth_call_high_executor_fibers,
                            timeout_sec: self.eth_call_high_executor_queuing_timeout,
                            queue_limit: self.eth_call_high_max_concurrent_requests,
                        },
                        block: PoolConfig {
                            num_threads: self.eth_trace_block_executor_threads,
                            num_fibers: self.eth_trace_block_executor_fibers,
                            timeout_sec: self.eth_trace_block_executor_queuing_timeout,
                            queue_limit: self.eth_trace_block_max_concurrent_requests,
                        },
                        tx_exec_num_fibers: self.eth_trace_tx_executor_fibers,
                    },
                )
            } else {
                None
            },
            concurrent_requests: self.eth_call_max_concurrent_requests,
            report_metrics: self.has_otel_endpoint,
            serve_events: has_events,
            events_missing: self.ws_enabled && !has_events,
            buffer_chain_state: has_events,
            chain_state: self.has_triedb_path,
            compare_responses: self.has_comparison_endpoint,
            serve_websocket: has_events && self.ws_enabled,
        }
    }

    fn low_pool(&self) -> (r: PoolConfig)
        ensures
            self.has_triedb_path ==> r == (self.spec_plan(true).eth_call->0).low,
    {
        PoolConfig {
            num_threads: self.eth_call_executor_threads,
            num_fibers: self.eth_call_executor_fibers,
            timeout_sec: self.eth_call_executor_queuing_timeout,
            queue_limit: self.eth_call_max_concurrent_requests,
        }
    }

    fn high_pool(&self) -> (r: PoolConfig)
        ensures
            self.has_triedb_path ==> r == (self.spec_plan(true).eth_call->0).high,
    {
        PoolConfig {
            num_threads: self.eth_call_high_executor_threads,
            num_fibers: self.eth_call_high_executor_fibers,
            timeout_sec: self.eth_call_high_executor_queuing_timeout,
            queue_limit: self.eth_call_high_max_concurrent_requests,
        }
    }

    fn block_pool(&self) -> (r: PoolConfig)
        ensures
            self.has_triedb_path ==> r == (self.spec_plan(true).eth_call->0).block,
    {
        PoolConfig {
            num_threads: self.eth_trace_block_executor_threads,
            num_fibers: self.eth_trace_block_executor_fibers,
            timeout_sec: self.eth_trace_block_executor_queuing_timeout,
            queue_limit: self.eth_trace_block_max_concurrent_requests,
        }
    }

    /// What a server that is configured like this is made of.
    pub fn plan(&self, has_events: bool) -> (r: ServerPlan)
        ensures
            r == self.spec_plan(has_events),
    {
        let eth_call = if self.has_triedb_path {
            Some(
                EthCallPools {
                    low: self.low_pool(),
                    high: self.high_pool(),
                    block: self.block_pool(),
                    tx_exec_num_fibers: self.eth_trace_tx_executor_fibers,
                },
            )
        } else {
            None
        };
        ServerPlan {
            open_aws: self.has_s3_bucket && self.has_region && self.has_archive_url
                && self.has_archive_api_key,
            open_mongo: self.has_mongo_db_name && self.has_mongo_url,
            eth_call,
            concurrent_requests: self.eth_call_max_concurrent_requests,
            report_metrics: self.has_otel_endpoint,
            serve_events: has_events,
            events_missing: self.ws_enabled && !has_events,
            buffer_chain_state: has_events,
            chain_state: self.has_triedb_path,
            compare_responses: self.has_comparison_endpoint,
            serve_websocket: has_events && self.ws_enabled,
        }
    }
}

/// Where data of old blocks is read from.
#[derive(Clone, Copy, Debug, PartialEq, Eq, Structural)]
pub enum ArchiveChoice {
    Nowhere,
    Aws,
    /// From the document store; `fallback` tells whether the archive in the cloud steps in.
    Mongo { fallback: bool },
}

/// Where data of old blocks is read from. `aws_opened` and `mongo_opened` tell which archives were
/// opened: an archive that was not configured was not, nor one that failed to open.
pub fn choose_archive(aws_opened: bool, mongo_opened: bool) -> (r: ArchiveChoice)
    ensures
        r == if mongo_opened {
            ArchiveChoice::Mongo { fallback: aws_opened }
        } else if aws_opened {
            ArchiveChoice::Aws
        } else {
            ArchiveChoice::Nowhere
        },
{
    if mongo_opened {
        ArchiveChoice::Mongo { fallback: aws_opened }
    } else if aws_opened {
        ArchiveChoice::Aws
    } else {
        ArchiveChoice::Nowhere
    }
}

/// What the channel gave that chain states are remembered from.
#[derive(Clone, Copy, Debug, PartialEq, Eq, Structural)]
pub enum CacheInput {
    Event,
    Lagged(u64),
    Closed,
}

/// What is done with it.
#[derive(Clone, Copy, Debug, PartialEq, Eq, Structural)]
pub enum CacheStep {
    Insert,
    Skip,
    Stop,
}

/// What is done with what the channel gave: events that were missed are left out, and nothing is
/// remembered once the channel is closed.
pub fn cache_step(input: CacheInput) -> (r: CacheStep)
    ensures
        r == match input {
            CacheInput::Event => CacheStep::Insert,
            CacheInput::Lagged(_) => CacheStep::Skip,
            CacheInput::Closed => CacheStep::Stop,
        },
{
    match input {
        CacheInput::Event => CacheStep::Insert,
        CacheInput::Lagged(_) => CacheStep::Skip,
        CacheInput::Closed => CacheStep::Stop,
    }
}

/// Web sockets are served only where events are, and a server that has to do without events says
/// so exactly when users asked for web sockets.
pub proof fn lemma_websocket_needs_events(config: RpcConfig, has_events: bool)
    ensures
        config.spec_plan(has_events).serve_websocket ==> config.spec_plan(has_events).serve_events,
        config.ws_enabled ==> config.spec_plan(has_events).serve_websocket != config.spec_plan(
            has_events,
        ).events_missing,
        !config.ws_enabled ==> !config.spec_plan(has_events).serve_websocket && !config.spec_plan(
            has_events,
        ).events_missing,
{
}

/// An archive is opened only if all that it takes is configured: in the cloud a bucket, a region, a url
/// and a key, and in the document store a database and a url.
pub proof fn lemma_archives_need_their_configuration(config: RpcConfig, has_events: bool)
    ensures
        config.spec_plan(has_events).open_aws <==> {
            &&& config.has_s3_bucket
            &&& config.has_region
            &&& config.has_archive_url
            &&& config.has_archive_api_key
        },
        config.spec_plan(has_events).open_mongo <==> {
            &&& config.has_mongo_db_name
            &&& config.has_mongo_url
        },
{
}

/// Calls are executed only where there is state, each kind by the pool that is configured for it: with
/// its threads, its fibers, its timeout, and a queue as long as the requests that are taken at a time.
pub proof fn lemma_pools_are_as_configured(config: RpcConfig, has_events: bool)
    ensures
        ({
            let plan = config.spec_plan(has_events);
            &&& plan.eth_call is Some <==> config.has_triedb_path
            &&& plan.chain_state <==> config.has_triedb_path
            &&& plan.concurrent_requests == config.eth_call_max_concurrent_requests
            &&& plan.report_metrics <==> config.has_otel_endpoint
            &&& plan.compare_responses <==> config.has_comparison_endpoint
            &&& plan.serve_events <==> has_events
            &&& plan.buffer_chain_state <==> has_events
            &&& plan.eth_call is Some ==> {
                let pools = plan.eth_call->0;
                &&& pools.low.num_threads == config.eth_call_executor_threads
                &&& pools.low.num_fibers == config.eth_call_executor_fibers
                &&& pools.low.timeout_sec == config.eth_call_executor_queuing_timeout
                &&& pools.low.queue_limit == config.eth_call_max_concurrent_requests
                &&& pools.high.num_threads == config.eth_call_high_executor_threads
                &&& pools.high.num_fibers == config.eth_call_high_executor_fibers
                &&& pools.high.timeout_sec == config.eth_call_high_executor_queuing_timeout
                &&& pools.high.queue_limit == config.eth_call_high_max_concurrent_requests
                &&& pools.block.num_threads == config.eth_trace_block_executor_threads
                &&& pools.block.num_fibers == config.eth_trace_block_executor_fibers
                &&& pools.block.timeout_sec == config.eth_trace_block_executor_queuing_timeout
                &&& pools.block.queue_limit == config.eth_trace_block_max_concurrent_requests
                &&& pools.tx_exec_num_fibers == config.eth_trace_tx_executor_fibers
            }
        }),
{
}

} // verus!
