//! A block execution engine: block hashes, staged state, state sync, transaction pool bookkeeping
//! and the event stream that an RPC server reads.

pub mod block_cache;
pub mod block_hash;
pub mod bundle;
pub mod command;
pub mod db;
pub mod ethcall;
pub mod event_source;
pub mod events;
pub mod hashing;
pub mod header;
pub mod keymap;
pub mod mock;
pub mod persist;
pub mod primitives;
pub mod propose;
pub mod revision;
pub mod rpc;
pub mod runloop;
pub mod seqs;
pub mod statesync;
pub mod text;
pub mod traits;
pub mod transactions;
pub mod txpool;
pub mod types;
pub mod validation;
