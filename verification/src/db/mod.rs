//! A database with proposed blocks in memory on top of finalized blocks in storage.

pub mod adapter;
pub mod bridge;
pub mod merge;
pub mod overlay;
pub mod state_backend;
pub mod statesync;
pub mod store;
pub mod stored;
pub mod stored_sync;
