//! What the node tells its users.

pub mod blocks;
pub mod event_server;
pub mod server;
pub mod tx;
