//! Stand-ins for a database, an executor, a signer, a call handler and a state sync provider.

pub mod db;
pub mod db_sync;
pub mod ethcall;
pub mod executor;
pub mod flow;
pub mod recovery;
pub mod statesync;
