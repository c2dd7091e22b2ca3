[package]
name = "monad_execution"
version = "0.1.0"
edition = "2021"
publish = false

[dependencies]
alloy-consensus = { version = "1.8", features = ["k256"] }
alloy-primitives = "1.5"
alloy-rlp = "0.3"
tiny-keccak = { version = "2", features = ["keccak"] }
dashmap = "6.1"
revm = { version = "36", default-features = false, features = ["std"] }
tokio = { version = "1", features = ["sync", "time", "rt", "rt-multi-thread", "macros"] }
clap = { version = "4", features = ["derive"] }
toml = "0.9"
tracing = "0.1"
tracing-subscriber = { version = "0.3", features = ["env-filter", "json"] }
flume = "0.11"
serde = { version = "1", features = ["derive"] }
thiserror = "2"
futures = "0.3"
async-trait = "0.1"
rocksdb = { version = "0.24", default-features = false }
