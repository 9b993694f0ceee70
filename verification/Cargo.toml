[package]
name = "ethera"
version = "0.1.0"
edition = "2021"
publish = false

[dependencies]
alloy-consensus = { version = "=2.5.0", default-features = false, features = ["std", "k256"] }
alloy-eips = { version = "=2.5.0", default-features = false, features = ["std", "serde"] }
alloy-primitives = { version = "=1.7.3", features = ["serde"] }
hex = "*"
jsonrpsee = { version = "=0.26.1", features = ["server-core", "macros"] }
op-alloy-consensus = { version = "=2.0.0", default-features = false, features = ["std", "k256", "reth-core"] }
parking_lot = "*"
reqwest = { version = "=0.13.5", default-features = false, features = ["json"] }
reth-primitives-traits = { version = "=0.8.2", default-features = false, features = ["std"] }
revm-database = { version = "=43.0.1", default-features = false, features = ["std"] }
serde = { version = "*", features = ["derive"] }
serde_json = "=1.0.154"
thiserror = "=2.0.21"
tokio = { version = "*", features = ["rt", "sync", "time"] }
tracing = "=0.1.44"

[dev-dependencies]
alloy-signer = "=2.5.0"
alloy-signer-local = "=2.5.0"
