[package]
name = "logspike_core"
version = "0.1.0"
edition = "2021"
publish = false

[dependencies]
memchr = "2"
regex = "1"
aho-corasick = "1"
serde = { version = "1", features = ["derive"] }
serde_json = "1"
notify = "6"
memmap2 = "0.9"
crossbeam-channel = "0.5"
parking_lot = "0.12"
dashmap = "6"
thiserror = "1"
tracing = "0.1"
tracing-subscriber = { version = "0.3", features = ["env-filter", "fmt"] }
tokio = { version = "1", features = ["rt", "rt-multi-thread"] }
