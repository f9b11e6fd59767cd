[package]
name = "velocidb"
version = "0.1.0"
edition = "2021"
publish = false

[dependencies]
dashmap = "5"
crossbeam-queue = "0.3"
regex = "1"
lru = "0.12"
parking_lot = "0.12"
tokio = { version = "1", features = ["fs", "io-util", "rt-multi-thread", "macros", "sync"] }
async-trait = "0.1"
memmap2 = "0.9"
libc = "0.2"
serde = { version = "1", features = ["derive"] }
thiserror = "1"
tracing = "0.1"
tracing-subscriber = "0.3"
bytes = "1"
anyhow = "1"
