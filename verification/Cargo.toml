[package]
name = "delayed_hits"
version = "0.1.0"
edition = "2021"
publish = false

[dependencies]
ahash = { version = "=0.8.12", default-features = false }
linked-hash-map = "=0.5.6"
clap = { version = "4", features = ["derive"] }
tokio = { version = "1", features = ["rt-multi-thread", "macros", "net", "io-util", "sync", "time"] }
tracing = "0.1"
tracing-subscriber = "0.3"
csv = "1"
bincode = "1"
serde = { version = "1", features = ["derive"] }
toml = "*"
rand = "0.8"
rand_distr = "0.4"
rand_xorshift = "0.3"
npy = "*"
etherparse = "*"
pcap-file = "*"
async-channel = "*"
thiserror = "*"

[dev-dependencies]
