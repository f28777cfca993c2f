[package]
name = "oxen"
version = "0.1.0"
edition = "2021"
publish = false

[dependencies]
zstd = "0.13"
similar = "2"
xxhash-rust = { version = "0.8", features = ["xxh3"] }
time = { version = "0.3", features = ["formatting"] }
serde = { version = "1", features = ["derive"] }
serde_json = "1"
tokio = { version = "1", features = ["fs", "rt", "macros"] }
clap = "4"
glob = "0.3"
