[package]
name = "senba_research"
version = "0.1.0"
edition = "2021"
publish = false

[dependencies]
crossbeam-epoch = "0.9"
ittapi = "0.4"
mini-moka = "0.10"
moka = { version = "0.12", features = ["sync"] }
parking_lot = "0.12"
xxhash-rust = { version = "0.8", features = ["xxh3"] }
zstd = "0.13"
