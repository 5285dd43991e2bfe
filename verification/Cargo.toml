[package]
name = "surp_core"
version = "0.1.0"
edition = "2021"
publish = false

[dependencies]
xxhash-rust = { version = "0.8", features = ["xxh64", "xxh3"] }
crc32fast = "1"
lz4_flex = "0.11"
snap = "1"
zstd = "0.13"
base64 = "0.22"
serde_json = "1"
