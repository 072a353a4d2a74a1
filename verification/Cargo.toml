[package]
name = "lionfs"
version = "3.6.0"
edition = "2021"
publish = false

[dependencies]
blake3 = { version = "1", features = ["pure"] }
crc32fast = "1"
flate2 = "1"
fuser = { version = "*", default-features = false }
io-uring = "*"
log = "0.4"
lz4_flex = "*"
sha2 = "0.10"
xxhash-rust = { version = "0.8", features = ["xxh64"] }
zstd = "0.13"
