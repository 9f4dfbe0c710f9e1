[package]
name = "redish"
version = "0.1.0"
edition = "2021"
publish = false

[dependencies]
crc32fast = "1"
lz4 = "1"
zstd = "0.13"
snap = "1"
growable-bloom-filter = "2"
serde_json = "1"
bincode = "2"
thiserror = "2"
log = "0.4"
