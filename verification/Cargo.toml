[package]
name = "nostr_db"
version = "0.1.0"
edition = "2021"
publish = false

[dependencies]
hex = "=0.4.3"
rkyv = { version = "=0.7.46", features = ["validation", "archive_le", "strict"] }
zstd = "=0.14.3"
thiserror = "=1.0.69"
parking_lot = "=0.12.5"
libc = "=0.2.191"
lmdb-master-sys = "=0.2.6"
