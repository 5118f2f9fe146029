[package]
name = "surch_index"
version = "0.1.0"
edition = "2021"
publish = false

[dependencies]
fst = "0.4"
blake3 = "1"
constant_time_eq = "0.3"
crc32fast = "1"
serde_json = "1"
thiserror = "1"
