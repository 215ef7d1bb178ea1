[package]
name = "pybag_rs"
version = "0.1.0"
edition = "2021"
publish = false

[dependencies]
byteorder = "1"
crc32fast = "1"
lz4 = "1"
zstd = "0.13"
memmap2 = "0.9"
thiserror = "1"
