[package]
name = "cask"
version = "0.1.0"
edition = "2021"
publish = false

[dependencies]
byteorder = "=1.5.0"
fs2 = "=0.4.3"
regex = "=1.13.1"
xxhash-rust = { version = "*", features = ["xxh32", "xxh64"] }
