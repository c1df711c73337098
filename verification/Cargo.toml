[package]
name = "miden_replay"
version = "0.1.0"
edition = "2021"
publish = false

[dependencies]
miden-crypto = "=0.28.1"
miden-core = "=0.23.5"
miden-air = "=0.23.5"
miden-assembly-syntax = "=0.23.5"
smallvec = "=1.15.2"
serde = { version = "1", features = ["derive"] }
serde-wincode = "*"
thiserror = "2"
tracing = "0.1"
