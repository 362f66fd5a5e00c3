[package]
name = "txfs"
version = "0.1.0"
edition = "2021"
publish = false

[dependencies]
freqfs = "*"
futures = "*"
get-size = "*"
hr-id = "*"
log = "*"
safecast = "*"
txn_lock = "*"
tokio = { version = "*", features = ["rt-multi-thread", "macros"] }
