[package]
name = "reth_kit"
version = "0.1.0"
edition = "2021"
publish = false

[dependencies]
alloy-eips = "*"
alloy-primitives = "*"
alloy-rpc-types-eth = "*"
clap = { version = "4", features = ["derive"] }
eyre = "0.6"
futures = "0.3"
regex = "1"
revm-interpreter = "*"
tokio = { version = "1", features = ["rt", "time"] }
tracing = "0.1"
