[package]
name = "matching_engine"
version = "0.1.0"
edition = "2021"
publish = false

[dependencies]
alloy = { version = "1", default-features = false }
alloy-primitives = { version = "1", features = ["getrandom", "rand", "serde"] }
alloy-sol-types = "1"
eyre = "0.6"
rand = "0.8"
serde = { version = "1", features = ["derive"] }
tracing = "0.1"
uniswap_v3_math = "0.6"
