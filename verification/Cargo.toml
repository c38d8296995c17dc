[package]
name = "monad_core"
version = "0.1.0"
edition = "2021"
publish = false

[dependencies]
alloy-primitives = "=1.7.3"
alloy-json-abi = "=1.7.3"
hex = "=0.4.3"
revm = { version = "=43.0.3", features = ["optional_eip3607", "optional_no_base_fee", "optional_fee_charge"] }
serde = { version = "=1.0.229", features = ["derive"] }
serde_json = "=1.0.154"
sha2 = "=0.10.9"
