[package]
name = "casper_state"
version = "0.1.0"
edition = "2021"
publish = false

[dependencies]
blake2 = "0.9"
rand = "0.8"
hex = "0.4"
serde = { version = "1", features = ["derive"] }
serde_json = "1"
futures = "0.3"
jsonrpc-lite = "0.5"
reqwest = { version = "0.11", default-features = false, features = ["json"] }
