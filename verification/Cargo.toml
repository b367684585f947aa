[package]
name = "pool_arbitrage"
version = "0.1.0"
edition = "2021"
publish = false

[dependencies]
petgraph = "=0.6.5"
totsu = "=0.10.2"
totsu_core = "=0.1.1"
good_lp = { version = "=1.15.3", default-features = false, features = ["microlp"] }
ethers = { version = "=2.0.14", default-features = false }
serde = { version = "=1.0.229", features = ["derive"] }
serde_json = "=1.0.154"
