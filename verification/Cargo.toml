[package]
name = "ome"
version = "0.1.0"
edition = "2021"
publish = false

[dependencies]
clap = "2"
enum-display-derive = "0.1"
log = "0.4"
pretty_env_logger = "0.4"
serde = { version = "1", features = ["derive"] }
serde_json = "1"
tokio = { version = "1", features = ["full"] }
warp = "0.3"
web3 = { version = "0.19", default-features = false }
