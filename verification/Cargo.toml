[package]
name = "ipcs"
version = "0.1.0"
edition = "2021"
publish = false

[dependencies]
multihash = "=0.13.2"
cid = "=0.6.1"
bs58 = "=0.4.0"
hamming = "=0.1.3"
serde = { version = "1", features = ["derive"] }
serde_json = "1"
futures = "0.3"
log = "0.4"
env_logger = { version = "0.8", default-features = false }
clap = { version = "2", default-features = false }
url = "2"
anyhow = "1"
tokio = { version = "1", features = ["rt-multi-thread", "macros", "sync", "net", "io-util"] }
reqwest = { version = "0.11", default-features = false, features = ["json"] }
warp = { version = "0.3", default-features = false }
wasmer = { version = "=4.4.0", default-features = false, features = ["sys", "singlepass"] }
