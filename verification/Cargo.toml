[package]
name = "rnacos"
version = "0.1.0"
edition = "2021"
publish = false

[dependencies]
actix = "0.13"
anyhow = "1"
async-raft-ext = "*"
bean_factory = "*"
chrono = "0.4"
log = "0.4"
md5 = "0.7"
serde = { version = "1", features = ["derive"] }
serde_json = "1"
sled = "0.34"
tokio = { version = "1", features = ["rt", "sync", "time"] }
