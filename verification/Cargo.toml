[package]
name = "skylight"
version = "0.1.0"
edition = "2021"
publish = false

[dependencies]
anyhow = "*"
cid = "*"
clap = { version = "*", features = ["derive"] }
futures-util = "*"
governor = "*"
heed = "*"
reqwest = { version = "*", default-features = false }
rs-car = "*"
serde = { version = "*", features = ["derive"] }
serde_json = "*"
sha2 = "*"
tokio = { version = "*", features = ["rt-multi-thread", "macros", "time", "sync", "net"] }
tokio-tungstenite = "*"

[dev-dependencies]
ciborium = "*"
