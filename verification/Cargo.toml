[package]
name = "shardscape"
version = "0.1.0"
edition = "2021"
publish = false

[dependencies]
anyhow = "=1.0.104"
async-trait = "0.1"
base64 = "=0.22.1"
blake3 = "=1.8.7"
bytes = "=1.12.1"
clap = { version = "4", features = ["derive"] }
fastcdc = "=3.2.1"
futures-util = "0.3"
hex = "=0.4.3"
http-body = "1"
http-body-util = "0.1"
hyper = { version = "1", features = ["full"] }
hyper-util = { version = "0.1", features = ["full"] }
libc = "0.2"
md-5 = "=0.10.6"
rand = "=0.8.8"
reqwest = { version = "0.12", default-features = false, features = ["json"] }
rusqlite = { version = "=0.41.1", features = ["bundled"] }
s3s = "=0.11.1"
serde = { version = "1", features = ["derive"] }
serde_json = "1"
snow = "=0.10.0"
tokio = { version = "1", features = ["full"] }
toml = "0.8"
tracing = "0.1"
tracing-subscriber = "0.3"
uuid = { version = "=1.29.0", features = ["v4"] }
