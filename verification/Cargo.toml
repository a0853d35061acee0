[package]
name = "xivvfs"
version = "0.1.0"
edition = "2021"
publish = false

[dependencies]
anyhow = "=1.0.104"
async-trait = "=0.1.92"
flate2 = "=1.1.10"
ironworks = { version = "=0.4.1", features = ["ffxiv", "sqpack"] }
isahc = "=2.0.1"
libunftp = "=0.23.1"
tokio = { version = "=1.53.2", features = ["full"] }
unftp-core = "=0.1.0"
