[package]
name = "mastic"
version = "0.1.0"
edition = "2021"
publish = false

[dependencies]
blake3 = { version = "1", default-features = false, features = ["pure"] }
rand = "0.8"
serde_json = "1"
clap = "2"
