[package]
name = "httpcodec"
version = "0.1.0"
edition = "2021"
publish = false

[dependencies]
sha2 = "*"
anyhow = "*"
tokio = { version = "*", features = ["full"] }
reqwest = { version = "*", default-features = false }
