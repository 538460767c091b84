[package]
name = "ascfix"
version = "0.1.0"
edition = "2021"
publish = false

[dependencies]
anyhow = "1"
colored = "*"
lexopt = "0.3"
serde = { version = "1", features = ["derive"] }
serde_json = "1"
similar = "2"
toml = "*"
