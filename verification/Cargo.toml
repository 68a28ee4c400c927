[package]
name = "provider_data"
version = "0.1.0"
edition = "2021"
publish = false

[dependencies]
serde = { version = "1", features = ["derive"] }
tinystr = { version = "=0.7.1", features = ["zerovec", "serde"] }
zerovec = { version = "0.9", features = ["derive", "serde"] }
