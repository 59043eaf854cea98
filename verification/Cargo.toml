[package]
name = "fake"
version = "0.1.0"
edition = "2021"
publish = false

[dependencies]
cranelift-entity = "0.103"
figment = { version = "0.10", features = ["toml"] }
serde = { version = "1.0", features = ["derive"] }
