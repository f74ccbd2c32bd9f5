[package]
name = "creamui"
version = "0.1.0"
edition = "2021"
publish = false

[dependencies]
serde = { version = "1", features = ["derive"] }
toml = "0.8"
ksni = { version = "0.3", features = ["blocking"] }
