[package]
name = "melt"
version = "0.1.0"
edition = "2021"
publish = false

[dependencies]
anyhow = "=1.0.104"
ndarray = { version = "=0.17.2", features = ["serde"] }
seq_io = "=0.3.4"
serde = { version = "=1.0.229", features = ["derive"] }
serde_json = "=1.0.151"
