[package]
name = "padoc"
version = "0.1.0"
edition = "2021"
publish = false

[dependencies]
ahash = "0.8"
regex = "1"
serde = { version = "1", features = ["derive"] }
serde_json = "1"
rmp-serde = "1"
zstd = "0.13"
flate2 = "1"
humansize = "2"
thiserror = "1"
