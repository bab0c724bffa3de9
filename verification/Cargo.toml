[package]
name = "tsg"
version = "0.1.0"
edition = "2021"
publish = false

[dependencies]
zstd = "*"
sha2 = "*"
serde_json = "*"
clap = { version = "*", features = ["derive"] }
