[package]
name = "cloak"
version = "0.1.0"
edition = "2021"
publish = false

[dependencies]
anyhow = "*"
clap = { version = "*", features = ["derive"] }
colored = "*"
fs_extra = "*"
serde_json = "*"
