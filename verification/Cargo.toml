[package]
name = "parser"
version = "0.1.0"
edition = "2021"
publish = false

[dependencies]
byteorder = "1"
csv = "1"
serde = { version = "1", features = ["derive"] }
serde_json = "1"
thiserror = "2"
clap = { version = "4", features = ["derive"] }
anyhow = "1"
