[package]
name = "ordwoj"
version = "0.1.0"
edition = "2021"
publish = false

[dependencies]
serde = { version = "1", features = ["derive"] }
serde_json = "1"
bitcoin = "0.29"
bitcoincore-rpc = "0.16"
hex = "0.4"
redb = "*"
clap = { version = "4", features = ["derive"] }
