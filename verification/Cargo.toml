[package]
name = "ygg"
version = "0.1.0"
edition = "2021"
publish = false

[dependencies]
blake3 = "*"
glob = "*"
clap = { version = "4", features = ["derive"] }
colored = "*"
atty = "*"
walkdir = "*"
similar = "*"
