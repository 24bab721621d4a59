[package]
name = "torrent_codec"
version = "0.1.0"
edition = "2021"
publish = false

[dependencies]
sha1 = "*"
hex = "*"
anyhow = "*"
clap = { version = "*", features = ["derive"] }
