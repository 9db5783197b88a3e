[package]
name = "bittorrent_core"
version = "0.1.0"
edition = "2021"
publish = false

[dependencies]
sha1 = "*"
url = "*"
hex = "*"
reqwest = { version = "*", default-features = false, features = ["blocking"] }
