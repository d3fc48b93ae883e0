[package]
name = "torrent_core"
version = "0.1.0"
edition = "2021"
publish = false

[dependencies]
hex = "*"
sha1 = "*"
urlencoding = "*"
serde_json = "*"
reqwest = { version = "*", default-features = false, features = ["blocking"] }
