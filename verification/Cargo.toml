[package]
name = "dsgit"
version = "0.1.0"
edition = "2021"
publish = false

[dependencies]
anyhow = "1"
console = "0.15"
hex = "0.4"
sha1 = "0.10"
similar = { version = "2", features = ["inline"] }
walkdir = "2"
