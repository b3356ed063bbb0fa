[package]
name = "runemat"
version = "0.1.0"
edition = "2021"
publish = false

[dependencies]
crypto-hash = "*"
image = { version = "*", default-features = false, features = ["png"] }
sha2 = "*"
hex = "*"
