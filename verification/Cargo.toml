[package]
name = "payjoin_core"
version = "0.1.0"
edition = "2021"
publish = false

[dependencies]
ohttp = "*"
url = "*"
base64 = "*"
payjoin = "*"
reqwest = { version = "*", default-features = false }
