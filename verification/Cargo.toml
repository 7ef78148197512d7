[package]
name = "optchain"
version = "0.1.0"
edition = "2021"
publish = false

[dependencies]
ring = "0.17"
rand = "0.8"
hex = "0.4"
log = "0.4"
serde = { version = "1", features = ["derive"] }
serde_json = "1"
bincode = "1"
clap = "2"
smol = "1"
tiny_http = "0.12"
url = "2"

[dev-dependencies]
hex-literal = "0.4"
