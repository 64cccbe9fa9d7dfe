[package]
name = "bkchainsaw"
version = "0.1.0"
edition = "2021"
publish = false

[dependencies]
byteorder = "1"
sha2 = "0.10"
memmap = "0.7"
serde = { version = "1", features = ["derive"] }
serde_cbor = "0.11"
serde_json = "1"
chrono = "0.4"
structopt = "0.3"
tempfile = "3"
