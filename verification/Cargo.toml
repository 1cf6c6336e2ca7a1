[package]
name = "infisearch"
version = "0.1.0"
edition = "2021"
publish = false

[dependencies]
regex = "1"
byteorder = "1"
bitvec = "1"
serde = { version = "1", features = ["derive"] }
serde_json = "1"
log = "0.4"
rust-stemmers = "1"
strsim = "0.10"
