[package]
name = "proof_archive"
version = "0.1.0"
edition = "2021"
publish = false

[dependencies]
alloy-primitives = "=1.7.3"
anyhow = "*"
cita_trie = "=6.0.2"
cita-hasher = { version = "=0.1.0", features = ["hash-keccak"] }
clap = { version = "*", features = ["derive"] }
serde = { version = "*", features = ["derive"] }
serde_json = "*"
