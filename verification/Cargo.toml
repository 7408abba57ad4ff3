[package]
name = "alfis_core"
version = "0.1.0"
edition = "2021"
publish = false

[dependencies]
blakeout = "*"
chrono = "0.4"
ed25519-dalek = "2"
getopts = "0.2"
num_cpus = "1"
rand = "0.8"
serde = { version = "1", features = ["derive"] }
serde_json = "1"
sqlite = "*"
thread-priority = "*"
toml = "*"
