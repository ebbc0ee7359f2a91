[package]
name = "btc_toolkit"
version = "0.1.0"
edition = "2021"
publish = false

[dependencies]
sha2 = "0.10"
pbkdf2 = "0.12"
rand_chacha = "0.3"
rand_core = { version = "0.6", features = ["getrandom"] }
blake3 = { version = "1", features = ["pure"] }
bitcoin = { version = "0.31", features = ["rand-std"] }
bdk = { version = "0.29", default-features = false, features = ["std", "electrum"] }
serde = { version = "1", features = ["derive"] }
toml = "0.8"
