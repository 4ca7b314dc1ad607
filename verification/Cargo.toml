[package]
name = "term_engine"
version = "0.1.0"
edition = "2021"
publish = false

[dependencies]
base64 = "0.22"
chacha20poly1305 = "0.10"
keyring = { version = "3", default-features = false, features = ["linux-native"] }
rand_core = { version = "0.6", features = ["getrandom"] }
portable-pty = "*"
serde = { version = "1", features = ["derive"] }
serde_json = "1"
