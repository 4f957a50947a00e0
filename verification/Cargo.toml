[package]
name = "magic_mount"
version = "0.1.0"
edition = "2021"
publish = false

[dependencies]
regex-lite = "0.1"
java-properties = "2"
encoding_rs = "0.8"
fastrand = "2"
serde = { version = "1", features = ["derive"] }
serde_json = "1"
toml = "0.8"
thiserror = "2"
log = "0.4"
env_logger = "0.11"
extattr = "1"
rustix = { version = "1", features = ["mount", "fs"] }
tempfile = "3"
