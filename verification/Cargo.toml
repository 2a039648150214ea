[package]
name = "dir_cursor"
version = "0.1.0"
edition = "2021"
publish = false

[dependencies]
base64 = "0.13"
mime = "0.3"
log = "0.4"
env_logger = { version = "0.10", default-features = false }
serde_json = "1"
