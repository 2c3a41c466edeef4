[package]
name = "ireul"
version = "0.1.0"
edition = "2021"
publish = false

[dependencies]
byteorder = "1"
rand = "0.4"
rustc-serialize = "0.3"
time = "0.1"
url = "1.7"
toml = "0.5"
log = "0.4"
env_logger = { version = "0.10", default-features = false }
