[package]
name = "shm_map"
version = "0.1.0"
edition = "2021"
publish = false

[dependencies]
anyhow = "1"
byteorder = "1"
log = "0.4"
nix = "0.20"
twox-hash = { version = "1", default-features = false }
