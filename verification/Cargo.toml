[package]
name = "genesis"
version = "0.1.0"
edition = "2021"
publish = false

[dependencies]
rand = "*"
rayon = "*"
serde_json = "*"
self_update = "*"
