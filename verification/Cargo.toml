[package]
name = "hummock"
version = "0.1.0"
edition = "2021"
publish = false

[dependencies]
anyhow = "1"
futures = "0.3"
itertools = "0.10"
log = "0.4"
serde = { version = "1", features = ["derive"] }
warp = "0.3"
