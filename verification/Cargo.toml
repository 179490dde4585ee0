[package]
name = "rustsptag"
version = "0.1.0"
edition = "2021"
publish = false

[dependencies]
zstd = "0.13"
crossbeam = "0.8"
rand = "0.8"
serde = { version = "1", features = ["derive"] }
serde_json = "1"
tokio = { version = "1", features = ["rt", "rt-multi-thread", "macros"] }
futures = "0.3"
libc = "0.2"
