[package]
name = "stwo_zk"
version = "0.1.0"
edition = "2021"
publish = false

[dependencies]
rand = "=0.8.8"
thiserror = "=2.0.21"
serde = { version = "1", features = ["derive"] }
