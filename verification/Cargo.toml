[package]
name = "arca"
version = "0.1.0"
edition = "2021"
publish = false

[dependencies]
blake3 = "1"
thiserror = "1"
tokio = { version = "1", features = ["macros", "rt"] }
