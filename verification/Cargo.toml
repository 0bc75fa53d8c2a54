[package]
name = "locat"
version = "0.1.0"
edition = "2021"
publish = false

[dependencies]
thiserror = "=2.0.21"
derive_more = { version = "=2.1.1", features = ["try_unwrap"] }
