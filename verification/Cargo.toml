[package]
name = "request-shadow"
version = "0.1.0"
edition = "2021"
publish = false

[dependencies]
sha2 = "0.10"
bytes = "1"
async-trait = "0.1"
thiserror = "1"
tokio = { version = "1", features = ["time", "macros", "rt", "rt-multi-thread", "sync"] }
