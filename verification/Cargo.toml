[package]
name = "range-cache"
version = "0.1.0"
edition = "2021"
publish = false

[dependencies]
async-trait = "0.1"
bytes = "1"
futures-util = "0.3"
parking_lot = "0.12"
thiserror = "2"
tokio = { version = "1", features = ["macros", "rt", "sync"] }
