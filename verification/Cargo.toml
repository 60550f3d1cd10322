[package]
name = "arbhx_local"
version = "0.1.0"
edition = "2021"
publish = false

[dependencies]
arbhx-core = "*"
async-trait = "0.1"
async-walkdir = "*"
chrono = "0.4"
filetime = "0.2"
futures-lite = "*"
sysinfo = "*"
tokio = { version = "1", features = ["fs", "io-util", "rt", "macros"] }
uuid = { version = "1", features = ["v4"] }
