[package]
name = "kiseki_log"
version = "0.1.0"
edition = "2021"
publish = false

[dependencies]
async-trait = "=0.1.92"
fjall = "=3.1.13"
futures = "=0.3.34"
openraft = { version = "=0.9.25", features = ["serde", "storage-v2"] }
postcard = { version = "=1.1.3", features = ["use-std"] }
prometheus = { version = "=0.14.0", default-features = false }
serde = { version = "=1.0.229", features = ["derive"] }
thiserror = "=2.0.21"
tokio = { version = "=1.54.1", features = ["full"] }
tonic = "=0.14.9"
tracing = "=0.1.44"
uuid = { version = "=1.29.0", features = ["v4"] }
