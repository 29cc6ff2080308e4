[package]
name = "cpen431"
version = "0.1.0"
edition = "2021"
publish = false

[dependencies]
crc32fast = "1"
rand = "0.8"
anyhow = "1"
thiserror = "1"
clap = { version = "4", features = ["derive"] }
tokio = { version = "1", features = ["rt-multi-thread", "net", "macros"] }
rayon = "1"
tracing = "0.1"
tracing-subscriber = "0.3"
local-ip-address = "*"

[dev-dependencies]
protobuf = "3"
