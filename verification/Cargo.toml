[package]
name = "rtt_rpc"
version = "0.1.0"
edition = "2021"
publish = false

[dependencies]
cobs = "0.2"
heapless = { version = "0.8", features = ["serde"] }
postcard = { version = "1", features = ["alloc"] }
postcard-rpc = { version = "0.11", default-features = false }
postcard-schema = { version = "0.2", features = ["derive", "heapless-v0_8"] }
serde = { version = "1", features = ["derive"] }
tokio = { version = "1", features = ["rt-multi-thread", "macros", "sync", "time"] }
