[package]
name = "p2p_discovery"
version = "0.1.0"
edition = "2021"
publish = false

[dependencies]
mdns-sd = "*"
tokio = { version = "*", features = ["rt-multi-thread", "macros", "time", "sync"] }
