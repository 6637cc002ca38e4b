[package]
name = "memvid_search"
version = "0.1.0"
edition = "2021"
publish = false

[dependencies]
time = { version = "0.3", features = ["formatting"] }
tracing = "0.1"
