[package]
name = "redstone_compiler"
version = "0.1.0"
edition = "2021"
publish = false

[dependencies]
eyre = "0.6"
mimalloc = { version = "0.1", default-features = false }
pollster = "0.4"
serde = { version = "1", features = ["derive"] }
serde_json = "1"
structopt = "0.3"
tracing-subscriber = "0.3"
wgpu = "24"
